use vstd::prelude::*;

use crate::bitvec::{bits_lsb_first, BitVec};
use crate::ilbm::{
    be16, be16_at, be32, be32_at, broken, decimal, describe, describe_pair, fails_with, fails_with_message,
    result_matches, signed8, signed_decimal,
    Error, ErrorKind, FileType, Result, BMHD, TAG_VDAT,
};

verus! {

// ---------------------------------------------------------------------------
// Row layout

/// Whether pixel data with `n` planes can be decoded for this kind of file:
/// chunky files hold 1, 4 or 8 bits per pixel, planar ones up to 8 planes.
pub open spec fn planes_supported(ft: FileType, n: u8) -> bool {
    n == 1 || n == 4 || n == 8 || (ft == FileType::ILBM && n <= 8)
}

/// Bytes per row of one plane: the width rounded up to whole 16-bit words.
pub open spec fn plane_len(width: int) -> int {
    (width + 15) / 16 * 2
}

/// Bytes per row: one plane row per plane, and one more for the mask.
pub open spec fn line_len(h: BMHD) -> int {
    h.num_planes * plane_len(h.width as int) + if h.mask == 1 {
        plane_len(h.width as int)
    } else {
        0
    }
}

/// The value of pixel `x` in a planar row, made of the first `k` planes:
/// bit `p` of the value is bit `7 - x % 8` of byte `x / 8` of plane `p`.
pub open spec fn ilbm_pixel(line: Seq<u8>, pl: int, x: int, k: nat) -> u8
    decreases k,
{
    if k == 0 {
        0
    } else {
        ilbm_pixel(line, pl, x, (k - 1) as nat) | (((line[pl * (k - 1) + x / 8] >> ((7 - x % 8)
            as u8)) & 1u8) << ((k - 1) as u8))
    }
}

/// The value of pixel `x` in a chunky row. With 1 bit per pixel, pixel `x`
/// is bit `x % 8` of byte `x / 8`; with 4, even pixels are the low half of
/// their byte and odd ones the high half. (Both orders are provisional: no
/// sample of either depth was at hand.)
pub open spec fn pbm_pixel(line: Seq<u8>, n: u8, x: int) -> u8 {
    if n == 1 {
        (line[x / 8] >> ((x % 8) as u8)) & 1u8
    } else if n == 4 {
        if x % 2 == 0 {
            line[x / 2] & 15u8
        } else {
            line[x / 2] >> 4u8
        }
    } else {
        line[x]
    }
}

/// The pixels of one row.
pub open spec fn line_pixels(line: Seq<u8>, ft: FileType, h: BMHD) -> Seq<u8> {
    Seq::new(
        h.width as nat,
        |x: int|
            match ft {
                FileType::ILBM => ilbm_pixel(
                    line,
                    plane_len(h.width as int),
                    x,
                    h.num_planes as nat,
                ),
                FileType::PBM => pbm_pixel(line, h.num_planes, x),
            },
    )
}

/// The mask bits of one row: the bytes after the pixel planes, least
/// significant bit first.
pub open spec fn line_mask(line: Seq<u8>, h: BMHD) -> Seq<bool> {
    bits_lsb_first(
        line.subrange(h.num_planes * plane_len(h.width as int), line.len() as int),
        h.width as nat,
    )
}

/// Sequences joined end to end.
pub open spec fn concat<A>(rows: Seq<Seq<A>>) -> Seq<A>
    decreases rows.len(),
{
    if rows.len() == 0 {
        Seq::empty()
    } else {
        concat(rows.drop_last()) + rows.last()
    }
}

/// What a list of decoded rows gives: the pixels, and the mask if the
/// header announces one.
pub open spec fn lines_model(lines: Seq<Seq<u8>>, ft: FileType, h: BMHD) -> (
    Seq<u8>,
    Option<Seq<bool>>,
) {
    (
        concat(lines.map_values(|l: Seq<u8>| line_pixels(l, ft, h))),
        if h.mask == 1 {
            Some(concat(lines.map_values(|l: Seq<u8>| line_mask(l, h))))
        } else {
            None
        },
    )
}

/// The rows of uncompressed data, one after another.
pub open spec fn plain_lines(p: Seq<u8>, ll: int, height: int) -> Seq<Seq<u8>> {
    Seq::new(height as nat, |y: int| p.subrange(y * ll, y * ll + ll))
}

// ---------------------------------------------------------------------------
// Run-length compression

/// Decodes one row of run-length data from `p` at `pos`, after the bytes
/// `acc` of the row already decoded. A control byte `c` below 128 copies the
/// next `c + 1` bytes; one above 128 repeats the next byte `257 - c` times;
/// 128 ends the row, the rest of which is zero. Gives the row and the
/// position after it, or `None` where a run passes the end of the row or of
/// the data.
pub open spec fn rle_line(p: Seq<u8>, pos: int, acc: Seq<u8>, ll: int) -> Option<(Seq<u8>, int)>
    decreases ll - acc.len(),
{
    if acc.len() >= ll {
        Some((acc, pos))
    } else if pos < 0 || pos >= p.len() {
        None
    } else {
        let c = p[pos];
        if c < 128 {
            let n = c + 1;
            if pos + 1 + n > p.len() || acc.len() + n > ll {
                None
            } else {
                rle_line(p, pos + 1 + n, acc + p.subrange(pos + 1, pos + 1 + n), ll)
            }
        } else if c > 128 {
            let n = 257 - c;
            if pos + 2 > p.len() || acc.len() + n > ll {
                None
            } else {
                rle_line(p, pos + 2, acc + Seq::new(n as nat, |_i: int| p[pos + 1]), ll)
            }
        } else {
            Some((acc + Seq::new((ll - acc.len()) as nat, |_i: int| 0u8), pos + 1))
        }
    }
}

/// Decodes `k` rows of run-length data, one after another, from `pos`.
pub open spec fn rle_lines(p: Seq<u8>, pos: int, ll: int, k: nat) -> Option<(Seq<Seq<u8>>, int)>
    decreases k,
{
    if k == 0 {
        Some((Seq::empty(), pos))
    } else {
        match rle_line(p, pos, Seq::empty(), ll) {
            None => None,
            Some((l, q)) => match rle_lines(p, q, ll, (k - 1) as nat) {
                None => None,
                Some((ls, e)) => Some((seq![l] + ls, e)),
            },
        }
    }
}

/// `done` put in front of the rows of `r`.
pub open spec fn prepend_lines(done: Seq<Seq<u8>>, r: Option<(Seq<Seq<u8>>, int)>) -> Option<
    (Seq<Seq<u8>>, int),
> {
    match r {
        None => None,
        Some((ls, e)) => Some((done + ls, e)),
    }
}

// ---------------------------------------------------------------------------
// Word-oriented plane compression

/// `count` copies of a two-byte word.
pub open spec fn repeat_word(word: Seq<u8>, count: nat) -> Seq<u8> {
    Seq::new(2 * count, |i: int| word[i % 2])
}

/// What one command at `ci` produces and where the data after it starts:
/// 0 reads a count and copies that many words, 1 reads a count and repeats
/// the next word that many times, `-n` copies `n` words, `n > 1` repeats the
/// next word `n` times.
pub open spec fn vdat_command(buf: Seq<u8>, ci: int, di: int) -> Option<(Seq<u8>, int)> {
    let len = buf.len() as int;
    let cmd = signed8(buf[ci] as int);
    if cmd == 0 {
        if di + 2 > len {
            None
        } else {
            let count = be16(buf, di);
            if di + 2 + 2 * count > len {
                None
            } else {
                Some((buf.subrange(di + 2, di + 2 + 2 * count), di + 2 + 2 * count))
            }
        }
    } else if cmd == 1 {
        if di + 4 > len {
            None
        } else {
            Some((repeat_word(buf.subrange(di + 2, di + 4), be16(buf, di) as nat), di + 4))
        }
    } else if cmd < 0 {
        if di - 2 * cmd > len {
            None
        } else {
            Some((buf.subrange(di, di - 2 * cmd), di - 2 * cmd))
        }
    } else {
        if di + 2 > len {
            None
        } else {
            Some((repeat_word(buf.subrange(di, di + 2), cmd as nat), di + 2))
        }
    }
}

/// Runs the commands from `ci` on, with the data at `di`, after `acc` was
/// produced; stops after the last command or once the data is used up.
pub open spec fn vdat_commands(buf: Seq<u8>, ci: int, di: int, cnt: int, acc: Seq<u8>) -> Option<
    Seq<u8>,
>
    decreases cnt - ci,
{
    if ci >= cnt {
        Some(acc)
    } else if ci < 0 || ci >= buf.len() {
        None
    } else {
        match vdat_command(buf, ci, di) {
            None => None,
            Some((out, d2)) => if d2 >= buf.len() {
                Some(acc + out)
            } else {
                vdat_commands(buf, ci + 1, d2, cnt, acc + out)
            },
        }
    }
}

/// The byte stream of one plane: a command count `cnt`, commands up to
/// offset `cnt`, then the data they read.
pub open spec fn vdat_stream(buf: Seq<u8>) -> Option<Seq<u8>> {
    if buf.len() < 2 {
        None
    } else {
        let cnt = be16(buf, 0);
        if cnt < 2 {
            None
        } else {
            vdat_commands(buf, 2, cnt, cnt, Seq::empty())
        }
    }
}

/// Where byte `bi` of a plane's stream lands: the stream runs down columns
/// 16 pixels wide, one word per row. Gives the index of the pixel that its
/// most significant bit goes to.
pub open spec fn vdat_base(bi: int, w: int, h: int) -> int {
    let word = bi / 2;
    (word % h) * w + (word / h) * 16 + 8 * (bi % 2)
}

/// `px` with the bits of byte `bi`, most significant first, OR'd into eight
/// pixels in a row as bit `plane`.
pub open spec fn place_byte(px: Seq<u8>, bi: int, value: u8, plane: int, w: int, h: int) -> Seq<
    u8,
> {
    if h == 0 {
        px
    } else {
        let base = vdat_base(bi, w, h);
        Seq::new(
            px.len(),
            |i: int|
                if base <= i < base + 8 {
                    px[i] | (((value >> ((7 - (i - base)) as u8)) & 1u8) << (plane as u8))
                } else {
                    px[i]
                },
        )
    }
}

/// `px` with every byte of a plane's stream placed, in order.
pub open spec fn vdat_place(px: Seq<u8>, stream: Seq<u8>, plane: int, w: int, h: int) -> Seq<u8>
    decreases stream.len(),
{
    if stream.len() == 0 {
        px
    } else {
        place_byte(
            vdat_place(px, stream.drop_last(), plane, w, h),
            stream.len() - 1,
            stream.last(),
            plane,
            w,
            h,
        )
    }
}

/// Decodes the planes from `plane` on, each a sub-chunk tagged `VDAT` at
/// `off`, into `px`.
pub open spec fn vdat_planes(p: Seq<u8>, off: int, plane: int, n: int, w: int, h: int, px: Seq<u8>) -> core::result::Result<Seq<u8>, ErrorKind>
    decreases n - plane,
{
    if plane >= n {
        Ok(px)
    } else if off + 8 > p.len() {
        Err(ErrorKind::BrokenFile)
    } else if be32(p, off) != TAG_VDAT {
        Err(ErrorKind::BrokenFile)
    } else {
        let len = be32(p, off + 4);
        if off + 8 + len > p.len() {
            Err(ErrorKind::BrokenFile)
        } else {
            match vdat_stream(p.subrange(off + 8, off + 8 + len)) {
                None => Err(ErrorKind::BrokenFile),
                Some(stream) => vdat_planes(
                    p,
                    off + 8 + len,
                    plane + 1,
                    n,
                    w,
                    h,
                    vdat_place(px, stream, plane, w, h),
                ),
            }
        }
    }
}

// ---------------------------------------------------------------------------
// The pixel chunk

/// Decoding a pixel chunk's payload: the pixels, row after row, and the
/// mask if the header announces one. Uncompressed and run-length rows carry
/// the mask as an extra plane, one bit per pixel. Word-compressed data
/// stores only the pixel planes, so there the announced mask is empty:
/// no mask bits exist to read, and none are made up.
pub open spec fn body_read_spec(p: Seq<u8>, ft: FileType, h: BMHD) -> core::result::Result<
    (Seq<u8>, Option<Seq<bool>>),
    ErrorKind,
> {
    let ll = line_len(h);
    if !planes_supported(ft, h.num_planes) {
        Err(ErrorKind::BrokenFile)
    } else if h.compression == 0 {
        if h.height * ll > p.len() {
            Err(ErrorKind::BrokenFile)
        } else {
            Ok(lines_model(plain_lines(p, ll, h.height as int), ft, h))
        }
    } else if h.compression == 1 {
        match rle_lines(p, 0, ll, h.height as nat) {
            None => Err(ErrorKind::BrokenFile),
            Some((lines, _)) => Ok(lines_model(lines, ft, h)),
        }
    } else if h.compression == 2 {
        match vdat_planes(
            p,
            0,
            0,
            h.num_planes as int,
            h.width as int,
            h.height as int,
            Seq::new((h.width * h.height) as nat, |_i: int| 0u8),
        ) {
            Err(k) => Err(k),
            Ok(px) => Ok(
                (
                    px,
                    if h.mask == 1 {
                        Some(Seq::<bool>::empty())
                    } else {
                        None
                    },
                ),
            ),
        }
    } else {
        Err(ErrorKind::UnsupportedFileFormat)
    }
}

/// The view of an optional mask.
pub open spec fn mask_view(m: Option<BitVec>) -> Option<Seq<bool>> {
    match m {
        Some(b) => Some(b@),
        None => None,
    }
}

/// An optional mask is well formed.
pub open spec fn mask_wf(m: Option<BitVec>) -> bool {
    match m {
        Some(b) => b.wf(),
        None => true,
    }
}

/// The pixel chunk: one palette index per pixel, row after row, and an
/// optional mask with one bit per pixel.
#[derive(Debug)]
pub struct BODY {
    pub pixels: Vec<u8>,
    pub mask: Option<BitVec>,
}

proof fn lemma_concat_push<A>(rows: Seq<Seq<A>>, row: Seq<A>)
    ensures
        concat(rows.push(row)) == concat(rows) + row,
{
    assert(rows.push(row).drop_last() =~= rows);
}

proof fn lemma_map_push<A, B>(rows: Seq<A>, row: A, f: spec_fn(A) -> B)
    ensures
        rows.push(row).map_values(f) == rows.map_values(f).push(f(row)),
{
    assert(rows.push(row).map_values(f) =~= rows.map_values(f).push(f(row)));
}

/// The model of the rows decoded so far grows by one row.
proof fn lemma_lines_model_push(lines: Seq<Seq<u8>>, line: Seq<u8>, ft: FileType, h: BMHD)
    ensures
        lines_model(lines.push(line), ft, h).0 == lines_model(lines, ft, h).0 + line_pixels(
            line,
            ft,
            h,
        ),
        h.mask == 1 ==> lines_model(lines.push(line), ft, h).1 == Some(
            lines_model(lines, ft, h).1->0 + line_mask(line, h),
        ),
        h.mask != 1 ==> lines_model(lines.push(line), ft, h).1 is None,
{
    let fp = |l: Seq<u8>| line_pixels(l, ft, h);
    let fm = |l: Seq<u8>| line_mask(l, h);
    lemma_map_push(lines, line, fp);
    lemma_concat_push(lines.map_values(fp), fp(line));
    lemma_map_push(lines, line, fm);
    lemma_concat_push(lines.map_values(fm), fm(line));
}

/// The length of the rows joined: `k` rows of `w` each.
proof fn lemma_lines_model_len(lines: Seq<Seq<u8>>, ft: FileType, h: BMHD)
    ensures
        lines_model(lines, ft, h).0.len() == lines.len() * h.width,
        h.mask == 1 ==> lines_model(lines, ft, h).1->0.len() == lines.len() * h.width,
    decreases lines.len(),
{
    if lines.len() > 0 {
        let last = lines.last();
        let init = lines.drop_last();
        lemma_lines_model_len(init, ft, h);
        assert(init.push(last) =~= lines);
        lemma_lines_model_push(init, last, ft, h);
        assert((init.len() + 1) * h.width == init.len() * h.width + h.width) by (nonlinear_arith);
    } else {
        assert(lines.map_values(|l: Seq<u8>| line_pixels(l, ft, h)) =~= Seq::empty());
        assert(lines.map_values(|l: Seq<u8>| line_mask(l, h)) =~= Seq::empty());
    }
}

proof fn lemma_plane_len(w: int)
    requires
        0 <= w,
    ensures
        w <= plane_len(w) * 8,
        plane_len(w) >= 0,
        forall|x: int|
            0 <= x < w ==> #[trigger] (x / 8) < plane_len(w) && x / 2 < 4 * plane_len(w) && x < 8
                * plane_len(w),
{
    assert forall|x: int| 0 <= x < w implies #[trigger] (x / 8) < plane_len(w) && x / 2 < 4
        * plane_len(w) && x < 8 * plane_len(w) by {
        assert(x < (w + 15) / 16 * 16);
    }
}

/// Decodes one row and appends its pixels, and its mask bits if there is a
/// mask.
fn decode_line(
    pixels: &mut Vec<u8>,
    mask: &mut Option<BitVec>,
    line: &[u8],
    header: &BMHD,
    file_type: FileType,
)
    requires
        line@.len() == line_len(*header),
        planes_supported(file_type, header.num_planes),
        (*old(mask) is Some) == (header.mask == 1),
        mask_wf(*old(mask)),
        *old(mask) is Some ==> (*old(mask))->0@.len() + header.width + 8 <= usize::MAX,
        old(pixels)@.len() + header.width <= usize::MAX,
    ensures
        final(pixels)@ == old(pixels)@ + line_pixels(line@, file_type, *header),
        mask_wf(*final(mask)),
        (*final(mask) is Some) == (*old(mask) is Some),
        *old(mask) is Some ==> (*final(mask))->0@ == (*old(mask))->0@ + line_mask(line@, *header),
{
    let width = header.width as usize;
    let n = header.num_planes as usize;
    let total = line.len();
    let pl: usize = (width + 15) / 16 * 2;
    proof {
        lemma_plane_len(width as int);
        assert(n * pl <= line@.len()) by (nonlinear_arith)
            requires
                line@.len() == n * pl + (if header.mask == 1 { pl } else { 0 }),
                pl >= 0,
        ;
    }
    let ghost start = pixels@;
    let ghost row = line_pixels(line@, file_type, *header);
    let mut x: usize = 0;
    while x < width
        invariant
            width == header.width,
            n == header.num_planes,
            pl == plane_len(width as int),
            width <= pl * 8,
            n * pl <= line@.len(),
            total == line@.len(),
            forall|x: int|
                0 <= x < width ==> #[trigger] (x / 8) < pl && x / 2 < 4 * pl && x < 8 * pl,
            line@.len() == line_len(*header),
            planes_supported(file_type, header.num_planes),
            x <= width,
            start.len() + width <= usize::MAX,
            row == line_pixels(line@, file_type, *header),
            pixels@ == start + row.take(x as int),
        decreases width - x,
    {
        let value: u8 = match file_type {
            FileType::ILBM => {
                let byte_offset = x / 8;
                assert((x as int / 8) < pl);
                let shift: u8 = (7 - x % 8) as u8;
                let mut v: u8 = 0;
                let mut p: usize = 0;
                while p < n
                    invariant
                        n == header.num_planes,
                        n <= 8,
                        p <= n,
                        x < width,
                        width <= pl * 8,
                        n * pl <= line@.len(),
                        total == line@.len(),
                        byte_offset == x / 8,
                        byte_offset < pl,
                        shift == (7 - x % 8) as u8,
                        v == ilbm_pixel(line@, pl as int, x as int, p as nat),
                    decreases n - p,
                {
                    proof {
                        assert(pl * p + pl <= n * pl) by (nonlinear_arith)
                            requires
                                p < n,
                                pl >= 0,
                        ;
                        assert(byte_offset < pl);
                    }
                    let bi = pl * p + byte_offset;
                    v = v | (((line[bi] >> shift) & 1u8) << (p as u8));
                    p = p + 1;
                }
                v
            },
            FileType::PBM => {
                if n == 1 {
                    assert(pl <= line@.len()) by (nonlinear_arith)
                        requires
                            n == 1,
                            n * pl <= line@.len(),
                    ;
                    (line[x / 8] >> ((x % 8) as u8)) & 1u8
                } else if n == 4 {
                    assert(4 * pl <= line@.len()) by (nonlinear_arith)
                        requires
                            n == 4,
                            n * pl <= line@.len(),
                    ;
                    if x % 2 == 0 {
                        line[x / 2] & 15u8
                    } else {
                        line[x / 2] >> 4u8
                    }
                } else {
                    assert(8 * pl <= line@.len()) by (nonlinear_arith)
                        requires
                            n == 8,
                            n * pl <= line@.len(),
                    ;
                    line[x]
                }
            },
        };
        pixels.push(value);
        proof {
            assert(pixels@ =~= start + row.take(x + 1));
        }
        x = x + 1;
    }
    proof {
        assert(row.take(width as int) =~= row);
    }
    if let Some(m) = mask {
        let mask_bytes = &line[n * pl..line.len()];
        proof {
            assert(line@.len() == n * pl + pl);
        }
        m.extend_from_bytes(mask_bytes, width);
    }
}

/// Decodes one row of run-length data at `pos`: the row and the position
/// after it, as [`rle_line`] gives them.
fn rle_decode_line(p: &[u8], start: usize, ll: usize) -> (r: Option<(Vec<u8>, usize)>)
    requires
        start <= p@.len(),
    ensures
        match r {
            Some((l, q)) => rle_line(p@, start as int, Seq::empty(), ll as int) == Some(
                (l@, q as int),
            ),
            None => rle_line(p@, start as int, Seq::empty(), ll as int) is None,
        },
{
    let mut line: Vec<u8> = Vec::new();
    let mut pos = start;
    let plen = p.len();
    loop
        invariant
            plen == p@.len(),
            pos <= plen,
            line@.len() <= ll,
            rle_line(p@, start as int, Seq::empty(), ll as int) == rle_line(
                p@,
                pos as int,
                line@,
                ll as int,
            ),
        decreases ll - line@.len(),
    {
        if line.len() >= ll {
            return Some((line, pos));
        }
        if pos >= plen {
            return None;
        }
        let c = p[pos];
        if c < 128 {
            let n: usize = c as usize + 1;
            if plen - pos < 1 + n || ll - line.len() < n {
                return None;
            }
            let ghost before = line@;
            let mut i: usize = 0;
            while i < n
                invariant
                    plen == p@.len(),
                    pos + 1 + n <= plen,
                    i <= n,
                    line@ == before + p@.subrange(pos + 1, pos + 1 + i),
                decreases n - i,
            {
                line.push(p[pos + 1 + i]);
                proof {
                    assert(line@ =~= before + p@.subrange(pos + 1, pos + 1 + i + 1));
                }
                i = i + 1;
            }
            pos = pos + 1 + n;
        } else if c > 128 {
            let n: usize = 257 - c as usize;
            if plen - pos < 2 || ll - line.len() < n {
                return None;
            }
            let v = p[pos + 1];
            let ghost before = line@;
            let mut i: usize = 0;
            while i < n
                invariant
                    i <= n,
                    v == p@[pos + 1],
                    line@ == before + Seq::new(i as nat, |_j: int| v),
                decreases n - i,
            {
                line.push(v);
                proof {
                    assert(line@ =~= before + Seq::new((i + 1) as nat, |_j: int| v));
                }
                i = i + 1;
            }
            proof {
                assert(Seq::new(n as nat, |_j: int| v) =~= Seq::new(n as nat, |_j: int| p@[pos + 1]));
            }
            pos = pos + 2;
        } else {
            let ghost before = line@;
            while line.len() < ll
                invariant
                    before.len() <= line@.len() <= ll,
                    line@ == before + Seq::new((line@.len() - before.len()) as nat, |_j: int| 0u8),
                decreases ll - line@.len(),
            {
                line.push(0);
                proof {
                    assert(line@ =~= before + Seq::new((line@.len() - before.len()) as nat, |_j: int| 0u8));
                }
            }
            return Some((line, pos + 1));
        }
    }
}

proof fn lemma_prepend_step(done: Seq<Seq<u8>>, l: Seq<u8>, r: Option<(Seq<Seq<u8>>, int)>)
    ensures
        prepend_lines(done, prepend_lines(seq![l], r)) == prepend_lines(done.push(l), r),
{
    match r {
        None => {},
        Some((ls, e)) => {
            assert(done + (seq![l] + ls) =~= done.push(l) + ls);
        },
    }
}

/// Runs one command of a plane's stream, appending what it produces.
fn vdat_run_command(buf: &[u8], ci: usize, di: usize, out: &mut Vec<u8>) -> (r: Option<usize>)
    requires
        ci < buf@.len(),
    ensures
        match vdat_command(buf@, ci as int, di as int) {
            Some((o, d2)) => r == Some(d2 as usize) && d2 <= buf@.len() && final(out)@ == old(
                out,
            )@ + o,
            None => r is None,
        },
{
    let len = buf.len();
    let b = buf[ci];
    let cmd: i16 = if b >= 128 {
        b as i16 - 256
    } else {
        b as i16
    };
    let ghost start = out@;
    if cmd == 0 || cmd < 0 {
        let (from, count): (usize, usize) = if cmd == 0 {
            if di > len || len - di < 2 {
                return None;
            }
            (di + 2, be16_at(buf, di) as usize)
        } else {
            (di, (-cmd) as usize)
        };
        if from > len || (len - from) / 2 < count {
            return None;
        }
        let mut i: usize = 0;
        while i < 2 * count
            invariant
                from + 2 * count <= len,
                len == buf@.len(),
                i <= 2 * count,
                out@ == start + buf@.subrange(from as int, from + i),
            decreases 2 * count - i,
        {
            out.push(buf[from + i]);
            proof {
                assert(out@ =~= start + buf@.subrange(from as int, from + i + 1));
            }
            i = i + 1;
        }
        Some(from + 2 * count)
    } else {
        let (word_at, count, next): (usize, usize, usize) = if cmd == 1 {
            if di > len || len - di < 4 {
                return None;
            }
            (di + 2, be16_at(buf, di) as usize, di + 4)
        } else {
            if di > len || len - di < 2 {
                return None;
            }
            (di, cmd as usize, di + 2)
        };
        let w0 = buf[word_at];
        let w1 = buf[word_at + 1];
        let ghost word = buf@.subrange(word_at as int, word_at + 2);
        let mut i: usize = 0;
        while i < count
            invariant
                i <= count,
                count <= 65535,
                word.len() == 2,
                w0 == word[0],
                w1 == word[1],
                out@ == start + repeat_word(word, i as nat),
            decreases count - i,
        {
            out.push(w0);
            out.push(w1);
            proof {
                assert forall|j: int| 0 <= j < 2 * (i + 1) implies #[trigger] repeat_word(
                    word,
                    (i + 1) as nat,
                )[j] == (repeat_word(word, i as nat) + seq![w0, w1])[j] by {
                    if j >= 2 * i {
                        assert(j % 2 == j - 2 * i);
                    }
                }
                assert(repeat_word(word, (i + 1) as nat) =~= repeat_word(word, i as nat) + seq![
                    w0,
                    w1,
                ]);
                assert(out@ =~= start + repeat_word(word, (i + 1) as nat));
            }
            i = i + 1;
        }
        Some(next)
    }
}

/// Decompresses one plane's sub-chunk into its byte stream.
fn vdat_decompress(buf: &[u8]) -> (r: Option<Vec<u8>>)
    ensures
        match r {
            Some(v) => vdat_stream(buf@) == Some(v@),
            None => vdat_stream(buf@) is None,
        },
{
    let len = buf.len();
    if len < 2 {
        return None;
    }
    let cnt = be16_at(buf, 0) as usize;
    if cnt < 2 {
        return None;
    }
    let mut out: Vec<u8> = Vec::new();
    let mut ci: usize = 2;
    let mut di: usize = cnt;
    loop
        invariant
            len == buf@.len(),
            2 <= cnt <= 65535,
            cnt == be16(buf@, 0),
            2 <= ci <= cnt,
            vdat_stream(buf@) == vdat_commands(buf@, ci as int, di as int, cnt as int, out@),
        decreases cnt - ci,
    {
        if ci >= cnt {
            return Some(out);
        }
        if ci >= len {
            return None;
        }
        match vdat_run_command(buf, ci, di, &mut out) {
            None => {
                return None;
            },
            Some(d2) => {
                if d2 >= len {
                    return Some(out);
                }
                ci = ci + 1;
                di = d2;
            },
        }
    }
}

proof fn lemma_place_nothing(px: Seq<u8>, stream: Seq<u8>, plane: int, w: int)
    ensures
        vdat_place(px, stream, plane, w, 0) == px,
    decreases stream.len(),
{
    if stream.len() > 0 {
        lemma_place_nothing(px, stream.drop_last(), plane, w);
    }
}

/// ORs the bits of a plane's stream into the pixels, as bit `plane`.
fn place_stream(pixels: &mut Vec<u8>, stream: &Vec<u8>, plane: u8, w: usize, h: usize)
    requires
        plane < 8,
        w < 65536,
        h < 65536,
    ensures
        final(pixels)@ == vdat_place(old(pixels)@, stream@, plane as int, w as int, h as int),
{
    if h == 0 {
        proof {
            lemma_place_nothing(old(pixels)@, stream@, plane as int, w as int);
        }
        return;
    }
    let ghost start = pixels@;
    let len = pixels.len();
    let mut bi: usize = 0;
    while bi < stream.len()
        invariant
            plane < 8,
            0 < h < 65536,
            w < 65536,
            len == pixels@.len(),
            bi <= stream@.len(),
            pixels@ == vdat_place(start, stream@.take(bi as int), plane as int, w as int, h as int),
        decreases stream@.len() - bi,
    {
        let value = stream[bi];
        let word = bi / 2;
        let row = word % h;
        let column = word / h;
        assert(row * w <= 65536 * 65536) by (nonlinear_arith)
            requires
                row < 65536,
                w < 65536,
        ;
        let base: u128 = (row as u128) * (w as u128) + (column as u128) * 16 + 8 * ((bi % 2) as u128);
        assert(base <= 0x1_0000_0000_0000_0000_0000u128);
        let ghost before = pixels@;
        proof {
            assert(base == vdat_base(bi as int, w as int, h as int));
        }
        let mut bit: u8 = 0;
        while bit < 8 && base + (bit as u128) < len as u128
            invariant
                plane < 8,
                bit <= 8,
                base <= 0x1_0000_0000_0000_0000_0000u128,
                len == pixels@.len(),
                before.len() == len,
                base == vdat_base(bi as int, w as int, h as int),
                forall|i: int|
                    0 <= i < len ==> #[trigger] pixels@[i] == if base <= i < base + bit {
                        before[i] | (((value >> ((7 - (i - base)) as u8)) & 1u8) << plane)
                    } else {
                        before[i]
                    },
            decreases 8 - bit,
        {
            let i = (base + bit as u128) as usize;
            let old_value = pixels[i];
            pixels.set(i, old_value | (((value >> (7 - bit)) & 1u8) << plane));
            bit = bit + 1;
        }
        proof {
            assert(stream@.take(bi + 1).drop_last() =~= stream@.take(bi as int));
            assert(pixels@ =~= place_byte(before, bi as int, value, plane as int, w as int, h as int));
        }
        bi = bi + 1;
    }
    proof {
        assert(stream@.take(bi as int) =~= stream@);
    }
}

/// The view of a decoded pixel chunk matches a model.
pub open spec fn body_matches(v: BODY, m: (Seq<u8>, Option<Seq<bool>>)) -> bool {
    v.pixels@ == m.0 && mask_view(v.mask) == m.1 && mask_wf(v.mask)
}

proof fn lemma_lines_fit(y: int, w: int, height: int)
    requires
        0 <= y < height <= 65535,
        0 <= w <= 65535,
    ensures
        y * w + w + 8 <= 0xFFFF_FFFF,
{
    assert(y * w + w <= 65535 * 65535) by (nonlinear_arith)
        requires
            0 <= y < height <= 65535,
            0 <= w <= 65535,
    ;
}

/// Decodes the plane sub-chunk at `off` into the pixels; gives the offset
/// after it.
fn read_vdat_plane(
    payload: &[u8],
    off: usize,
    plane: usize,
    n: usize,
    pixels: &mut Vec<u8>,
    width: usize,
    height: usize,
) -> (r: Result<usize>)
    requires
        plane < n <= 8,
        off <= payload@.len(),
        width < 65536,
        height < 65536,
    ensures
        match r {
            Ok(next) => next <= payload@.len() && vdat_planes(
                payload@,
                off as int,
                plane as int,
                n as int,
                width as int,
                height as int,
                old(pixels)@,
            ) == vdat_planes(
                payload@,
                next as int,
                plane + 1,
                n as int,
                width as int,
                height as int,
                final(pixels)@,
            ),
            Err(e) => vdat_planes(
                payload@,
                off as int,
                plane as int,
                n as int,
                width as int,
                height as int,
                old(pixels)@,
            ) == Err::<Seq<u8>, ErrorKind>(e.kind),
        },
{
    let plen = payload.len();
    if plen - off < 8 {
        return Err(broken("truncated compressed BODY chunk"));
    }
    let tag = be32_at(payload, off);
    if tag != TAG_VDAT {
        return Err(broken("expected VDAT chunk"));
    }
    let len = be32_at(payload, off + 4) as usize;
    if plen - off - 8 < len {
        return Err(
            Error::new(
                ErrorKind::BrokenFile,
                describe_pair("truncated VDAT chunk: ", (plen - off - 8) as u64, " < ", len as u64),
            ),
        );
    }
    let buf = &payload[off + 8..off + 8 + len];
    match vdat_decompress(buf) {
        None => {
            return Err(broken("broken VDAT command stream"));
        },
        Some(stream) => {
            place_stream(pixels, &stream, plane as u8, width, height);
        },
    }
    Ok(off + 8 + len)
}

/// Decodes the planes of word-compressed pixel data.
fn read_vdat(payload: &[u8], header: &BMHD) -> (r: Result<Vec<u8>>)
    requires
        header.num_planes <= 8,
    ensures
        result_matches(
            r,
            vdat_planes(
                payload@,
                0,
                0,
                header.num_planes as int,
                header.width as int,
                header.height as int,
                Seq::new((header.width * header.height) as nat, |_i: int| 0u8),
            ),
            |v: Vec<u8>, m: Seq<u8>| v@ == m,
        ),
{
    let width = header.width as usize;
    let height = header.height as usize;
    let n = header.num_planes as usize;
    let plen = payload.len();
    assert(width * height <= 65535 * 65535) by (nonlinear_arith)
        requires
            width <= 65535,
            height <= 65535,
    ;
    let mut pixels: Vec<u8> = vec![0u8; width * height];
    proof {
        assert(pixels@ =~= Seq::new((header.width * header.height) as nat, |_i: int| 0u8));
    }
    let ghost goal = vdat_planes(
        payload@,
        0,
        0,
        n as int,
        width as int,
        height as int,
        pixels@,
    );
    let mut off: usize = 0;
    let mut plane: usize = 0;
    while plane < n
        invariant
            n == header.num_planes,
            n <= 8,
            plen == payload@.len(),
            width == header.width,
            height == header.height,
            off <= plen,
            plane <= n,
            goal == vdat_planes(
                payload@,
                0,
                0,
                header.num_planes as int,
                header.width as int,
                header.height as int,
                Seq::new((header.width * header.height) as nat, |_i: int| 0u8),
            ),
            goal == vdat_planes(
                payload@,
                off as int,
                plane as int,
                n as int,
                width as int,
                height as int,
                pixels@,
            ),
        decreases n - plane,
    {
        match read_vdat_plane(payload, off, plane, n, &mut pixels, width, height) {
            Ok(next) => {
                off = next;
            },
            Err(e) => {
                proof {
                    assert(goal == Err::<Seq<u8>, ErrorKind>(e.kind));
                }
                return Err(e);
            },
        }
        plane = plane + 1;
    }
    Ok(pixels)
}

/// Decodes uncompressed rows, one after another.
fn read_plain_rows(payload: &[u8], file_type: FileType, header: &BMHD, ll: usize) -> (r: (
    Vec<u8>,
    Option<BitVec>,
))
    requires
        planes_supported(file_type, header.num_planes),
        ll == line_len(*header),
        header.height * ll <= payload@.len(),
    ensures
        (r.0@, mask_view(r.1)) == lines_model(
            plain_lines(payload@, ll as int, header.height as int),
            file_type,
            *header,
        ),
        mask_wf(r.1),
{
    let width = header.width as usize;
    let height = header.height as usize;
    let plen = payload.len();
    let mut pixels: Vec<u8> = Vec::new();
    let mut mask: Option<BitVec> = if header.mask == 1 {
        Some(BitVec::new())
    } else {
        None
    };
    let ghost mut done: Seq<Seq<u8>> = Seq::empty();
    proof {
        assert(done.map_values(|l: Seq<u8>| line_pixels(l, file_type, *header)) =~= Seq::empty());
        assert(done.map_values(|l: Seq<u8>| line_mask(l, *header)) =~= Seq::empty());
    }
        let ghost lines = plain_lines(payload@, ll as int, height as int);
        let mut y: usize = 0;
        while y < height
            invariant
                height == header.height,
                width == header.width,
                ll == line_len(*header),
                height * ll <= plen,
                plen == payload@.len(),
                planes_supported(file_type, header.num_planes),
                (mask is Some) == (header.mask == 1),
                mask_wf(mask),
                y <= height,
                lines == plain_lines(payload@, ll as int, height as int),
                done == lines.take(y as int),
                pixels@ == lines_model(done, file_type, *header).0,
                mask_view(mask) == lines_model(done, file_type, *header).1,
            decreases height - y,
        {
            proof {
                assert(y * ll + ll <= height * ll) by (nonlinear_arith)
                    requires
                        y < height,
                ;
                lemma_lines_model_len(done, file_type, *header);
                lemma_lines_fit(y as int, width as int, height as int);
            }
            let start = y * ll;
            let line = &payload[start..start + ll];
            decode_line(&mut pixels, &mut mask, line, header, file_type);
            proof {
                lemma_lines_model_push(done, line@, file_type, *header);
                done = done.push(line@);
                assert(done =~= lines.take(y + 1));
            }
            y = y + 1;
        }
        proof {
            assert(done =~= lines);
        }
    (pixels, mask)
}

/// Decodes run-length rows, one after another.
fn read_rle_rows(payload: &[u8], file_type: FileType, header: &BMHD, ll: usize) -> (r: Result<(
    Vec<u8>,
    Option<BitVec>,
)>)
    requires
        planes_supported(file_type, header.num_planes),
        ll == line_len(*header),
        header.compression == 1,
    ensures
        match rle_lines(payload@, 0, ll as int, header.height as nat) {
            None => fails_with(r, ErrorKind::BrokenFile),
            Some((lines, _)) => r matches Ok(v) && (v.0@, mask_view(v.1)) == lines_model(
                lines,
                file_type,
                *header,
            ) && mask_wf(v.1),
        },
{
    let width = header.width as usize;
    let height = header.height as usize;
    let plen = payload.len();
    let mut pixels: Vec<u8> = Vec::new();
    let mut mask: Option<BitVec> = if header.mask == 1 {
        Some(BitVec::new())
    } else {
        None
    };
    let ghost mut done: Seq<Seq<u8>> = Seq::empty();
    proof {
        assert(done.map_values(|l: Seq<u8>| line_pixels(l, file_type, *header)) =~= Seq::empty());
        assert(done.map_values(|l: Seq<u8>| line_mask(l, *header)) =~= Seq::empty());
    }
        let ghost goal = rle_lines(payload@, 0, ll as int, height as nat);
        let mut pos: usize = 0;
        let mut y: usize = 0;
        proof {
            assert(done + Seq::<Seq<u8>>::empty() =~= Seq::<Seq<u8>>::empty());
            match goal {
                Some((ls, e)) => {
                    assert(done + ls =~= ls);
                },
                None => {},
            }
        }
        while y < height
            invariant
                height == header.height,
                width == header.width,
                ll == line_len(*header),
                plen == payload@.len(),
                pos <= plen,
                header.compression == 1,
                goal == rle_lines(payload@, 0, ll as int, height as nat),
                planes_supported(file_type, header.num_planes),
                (mask is Some) == (header.mask == 1),
                mask_wf(mask),
                y <= height,
                done.len() == y,
                goal == prepend_lines(
                    done,
                    rle_lines(payload@, pos as int, ll as int, (height - y) as nat),
                ),
                pixels@ == lines_model(done, file_type, *header).0,
                mask_view(mask) == lines_model(done, file_type, *header).1,
            decreases height - y,
        {
            proof {
                lemma_lines_model_len(done, file_type, *header);
                lemma_lines_fit(y as int, width as int, height as int);
            }
            match rle_decode_line(payload, pos, ll) {
                None => {
                    proof {
                        assert(rle_lines(payload@, pos as int, ll as int, (height - y) as nat)
                            is None);
                        assert(goal is None);
                        assert(header.compression == 1);

                        assert(body_read_spec(payload@, file_type, *header) == Err::<
                            (Seq<u8>, Option<Seq<bool>>),
                            ErrorKind,
                        >(ErrorKind::BrokenFile));
                    }
                    return Err(
                        Error::new(
                            ErrorKind::BrokenFile,
                            describe_pair(
                                "broken BODY compression in row ",
                                y as u64,
                                ", row length ",
                                ll as u64,
                            ),
                        ),
                    );
                },
                Some((line, q)) => {
                    proof {
                        assert(line@.len() == ll) by {
                            lemma_rle_line_len(payload@, pos as int, Seq::empty(), ll as int);
                        }
                        lemma_prepend_step(
                            done,
                            line@,
                            rle_lines(payload@, q as int, ll as int, (height - y - 1) as nat),
                        );
                        lemma_rle_line_pos(payload@, pos as int, Seq::empty(), ll as int);
                    }
                    decode_line(&mut pixels, &mut mask, line.as_slice(), header, file_type);
                    proof {
                        lemma_lines_model_push(done, line@, file_type, *header);
                        done = done.push(line@);
                    }
                    pos = q;
                },
            }
            y = y + 1;
        }
        proof {
            match goal {
                Some((ls, e)) => {
                    assert(ls =~= done + Seq::<Seq<u8>>::empty());
                    assert(ls =~= done);
                },
                None => {},
            }
        }
        Ok((pixels, mask))
}

impl BODY {
    pub fn pixels(&self) -> (r: &[u8])
        ensures
            r@ == self.pixels@,
    {
        self.pixels.as_slice()
    }

    pub fn mask(&self) -> (r: Option<&BitVec>)
        ensures
            r == match self.mask {
                Some(m) => Some(&m),
                None => None::<&BitVec>,
            },
    {
        match &self.mask {
            Some(m) => Some(m),
            None => None,
        }
    }

    /// Decodes a pixel chunk's payload for a file of the given kind and
    /// header: uncompressed rows, run-length rows, or word-compressed
    /// planes, into one palette index per pixel and, if the header says so,
    /// one mask bit per pixel.
    pub fn read(payload: &[u8], file_type: FileType, header: &BMHD) -> (r: Result<BODY>)
        ensures
            result_matches(
                r,
                body_read_spec(payload@, file_type, *header),
                |v: BODY, m: (Seq<u8>, Option<Seq<bool>>)| body_matches(v, m),
            ),
            !planes_supported(file_type, header.num_planes) ==> fails_with_message(
                r,
                ErrorKind::BrokenFile,
                "unsupported number of bit planes: "@ + signed_decimal(header.num_planes as int),
            ),
            planes_supported(file_type, header.num_planes) && header.compression == 0
                && header.height * line_len(*header) > payload@.len() ==> fails_with_message(
                r,
                ErrorKind::BrokenFile,
                "truncated BODY chunk: "@ + decimal(payload@.len()) + " < "@ + decimal(
                    (header.height * line_len(*header)) as nat,
                ),
            ),
            planes_supported(file_type, header.num_planes) && header.compression > 2
                ==> fails_with_message(
                r,
                ErrorKind::UnsupportedFileFormat,
                "unsupported compression flag: "@ + signed_decimal(header.compression as int),
            ),
    {
        let n = header.num_planes;
        if !(n == 1 || n == 4 || n == 8 || (file_type == FileType::ILBM && n <= 8)) {
            return Err(
                Error::new(
                    ErrorKind::BrokenFile,
                    describe("unsupported number of bit planes: ", n as i64),
                ),
            );
        }
        let width = header.width as usize;
        let height = header.height as usize;
        let pl: usize = (width + 15) / 16 * 2;
        assert((n as usize) * pl <= 8 * 8192) by (nonlinear_arith)
            requires
                n <= 8,
                pl <= 8192,
        ;
        let ll: usize = (n as usize) * pl + if header.mask == 1 {
            pl
        } else {
            0
        };
        let plen = payload.len();
        proof {
            assert(ll == line_len(*header));
        }
        if header.compression == 2 {
            let pixels = match read_vdat(payload, header) {
                Ok(p) => p,
                Err(e) => {
                    return Err(e);
                },
            };
            let mask = if header.mask == 1 {
                let m = BitVec::new();
                Some(m)
            } else {
                None
            };
            return Ok(BODY { pixels, mask });
        }
        if header.compression > 2 {
            return Err(
                Error::new(
                    ErrorKind::UnsupportedFileFormat,
                    describe("unsupported compression flag: ", header.compression as i64),
                ),
            );
        }
        if header.compression == 0 {
            assert(height * ll <= 65535 * (9 * 8192)) by (nonlinear_arith)
                requires
                    height <= 65535,
                    ll <= 9 * 8192,
            ;
            if (height as u64) * (ll as u64) > plen as u64 {
                return Err(
                    Error::new(
                        ErrorKind::BrokenFile,
                        describe_pair(
                            "truncated BODY chunk: ",
                            plen as u64,
                            " < ",
                            (height as u64) * (ll as u64),
                        ),
                    ),
                );
            }
            let (pixels, mask) = read_plain_rows(payload, file_type, header, ll);
            Ok(BODY { pixels, mask })
        } else {
            match read_rle_rows(payload, file_type, header, ll) {
                Ok((pixels, mask)) => Ok(BODY { pixels, mask }),
                Err(e) => Err(e),
            }
        }
    }
}

proof fn lemma_rle_line_len(p: Seq<u8>, pos: int, acc: Seq<u8>, ll: int)
    requires
        acc.len() <= ll,
    ensures
        rle_line(p, pos, acc, ll) matches Some((l, _)) ==> l.len() == ll,
    decreases ll - acc.len(),
{
    if acc.len() < ll && 0 <= pos < p.len() {
        let c = p[pos];
        if c < 128 {
            let n = c + 1;
            if !(pos + 1 + n > p.len() || acc.len() + n > ll) {
                lemma_rle_line_len(p, pos + 1 + n, acc + p.subrange(pos + 1, pos + 1 + n), ll);
            }
        } else if c > 128 {
            let n = 257 - c;
            if !(pos + 2 > p.len() || acc.len() + n > ll) {
                lemma_rle_line_len(p, pos + 2, acc + Seq::new(n as nat, |_i: int| p[pos + 1]), ll);
            }
        }
    }
}

proof fn lemma_rle_line_pos(p: Seq<u8>, pos: int, acc: Seq<u8>, ll: int)
    requires
        0 <= pos <= p.len(),
    ensures
        rle_line(p, pos, acc, ll) matches Some((_, q)) ==> pos <= q <= p.len(),
    decreases ll - acc.len(),
{
    if acc.len() < ll && 0 <= pos < p.len() {
        let c = p[pos];
        if c < 128 {
            let n = c + 1;
            if !(pos + 1 + n > p.len() || acc.len() + n > ll) {
                lemma_rle_line_pos(p, pos + 1 + n, acc + p.subrange(pos + 1, pos + 1 + n), ll);
            }
        } else if c > 128 {
            let n = 257 - c;
            if !(pos + 2 > p.len() || acc.len() + n > ll) {
                lemma_rle_line_pos(p, pos + 2, acc + Seq::new(n as nat, |_i: int| p[pos + 1]), ll);
            }
        }
    }
}

/// A reference run-length encoder: literal runs of at most 128 bytes.
pub open spec fn rle_encode(s: Seq<u8>) -> Seq<u8>
    decreases s.len(),
{
    if s.len() == 0 {
        Seq::empty()
    } else {
        let n: int = if s.len() < 128 {
            s.len() as int
        } else {
            128
        };
        seq![(n - 1) as u8] + s.take(n) + rle_encode(s.skip(n))
    }
}

/// `e` is a run-length encoding of exactly `s`: packets one after another,
/// each a control byte `c` below 128 followed by the next `c + 1` bytes of
/// `s`, or a control byte above 128 followed by one byte that the next
/// `257 - c` bytes of `s` all equal.
pub open spec fn rle_encodes(e: Seq<u8>, s: Seq<u8>) -> bool
    decreases e.len(),
{
    if e.len() == 0 {
        s.len() == 0
    } else {
        let c = e[0];
        if c < 128 {
            let n = c + 1;
            &&& 1 + n <= e.len()
            &&& n <= s.len()
            &&& e.subrange(1, 1 + n) == s.take(n as int)
            &&& rle_encodes(e.skip(1 + n), s.skip(n as int))
        } else if c > 128 {
            let n = 257 - c;
            &&& 2 <= e.len()
            &&& n <= s.len()
            &&& s.take(n as int) == Seq::new(n as nat, |_i: int| e[1])
            &&& rle_encodes(e.skip(2), s.skip(n as int))
        } else {
            false
        }
    }
}

/// Sequences joined end to end, first to last.
pub open spec fn joined(es: Seq<Seq<u8>>) -> Seq<u8>
    decreases es.len(),
{
    if es.len() == 0 {
        Seq::empty()
    } else {
        es[0] + joined(es.skip(1))
    }
}

proof fn lemma_rle_line_of_encoding(e: Seq<u8>, s: Seq<u8>, p: Seq<u8>, pos: int, acc: Seq<u8>, ll: int)
    requires
        rle_encodes(e, s),
        acc.len() + s.len() == ll,
        0 <= pos,
        pos + e.len() <= p.len(),
        p.subrange(pos, pos + e.len()) == e,
    ensures
        rle_line(p, pos, acc, ll) == Some((acc + s, pos + e.len())),
    decreases e.len(),
{
    if e.len() == 0 {
        assert(acc + s =~= acc);
    } else {
        let c = e[0];
        assert(p[pos] == p.subrange(pos, pos + e.len())[0]);
        if c < 128 {
            let n = c + 1;
            assert(p.subrange(pos + 1, pos + 1 + n) =~= s.take(n as int)) by {
                assert forall|i: int| 0 <= i < n implies #[trigger] p.subrange(pos + 1, pos + 1 + n)[i]
                    == e.subrange(1, 1 + n)[i] by {
                    assert(p.subrange(pos, pos + e.len())[1 + i] == e[1 + i]);
                }
            }
            let rest = e.skip(1 + n);
            assert(p.subrange(pos + 1 + n, pos + 1 + n + rest.len()) =~= rest) by {
                assert forall|i: int| 0 <= i < rest.len() implies #[trigger] p.subrange(
                    pos + 1 + n,
                    pos + 1 + n + rest.len(),
                )[i] == rest[i] by {
                    assert(p.subrange(pos, pos + e.len())[1 + n + i] == e[1 + n + i]);
                }
            }
            lemma_rle_line_of_encoding(
                rest,
                s.skip(n as int),
                p,
                pos + 1 + n,
                acc + s.take(n as int),
                ll,
            );
            assert(acc + s.take(n as int) + s.skip(n as int) =~= acc + s);
        } else {
            let n = 257 - c;
            assert(p[pos + 1] == p.subrange(pos, pos + e.len())[1]);
            let rest = e.skip(2);
            assert(p.subrange(pos + 2, pos + 2 + rest.len()) =~= rest) by {
                assert forall|i: int| 0 <= i < rest.len() implies #[trigger] p.subrange(
                    pos + 2,
                    pos + 2 + rest.len(),
                )[i] == rest[i] by {
                    assert(p.subrange(pos, pos + e.len())[2 + i] == e[2 + i]);
                }
            }
            assert(Seq::new(n as nat, |_i: int| p[pos + 1]) =~= s.take(n as int));
            lemma_rle_line_of_encoding(
                rest,
                s.skip(n as int),
                p,
                pos + 2,
                acc + s.take(n as int),
                ll,
            );
            assert(acc + s.take(n as int) + s.skip(n as int) =~= acc + s);
        }
    }
}

proof fn lemma_rle_lines_of_encodings(es: Seq<Seq<u8>>, rows: Seq<Seq<u8>>, p: Seq<u8>, pos: int, ll: int)
    requires
        es.len() == rows.len(),
        forall|i: int| 0 <= i < rows.len() ==> #[trigger] rows[i].len() == ll,
        forall|i: int| 0 <= i < rows.len() ==> #[trigger] rle_encodes(es[i], rows[i]),
        0 <= pos,
        pos + joined(es).len() <= p.len(),
        p.subrange(pos, pos + joined(es).len()) == joined(es),
    ensures
        rle_lines(p, pos, ll, rows.len()) == Some((rows, pos + joined(es).len())),
    decreases rows.len(),
{
    if rows.len() == 0 {
        assert(rows =~= Seq::<Seq<u8>>::empty());
    } else {
        let e0 = es[0];
        let er = joined(es.skip(1));
        let all = joined(es);
        assert(all == e0 + er);
        assert(p.subrange(pos, pos + e0.len()) =~= e0) by {
            assert forall|i: int| 0 <= i < e0.len() implies #[trigger] p.subrange(pos, pos + e0.len())[i]
                == e0[i] by {
                assert(p.subrange(pos, pos + all.len())[i] == all[i]);
            }
        }
        assert(p.subrange(pos + e0.len(), pos + e0.len() + er.len()) =~= er) by {
            assert forall|i: int| 0 <= i < er.len() implies #[trigger] p.subrange(
                pos + e0.len(),
                pos + e0.len() + er.len(),
            )[i] == er[i] by {
                assert(p.subrange(pos, pos + all.len())[e0.len() + i] == all[e0.len() + i]);
            }
        }
        assert(rle_encodes(es[0], rows[0]));
        assert(rows[0].len() == ll);
        lemma_rle_line_of_encoding(e0, rows[0], p, pos, Seq::empty(), ll);
        assert(Seq::<u8>::empty() + rows[0] =~= rows[0]);
        assert forall|i: int| 0 <= i < rows.skip(1).len() implies #[trigger] rows.skip(1)[i].len()
            == ll by {
            assert(rows.skip(1)[i] == rows[i + 1]);
        }
        assert forall|i: int| 0 <= i < rows.skip(1).len() implies #[trigger] rle_encodes(
            es.skip(1)[i],
            rows.skip(1)[i],
        ) by {
            assert(rows.skip(1)[i] == rows[i + 1]);
            assert(es.skip(1)[i] == es[i + 1]);
        }
        lemma_rle_lines_of_encodings(es.skip(1), rows.skip(1), p, pos + e0.len(), ll);
        assert(seq![rows[0]] + rows.skip(1) =~= rows);
    }
}

/// Run-length decoding undoes any encoder: rows of the row length, each
/// given as a run-length encoding of it (literal and repeat packets, never
/// the control byte 128) and put one after another, decode to the same
/// rows, ending right after the encoded bytes, whatever follows them.
pub proof fn byterun1_round_trip(es: Seq<Seq<u8>>, rows: Seq<Seq<u8>>, rest: Seq<u8>, ll: int)
    requires
        es.len() == rows.len(),
        forall|i: int| 0 <= i < rows.len() ==> #[trigger] rows[i].len() == ll,
        forall|i: int| 0 <= i < rows.len() ==> #[trigger] rle_encodes(es[i], rows[i]),
    ensures
        rle_lines(joined(es) + rest, 0, ll, rows.len()) == Some(
            (rows, joined(es).len() as int),
        ),
{
    let e = joined(es);
    assert((e + rest).subrange(0, e.len() as int) =~= e);
    lemma_rle_lines_of_encodings(es, rows, e + rest, 0, ll);
}

/// The reference encoder [`rle_encode`] gives a run-length encoding of its
/// input.
pub proof fn reference_encoder_encodes(s: Seq<u8>)
    ensures
        rle_encodes(rle_encode(s), s),
    decreases s.len(),
{
    if s.len() > 0 {
        let n: int = if s.len() < 128 {
            s.len() as int
        } else {
            128
        };
        let e = rle_encode(s);
        let tail = rle_encode(s.skip(n));
        reference_encoder_encodes(s.skip(n));
        assert(e == seq![(n - 1) as u8] + s.take(n) + tail);
        assert(e[0] == (n - 1) as u8);
        assert(e.subrange(1, 1 + n) =~= s.take(n));
        assert(e.skip(1 + n) =~= tail);
    }
}

} // verus!
