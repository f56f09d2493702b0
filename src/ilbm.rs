use vstd::prelude::*;

use crate::body::{body_matches, body_read_spec};
use crate::color::Rgb;
pub use crate::text::{decimal, describe, describe_pair, signed_decimal};

pub use crate::body::BODY;

verus! {

/// What went wrong while decoding.
#[derive(Debug, PartialEq, Eq, Clone, Copy, Structural)]
pub enum ErrorKind {
    /// Not a container this decoder reads, or a compression it does not know.
    UnsupportedFileFormat,
    /// A chunk that contradicts the format: too short, out of order, out of
    /// range, or compressed data that does not fit.
    BrokenFile,
    /// The data ended before a read was done.
    IO,
}

/// A decoding error: its kind, a message, and the error that led to it.
#[derive(Debug)]
pub struct Error {
    pub kind: ErrorKind,
    pub message: String,
    pub cause: Option<Box<Error>>,
}

pub type Result<T> = core::result::Result<T, Error>;

/// `r` is an error of kind `k`.
pub open spec fn fails_with<T>(r: Result<T>, k: ErrorKind) -> bool {
    match r {
        Err(e) => e.kind == k,
        Ok(_) => false,
    }
}

/// `r` is an error of kind `k` with message `m`.
pub open spec fn fails_with_message<T>(r: Result<T>, k: ErrorKind, m: Seq<char>) -> bool {
    match r {
        Err(e) => e.kind == k && e.message@ == m,
        Ok(_) => false,
    }
}

/// The exec result `r` stands for the model result `m`: both succeed with
/// values related by `same`, or both fail with the same kind.
pub open spec fn result_matches<T, M>(
    r: Result<T>,
    m: core::result::Result<M, ErrorKind>,
    same: spec_fn(T, M) -> bool,
) -> bool {
    match (r, m) {
        (Ok(v), Ok(w)) => same(v, w),
        (Err(e), Err(k)) => e.kind == k,
        _ => false,
    }
}

impl Error {
    pub fn kind(&self) -> (r: ErrorKind)
        ensures
            r == self.kind,
    {
        self.kind
    }

    pub fn message(&self) -> (r: &str)
        ensures
            r@ == self.message@,
    {
        self.message.as_str()
    }

    pub fn new(kind: ErrorKind, message: String) -> (r: Self)
        ensures
            r.kind == kind,
            r.message == message,
            r.cause is None,
    {
        Error { kind, message, cause: None }
    }

    pub fn with_cause(kind: ErrorKind, message: String, cause: Error) -> (r: Self)
        ensures
            r.kind == kind,
            r.message == message,
            r.cause == Some(Box::new(cause)),
    {
        Error { kind, message, cause: Some(Box::new(cause)) }
    }
}

pub(crate) fn broken(text: &str) -> (r: Error)
    ensures
        r.kind == ErrorKind::BrokenFile,
        r.message@ == text@,
{
    Error::new(ErrorKind::BrokenFile, text.to_owned())
}

pub(crate) fn end_of_data() -> (r: Error)
    ensures
        r.kind == ErrorKind::IO,
{
    Error::new(ErrorKind::IO, "unexpected end of data".to_owned())
}

// ---------------------------------------------------------------------------
// Big-endian fields

/// The unsigned 16-bit big-endian number at `i`.
pub open spec fn be16(s: Seq<u8>, i: int) -> int {
    s[i] * 256 + s[i + 1]
}

/// The unsigned 32-bit big-endian number at `i`.
pub open spec fn be32(s: Seq<u8>, i: int) -> int {
    be16(s, i) * 65536 + be16(s, i + 2)
}

/// The two's-complement reading of a 16-bit number.
pub open spec fn signed16(v: int) -> int {
    if v >= 32768 {
        v - 65536
    } else {
        v
    }
}

/// The two's-complement reading of a 32-bit number.
pub open spec fn signed32(v: int) -> int {
    if v >= 0x8000_0000 {
        v - 0x1_0000_0000
    } else {
        v
    }
}

/// The two's-complement reading of an 8-bit number.
pub open spec fn signed8(v: int) -> int {
    if v >= 128 {
        v - 256
    } else {
        v
    }
}

pub(crate) fn be16_at(data: &[u8], pos: usize) -> (r: u16)
    requires
        pos + 2 <= data@.len(),
    ensures
        r == be16(data@, pos as int),
{
    (data[pos] as u16) * 256 + (data[pos + 1] as u16)
}

pub(crate) fn be32_at(data: &[u8], pos: usize) -> (r: u32)
    requires
        pos + 4 <= data@.len(),
    ensures
        r == be32(data@, pos as int),
{
    let n = data.len();
    assert(pos + 2 <= n);
    (be16_at(data, pos) as u32) * 65536 + (be16_at(data, pos + 2) as u32)
}

fn to_signed16(v: u16) -> (r: i16)
    ensures
        r == signed16(v as int),
{
    if v >= 32768 {
        (v as i32 - 65536) as i16
    } else {
        v as i16
    }
}

/// The byte at `pos`, or an IO error past the end of `data`.
pub fn read_u8(data: &[u8], pos: usize) -> (r: Result<u8>)
    ensures
        pos + 1 <= data@.len() ==> r == Ok::<u8, Error>(data@[pos as int]),
        pos + 1 > data@.len() ==> fails_with(r, ErrorKind::IO),
{
    if pos < data.len() {
        Ok(data[pos])
    } else {
        Err(end_of_data())
    }
}

/// The signed byte at `pos`, or an IO error past the end of `data`.
pub fn read_i8(data: &[u8], pos: usize) -> (r: Result<i8>)
    ensures
        pos + 1 <= data@.len() ==> r == Ok::<i8, Error>(signed8(data@[pos as int] as int) as i8),
        pos + 1 > data@.len() ==> fails_with(r, ErrorKind::IO),
{
    if pos < data.len() {
        let v = data[pos];
        if v >= 128 {
            Ok((v as i16 - 256) as i8)
        } else {
            Ok(v as i8)
        }
    } else {
        Err(end_of_data())
    }
}

/// The big-endian `u16` at `pos`, or an IO error past the end of `data`.
pub fn read_u16be(data: &[u8], pos: usize) -> (r: Result<u16>)
    ensures
        pos + 2 <= data@.len() ==> r == Ok::<u16, Error>(be16(data@, pos as int) as u16),
        pos + 2 > data@.len() ==> fails_with(r, ErrorKind::IO),
{
    if pos <= data.len() && data.len() - pos >= 2 {
        Ok(be16_at(data, pos))
    } else {
        Err(end_of_data())
    }
}

/// The big-endian `i16` at `pos`, or an IO error past the end of `data`.
pub fn read_i16be(data: &[u8], pos: usize) -> (r: Result<i16>)
    ensures
        pos + 2 <= data@.len() ==> r == Ok::<i16, Error>(
            signed16(be16(data@, pos as int)) as i16,
        ),
        pos + 2 > data@.len() ==> fails_with(r, ErrorKind::IO),
{
    if pos <= data.len() && data.len() - pos >= 2 {
        Ok(to_signed16(be16_at(data, pos)))
    } else {
        Err(end_of_data())
    }
}

/// The big-endian `u32` at `pos`, or an IO error past the end of `data`.
pub fn read_u32be(data: &[u8], pos: usize) -> (r: Result<u32>)
    ensures
        pos + 4 <= data@.len() ==> r == Ok::<u32, Error>(be32(data@, pos as int) as u32),
        pos + 4 > data@.len() ==> fails_with(r, ErrorKind::IO),
{
    if pos <= data.len() && data.len() - pos >= 4 {
        Ok(be32_at(data, pos))
    } else {
        Err(end_of_data())
    }
}

/// The big-endian `i32` at `pos`, or an IO error past the end of `data`.
pub fn read_i32be(data: &[u8], pos: usize) -> (r: Result<i32>)
    ensures
        pos + 4 <= data@.len() ==> r == Ok::<i32, Error>(
            signed32(be32(data@, pos as int)) as i32,
        ),
        pos + 4 > data@.len() ==> fails_with(r, ErrorKind::IO),
{
    if pos <= data.len() && data.len() - pos >= 4 {
        let v = be32_at(data, pos);
        if v >= 0x8000_0000 {
            Ok((v as i64 - 0x1_0000_0000) as i32)
        } else {
            Ok(v as i32)
        }
    } else {
        Err(end_of_data())
    }
}

// ---------------------------------------------------------------------------
// Chunk tags, as big-endian numbers of their four ASCII letters

pub const TAG_FORM: u32 = 0x464F_524D;
pub const TAG_ILBM: u32 = 0x494C_424D;
pub const TAG_PBM: u32 = 0x5042_4D20;
pub const TAG_BMHD: u32 = 0x424D_4844;
pub const TAG_BODY: u32 = 0x424F_4459;
pub const TAG_CMAP: u32 = 0x434D_4150;
pub const TAG_CRNG: u32 = 0x4352_4E47;
pub const TAG_CCRT: u32 = 0x4343_5254;
pub const TAG_CAMG: u32 = 0x4341_4D47;
pub const TAG_VDAT: u32 = 0x5644_4154;

/// The header chunk: image size and layout.
#[derive(Debug, Clone, Copy, PartialEq, Eq)]
pub struct BMHD {
    pub width: u16,
    pub height: u16,
    pub x_origin: i16,
    pub y_origin: i16,
    pub num_planes: u8,
    pub mask: u8,
    pub compression: u8,
    pub flags: u8,
    pub trans_color: u16,
    pub x_aspect: u8,
    pub y_aspect: u8,
    pub page_width: i16,
    pub page_heigth: i16,
}

/// The header that a payload of at least `BMHD::SIZE` bytes holds.
pub open spec fn bmhd_spec(p: Seq<u8>) -> BMHD {
    BMHD {
        width: be16(p, 0) as u16,
        height: be16(p, 2) as u16,
        x_origin: signed16(be16(p, 4)) as i16,
        y_origin: signed16(be16(p, 6)) as i16,
        num_planes: p[8],
        mask: p[9],
        compression: p[10],
        flags: p[11],
        trans_color: be16(p, 12) as u16,
        x_aspect: p[14],
        y_aspect: p[15],
        page_width: signed16(be16(p, 16)) as i16,
        page_heigth: signed16(be16(p, 18)) as i16,
    }
}

impl BMHD {
    pub const SIZE: u32 = 20;

    pub fn width(&self) -> (r: u16)
        ensures
            r == self.width,
    {
        self.width
    }

    pub fn height(&self) -> (r: u16)
        ensures
            r == self.height,
    {
        self.height
    }

    pub fn x_origin(&self) -> (r: i16)
        ensures
            r == self.x_origin,
    {
        self.x_origin
    }

    pub fn y_origin(&self) -> (r: i16)
        ensures
            r == self.y_origin,
    {
        self.y_origin
    }

    pub fn num_planes(&self) -> (r: u8)
        ensures
            r == self.num_planes,
    {
        self.num_planes
    }

    pub fn mask(&self) -> (r: u8)
        ensures
            r == self.mask,
    {
        self.mask
    }

    pub fn compression(&self) -> (r: u8)
        ensures
            r == self.compression,
    {
        self.compression
    }

    pub fn flags(&self) -> (r: u8)
        ensures
            r == self.flags,
    {
        self.flags
    }

    pub fn trans_color(&self) -> (r: u16)
        ensures
            r == self.trans_color,
    {
        self.trans_color
    }

    pub fn x_aspect(&self) -> (r: u8)
        ensures
            r == self.x_aspect,
    {
        self.x_aspect
    }

    pub fn y_aspect(&self) -> (r: u8)
        ensures
            r == self.y_aspect,
    {
        self.y_aspect
    }

    pub fn page_width(&self) -> (r: i16)
        ensures
            r == self.page_width,
    {
        self.page_width
    }

    pub fn page_heigth(&self) -> (r: i16)
        ensures
            r == self.page_heigth,
    {
        self.page_heigth
    }

    /// Reads the header from a chunk payload; bytes past the first
    /// `SIZE` are padding. A shorter payload is a broken file.
    pub fn read(payload: &[u8]) -> (r: Result<BMHD>)
        ensures
            result_matches(r, bmhd_read_spec(payload@), |v: BMHD, w: BMHD| v == w),
            payload@.len() < 20 ==> fails_with_message(
                r,
                ErrorKind::BrokenFile,
                "truncated BMHD chunk: "@ + decimal(payload@.len()) + " < "@ + decimal(20),
            ),
    {
        if payload.len() < 20 {
            return Err(
                Error::new(
                    ErrorKind::BrokenFile,
                    describe_pair("truncated BMHD chunk: ", payload.len() as u64, " < ", 20),
                ),
            );
        }
        Ok(
            BMHD {
                width: be16_at(payload, 0),
                height: be16_at(payload, 2),
                x_origin: to_signed16(be16_at(payload, 4)),
                y_origin: to_signed16(be16_at(payload, 6)),
                num_planes: payload[8],
                mask: payload[9],
                compression: payload[10],
                flags: payload[11],
                trans_color: be16_at(payload, 12),
                x_aspect: payload[14],
                y_aspect: payload[15],
                page_width: to_signed16(be16_at(payload, 16)),
                page_heigth: to_signed16(be16_at(payload, 18)),
            },
        )
    }
}

/// Reading a header chunk: a broken file if the payload is short.
pub open spec fn bmhd_read_spec(p: Seq<u8>) -> core::result::Result<BMHD, ErrorKind> {
    if p.len() < 20 {
        Err(ErrorKind::BrokenFile)
    } else {
        Ok(bmhd_spec(p))
    }
}

/// The two kinds of container: planar pixels, or chunky pixels.
#[derive(Debug, Clone, Copy, PartialEq, Eq, Structural)]
pub enum FileType {
    ILBM,
    PBM,
}

impl FileType {
    /// The kind's name as it stands in a file.
    pub fn name(&self) -> (r: &'static str)
        ensures
            *self == FileType::ILBM ==> r@ == "ILBM"@,
            *self == FileType::PBM ==> r@ == "PBM"@,
    {
        match self {
            FileType::ILBM => "ILBM",
            FileType::PBM => "PBM",
        }
    }
}

/// A color map chunk.
#[derive(Debug, Clone)]
pub struct CMAP {
    pub colors: Vec<Rgb>,
}

/// The colors of a color map payload: one for each whole group of three
/// bytes; what is left over is padding.
pub open spec fn cmap_spec(p: Seq<u8>) -> Seq<Rgb> {
    Seq::new(p.len() / 3, |i: int| Rgb([p[3 * i], p[3 * i + 1], p[3 * i + 2]]))
}

impl CMAP {
    pub fn colors(&self) -> (r: &[Rgb])
        ensures
            r@ == self.colors@,
    {
        self.colors.as_slice()
    }

    /// Reads the colors of a color map payload.
    pub fn read(payload: &[u8]) -> (r: CMAP)
        ensures
            r.colors@ == cmap_spec(payload@),
    {
        let len = payload.len();
        let n = len / 3;
        let mut colors: Vec<Rgb> = Vec::new();
        let mut i: usize = 0;
        while i < n
            invariant
                len == payload@.len(),
                n == payload@.len() / 3,
                i <= n,
                colors@ == cmap_spec(payload@).take(i as int),
            decreases n - i,
        {
            assert(3 * i + 3 <= payload@.len());
            let c = Rgb([payload[3 * i], payload[3 * i + 1], payload[3 * i + 2]]);
            colors.push(c);
            proof {
                assert(colors@ =~= cmap_spec(payload@).take(i + 1));
            }
            i = i + 1;
        }
        proof {
            assert(colors@ =~= cmap_spec(payload@));
        }
        CMAP { colors }
    }
}

/// The viewport mode chunk, kept as its raw flags.
#[derive(Debug, Clone, Copy, PartialEq, Eq)]
pub struct CAMG {
    pub viewport_mode: u32,
}

/// Reading a viewport mode chunk: a broken file if the payload is short.
pub open spec fn camg_read_spec(p: Seq<u8>) -> core::result::Result<CAMG, ErrorKind> {
    if p.len() < 4 {
        Err(ErrorKind::BrokenFile)
    } else {
        Ok(CAMG { viewport_mode: be32(p, 0) as u32 })
    }
}

impl CAMG {
    pub const SIZE: u32 = 4;

    pub fn viewport_mode(&self) -> (r: u32)
        ensures
            r == self.viewport_mode,
    {
        self.viewport_mode
    }

    pub fn read(payload: &[u8]) -> (r: Result<CAMG>)
        ensures
            result_matches(r, camg_read_spec(payload@), |v: CAMG, w: CAMG| v == w),
            payload@.len() < 4 ==> fails_with_message(
                r,
                ErrorKind::BrokenFile,
                "truncated CAMG chunk: "@ + decimal(payload@.len()) + " < "@ + decimal(4),
            ),
    {
        if payload.len() < 4 {
            return Err(
                Error::new(
                    ErrorKind::BrokenFile,
                    describe_pair("truncated CAMG chunk: ", payload.len() as u64, " < ", 4),
                ),
            );
        }
        Ok(CAMG { viewport_mode: be32_at(payload, 0) })
    }
}

/// A color range chunk.
#[derive(Debug, Clone, Copy, PartialEq, Eq)]
pub struct CRNG {
    pub rate: u16,
    pub flags: u16,
    pub low: u8,
    pub high: u8,
}

/// Reading a color range chunk: two bytes of padding, rate, flags, low and
/// high; a broken file if the payload is short.
pub open spec fn crng_read_spec(p: Seq<u8>) -> core::result::Result<CRNG, ErrorKind> {
    if p.len() < 8 {
        Err(ErrorKind::BrokenFile)
    } else {
        Ok(CRNG { rate: be16(p, 2) as u16, flags: be16(p, 4) as u16, low: p[6], high: p[7] })
    }
}

impl CRNG {
    pub const SIZE: u32 = 8;

    pub fn rate(&self) -> (r: u16)
        ensures
            r == self.rate,
    {
        self.rate
    }

    pub fn flags(&self) -> (r: u16)
        ensures
            r == self.flags,
    {
        self.flags
    }

    pub fn low(&self) -> (r: u8)
        ensures
            r == self.low,
    {
        self.low
    }

    pub fn high(&self) -> (r: u8)
        ensures
            r == self.high,
    {
        self.high
    }

    pub fn read(payload: &[u8]) -> (r: Result<CRNG>)
        ensures
            result_matches(r, crng_read_spec(payload@), |v: CRNG, w: CRNG| v == w),
            payload@.len() < 8 ==> fails_with_message(
                r,
                ErrorKind::BrokenFile,
                "truncated CRNG chunk: "@ + decimal(payload@.len()) + " < "@ + decimal(8),
            ),
    {
        if payload.len() < 8 {
            return Err(
                Error::new(
                    ErrorKind::BrokenFile,
                    describe_pair("truncated CRNG chunk: ", payload.len() as u64, " < ", 8),
                ),
            );
        }
        Ok(
            CRNG {
                rate: be16_at(payload, 2),
                flags: be16_at(payload, 4),
                low: payload[6],
                high: payload[7],
            },
        )
    }
}

/// A timed color cycle chunk.
#[derive(Debug, Clone, Copy, PartialEq, Eq)]
pub struct CCRT {
    pub direction: i16,
    pub low: u8,
    pub high: u8,
    pub delay_sec: u32,
    pub delay_usec: u32,
}

/// Reading a timed color cycle chunk: direction, low, high, the delay in
/// seconds and in microseconds, two bytes of padding. A short payload, or a
/// direction other than -1, 0 or 1, is a broken file.
pub open spec fn ccrt_read_spec(p: Seq<u8>) -> core::result::Result<CCRT, ErrorKind> {
    if p.len() < 14 {
        Err(ErrorKind::BrokenFile)
    } else if signed16(be16(p, 0)) < -1 || signed16(be16(p, 0)) > 1 {
        Err(ErrorKind::BrokenFile)
    } else {
        Ok(
            CCRT {
                direction: signed16(be16(p, 0)) as i16,
                low: p[2],
                high: p[3],
                delay_sec: be32(p, 4) as u32,
                delay_usec: be32(p, 8) as u32,
            },
        )
    }
}

impl CCRT {
    pub const SIZE: u32 = 14;

    pub fn direction(&self) -> (r: i16)
        ensures
            r == self.direction,
    {
        self.direction
    }

    pub fn low(&self) -> (r: u8)
        ensures
            r == self.low,
    {
        self.low
    }

    pub fn high(&self) -> (r: u8)
        ensures
            r == self.high,
    {
        self.high
    }

    pub fn delay_sec(&self) -> (r: u32)
        ensures
            r == self.delay_sec,
    {
        self.delay_sec
    }

    pub fn delay_usec(&self) -> (r: u32)
        ensures
            r == self.delay_usec,
    {
        self.delay_usec
    }

    pub fn read(payload: &[u8]) -> (r: Result<CCRT>)
        ensures
            result_matches(r, ccrt_read_spec(payload@), |v: CCRT, w: CCRT| v == w),
            payload@.len() < 14 ==> fails_with_message(
                r,
                ErrorKind::BrokenFile,
                "truncated CCRT chunk: "@ + decimal(payload@.len()) + " < "@ + decimal(14),
            ),
            payload@.len() >= 14 && (signed16(be16(payload@, 0)) < -1 || signed16(
                be16(payload@, 0),
            ) > 1) ==> fails_with_message(
                r,
                ErrorKind::BrokenFile,
                "invalid CCRT direction: "@ + signed_decimal(signed16(be16(payload@, 0))),
            ),
    {
        if payload.len() < 14 {
            return Err(
                Error::new(
                    ErrorKind::BrokenFile,
                    describe_pair("truncated CCRT chunk: ", payload.len() as u64, " < ", 14),
                ),
            );
        }
        let direction = to_signed16(be16_at(payload, 0));
        if direction < -1 || direction > 1 {
            return Err(
                Error::new(
                    ErrorKind::BrokenFile,
                    describe("invalid CCRT direction: ", direction as i64),
                ),
            );
        }
        Ok(
            CCRT {
                direction,
                low: payload[2],
                high: payload[3],
                delay_sec: be32_at(payload, 4),
                delay_usec: be32_at(payload, 8),
            },
        )
    }
}

// ---------------------------------------------------------------------------
// The container

/// A decoded pixel chunk: the pixels, and the mask bits if there is a mask.
pub type BodyModel = (Seq<u8>, Option<Seq<bool>>);

/// The chunks read so far.
pub struct ChunkState {
    pub header: Option<BMHD>,
    pub body: Option<BodyModel>,
    pub cmaps: Seq<Seq<Rgb>>,
    pub crngs: Seq<CRNG>,
    pub ccrts: Seq<CCRT>,
    pub camg: Option<CAMG>,
}

/// No chunk read yet.
pub open spec fn no_chunks() -> ChunkState {
    ChunkState {
        header: None,
        body: None,
        cmaps: Seq::empty(),
        crngs: Seq::empty(),
        ccrts: Seq::empty(),
        camg: None,
    }
}

/// The tags that are read; the payloads of others are skipped.
pub open spec fn known_tag(tag: int) -> bool {
    tag == TAG_BMHD || tag == TAG_BODY || tag == TAG_CMAP || tag == TAG_CRNG || tag == TAG_CCRT
        || tag == TAG_CAMG
}

/// Reads one chunk with a known tag. A header replaces an earlier one; a
/// pixel chunk needs a header before it and replaces an earlier one; color
/// maps and both kinds of color ranges are collected in order; a viewport
/// mode chunk replaces an earlier one.
/// Why reading the chunks failed: an error of some kind, or no header
/// where one is needed.
pub enum ChunkError {
    Kind(ErrorKind),
    HeaderMissing,
}

/// The kind of error a failure is reported as; a missing header is a
/// broken file.
pub open spec fn error_kind(e: ChunkError) -> ErrorKind {
    match e {
        ChunkError::Kind(k) => k,
        ChunkError::HeaderMissing => ErrorKind::BrokenFile,
    }
}

#[verifier::opaque]
pub open spec fn chunk_step(ft: FileType, st: ChunkState, tag: int, p: Seq<u8>) -> core::result::Result<ChunkState, ChunkError> {
    if tag == TAG_BMHD {
        match bmhd_read_spec(p) {
            Ok(h) => Ok(ChunkState { header: Some(h), ..st }),
            Err(k) => Err(ChunkError::Kind(k)),
        }
    } else if tag == TAG_BODY {
        match st.header {
            None => Err(ChunkError::HeaderMissing),
            Some(h) => match body_read_spec(p, ft, h) {
                Ok(b) => Ok(ChunkState { body: Some(b), ..st }),
                Err(k) => Err(ChunkError::Kind(k)),
            },
        }
    } else if tag == TAG_CMAP {
        Ok(ChunkState { cmaps: st.cmaps.push(cmap_spec(p)), ..st })
    } else if tag == TAG_CRNG {
        match crng_read_spec(p) {
            Ok(c) => Ok(ChunkState { crngs: st.crngs.push(c), ..st }),
            Err(k) => Err(ChunkError::Kind(k)),
        }
    } else if tag == TAG_CCRT {
        match ccrt_read_spec(p) {
            Ok(c) => Ok(ChunkState { ccrts: st.ccrts.push(c), ..st }),
            Err(k) => Err(ChunkError::Kind(k)),
        }
    } else {
        match camg_read_spec(p) {
            Ok(c) => Ok(ChunkState { camg: Some(c), ..st }),
            Err(k) => Err(ChunkError::Kind(k)),
        }
    }
}

/// Reads the chunks of the container from `pos` (counted from the start of
/// the outer chunk's payload, at byte 8 of the data) up to `end`. Each chunk
/// is a tag, a big-endian length and the payload, followed by a padding
/// byte if the length is odd. Data that ends inside a read is an IO error.
#[verifier::opaque]
pub open spec fn parse_chunks(data: Seq<u8>, pos: int, end: int, ft: FileType, st: ChunkState) -> core::result::Result<ChunkState, ChunkError>
    decreases (if pos < end {
        end - pos
    } else {
        0
    }) via parse_chunks_decreases
{
    if pos >= end {
        Ok(st)
    } else {
        let off = pos + 8;
        if pos < 0 || off + 8 > data.len() {
            Err(ChunkError::Kind(ErrorKind::IO))
        } else {
            let tag = be32(data, off);
            let len = be32(data, off + 4);
            let start = off + 8;
            let next = pos + 8 + len + len % 2;
            let pad_missing = len % 2 == 1 && start + len + 1 > data.len();
            if known_tag(tag) {
                if start + len > data.len() {
                    Err(ChunkError::Kind(ErrorKind::IO))
                } else {
                    match chunk_step(ft, st, tag, data.subrange(start, start + len)) {
                        Err(k) => Err(k),
                        Ok(st2) => if pad_missing {
                            Err(ChunkError::Kind(ErrorKind::IO))
                        } else {
                            parse_chunks(data, next, end, ft, st2)
                        },
                    }
                }
            } else if pad_missing {
                Err(ChunkError::Kind(ErrorKind::IO))
            } else {
                parse_chunks(data, next, end, ft, st)
            }
        }
    }
}

#[via_fn]
proof fn parse_chunks_decreases(data: Seq<u8>, pos: int, end: int, ft: FileType, st: ChunkState) {
    if 0 <= pos < end && pos + 16 <= data.len() {
        let off = pos + 8;
        let len = be32(data, off + 4);
        assert(0 <= data[off + 4] && 0 <= data[off + 5] && 0 <= data[off + 6] && 0 <= data[off + 7]);
        assert(len >= 0);
        assert(pos + 8 + len + len % 2 > pos);
    }
}

/// The smallest outer length that can hold a header chunk.
pub const MIN_SIZE: u32 = 32;

/// Whether `data` starts like a container this decoder reads: the outer
/// tag, an outer length above [`MIN_SIZE`], and one of the two kinds.
pub open spec fn can_read_spec(data: Seq<u8>) -> bool {
    &&& data.len() >= 12
    &&& be32(data, 0) == TAG_FORM
    &&& be32(data, 4) > MIN_SIZE
    &&& (be32(data, 8) == TAG_ILBM || be32(data, 8) == TAG_PBM)
}

/// A decoded container.
pub struct IlbmModel {
    pub file_type: FileType,
    pub header: BMHD,
    pub camg: Option<CAMG>,
    pub body: Option<BodyModel>,
    pub cmaps: Seq<Seq<Rgb>>,
    pub crngs: Seq<CRNG>,
    pub ccrts: Seq<CCRT>,
}

/// Decoding a whole container: the outer tag, its length, the kind, then
/// the chunks; a container without a header fails for that reason.
pub open spec fn read_outcome(data: Seq<u8>) -> core::result::Result<IlbmModel, ChunkError> {
    if data.len() < 4 {
        Err(ChunkError::Kind(ErrorKind::IO))
    } else if be32(data, 0) != TAG_FORM {
        Err(ChunkError::Kind(ErrorKind::UnsupportedFileFormat))
    } else if data.len() < 8 {
        Err(ChunkError::Kind(ErrorKind::IO))
    } else if be32(data, 4) <= MIN_SIZE {
        Err(ChunkError::Kind(ErrorKind::UnsupportedFileFormat))
    } else if data.len() < 12 {
        Err(ChunkError::Kind(ErrorKind::IO))
    } else if be32(data, 8) != TAG_ILBM && be32(data, 8) != TAG_PBM {
        Err(ChunkError::Kind(ErrorKind::UnsupportedFileFormat))
    } else {
        let ft = if be32(data, 8) == TAG_ILBM {
            FileType::ILBM
        } else {
            FileType::PBM
        };
        match parse_chunks(data, 4, be32(data, 4), ft, no_chunks()) {
            Err(k) => Err(k),
            Ok(st) => match st.header {
                None => Err(ChunkError::HeaderMissing),
                Some(h) => Ok(
                    IlbmModel {
                        file_type: ft,
                        header: h,
                        camg: st.camg,
                        body: st.body,
                        cmaps: st.cmaps,
                        crngs: st.crngs,
                        ccrts: st.ccrts,
                    },
                ),
            },
        }
    }
}

/// Decoding a whole container, with failures reported by their kind.
pub open spec fn read_spec(data: Seq<u8>) -> core::result::Result<IlbmModel, ErrorKind> {
    match read_outcome(data) {
        Ok(m) => Ok(m),
        Err(e) => Err(error_kind(e)),
    }
}

/// A pixel chunk met before any header fails because the header is
/// missing, whatever its payload holds: no pixel data is decoded. A
/// container whose chunks end without a header fails the same way.
pub proof fn missing_header_fails_before_pixels(ft: FileType, st: ChunkState, p: Seq<u8>)
    requires
        st.header is None,
    ensures
        chunk_step(ft, st, TAG_BODY as int, p) == Err::<ChunkState, ChunkError>(
            ChunkError::HeaderMissing,
        ),
        error_kind(ChunkError::HeaderMissing) == ErrorKind::BrokenFile,
{
    reveal(chunk_step);
}

/// The message of a missing header.
pub open spec fn header_missing_message() -> Seq<char> {
    "BMHD chunk missing"@
}

/// The colors of each color map.
pub open spec fn cmaps_view(cmaps: Seq<CMAP>) -> Seq<Seq<Rgb>> {
    cmaps.map_values(|c: CMAP| c.colors@)
}

/// An optional pixel chunk matches its model.
pub open spec fn opt_body_matches(b: Option<BODY>, m: Option<BodyModel>) -> bool {
    match (b, m) {
        (Some(v), Some(w)) => body_matches(v, w),
        (None, None) => true,
        _ => false,
    }
}

/// A decoded container.
#[derive(Debug)]
pub struct ILBM {
    pub file_type: FileType,
    pub header: BMHD,
    pub camg: Option<CAMG>,
    pub body: Option<BODY>,
    pub cmaps: Vec<CMAP>,
    pub crngs: Vec<CRNG>,
    pub ccrts: Vec<CCRT>,
}

/// A decoded container matches its model.
pub open spec fn ilbm_matches(v: ILBM, m: IlbmModel) -> bool {
    &&& v.file_type == m.file_type
    &&& v.header == m.header
    &&& v.camg == m.camg
    &&& opt_body_matches(v.body, m.body)
    &&& cmaps_view(v.cmaps@) == m.cmaps
    &&& v.crngs@ == m.crngs
    &&& v.ccrts@ == m.ccrts
}

/// The chunks read so far, as the decoder holds them.
struct Chunks {
    header: Option<BMHD>,
    body: Option<BODY>,
    cmaps: Vec<CMAP>,
    crngs: Vec<CRNG>,
    ccrts: Vec<CCRT>,
    camg: Option<CAMG>,
}

impl Chunks {
    spec fn matches(&self, st: ChunkState) -> bool {
        &&& self.header == st.header
        &&& opt_body_matches(self.body, st.body)
        &&& cmaps_view(self.cmaps@) == st.cmaps
        &&& self.crngs@ == st.crngs
        &&& self.ccrts@ == st.ccrts
        &&& self.camg == st.camg
    }
}

proof fn lemma_cmaps_push(cmaps: Seq<CMAP>, c: CMAP)
    ensures
        cmaps_view(cmaps.push(c)) == cmaps_view(cmaps).push(c.colors@),
{
    assert(cmaps_view(cmaps.push(c)) =~= cmaps_view(cmaps).push(c.colors@));
}

/// Reads one chunk with a known tag into `chunks`.
fn read_chunk(
    chunks: &mut Chunks,
    Ghost(st): Ghost<ChunkState>,
    file_type: FileType,
    tag: u32,
    payload: &[u8],
) -> (r: Result<()>)
    requires
        known_tag(tag as int),
        old(chunks).matches(st),
    ensures
        match chunk_step(file_type, st, tag as int, payload@) {
            Ok(st2) => r is Ok && final(chunks).matches(st2),
            Err(ce) => fails_with(r, error_kind(ce)) && (ce is HeaderMissing ==> fails_with_message(
                r,
                ErrorKind::BrokenFile,
                header_missing_message(),
            )),
        },
{
    proof {
        reveal(chunk_step);
    }
    if tag == TAG_BMHD {
        let h = match BMHD::read(payload) {
            Ok(h) => h,
            Err(e) => {
                return Err(e);
            },
        };
        chunks.header = Some(h);
    } else if tag == TAG_BODY {
        match &chunks.header {
            None => {
                return Err(broken("BMHD chunk missing"));
            },
            Some(h) => {
                let b = match BODY::read(payload, file_type, h) {
                    Ok(b) => b,
                    Err(e) => {
                        return Err(e);
                    },
                };
                chunks.body = Some(b);
            },
        }
    } else if tag == TAG_CMAP {
        let c = CMAP::read(payload);
        proof {
            lemma_cmaps_push(chunks.cmaps@, c);
        }
        chunks.cmaps.push(c);
    } else if tag == TAG_CRNG {
        let c = match CRNG::read(payload) {
            Ok(c) => c,
            Err(e) => {
                return Err(e);
            },
        };
        chunks.crngs.push(c);
    } else if tag == TAG_CCRT {
        let c = match CCRT::read(payload) {
            Ok(c) => c,
            Err(e) => {
                return Err(e);
            },
        };
        chunks.ccrts.push(c);
    } else {
        let c = match CAMG::read(payload) {
            Ok(c) => c,
            Err(e) => {
                return Err(e);
            },
        };
        chunks.camg = Some(c);
    }
    Ok(())
}

/// Where pixel `i` of a row-major image `w` pixels wide comes from when
/// each group of 8 pixels of a row is reversed (the last, shorter group of a
/// row too).
pub open spec fn swapped_index(i: int, w: int) -> int {
    let y = i / w;
    let x = i % w;
    let start = x / 8 * 8;
    let g = if w - start < 8 {
        w - start
    } else {
        8
    };
    y * w + start + (g - 1 - (x - start))
}

/// `px` with the groups of 8 pixels of its first `rows` rows reversed.
pub open spec fn columns_swapped(px: Seq<u8>, w: int, rows: int) -> Seq<u8> {
    Seq::new(
        px.len(),
        |i: int|
            if 0 <= i < rows * w {
                px[swapped_index(i, w)]
            } else {
                px[i]
            },
    )
}

/// The number of whole rows of width `w` in `len` pixels, at most `h`.
pub open spec fn swap_rows(len: int, w: int, h: int) -> int {
    if w == 0 {
        0
    } else if len / w < h {
        len / w
    } else {
        h
    }
}

proof fn lemma_swapped_in_range(i: int, w: int, rows: int)
    requires
        0 <= i < rows * w,
        0 < w,
    ensures
        0 <= swapped_index(i, w) < rows * w,
{
    let y = i / w;
    let x = i % w;
    vstd::arithmetic::div_mod::lemma_fundamental_div_mod(i, w);
    vstd::arithmetic::div_mod::lemma_mod_bound(i, w);
    assert(0 <= y < rows && y * w + w <= rows * w) by (nonlinear_arith)
        requires
            i == w * y + x,
            0 <= x < w,
            0 <= i < rows * w,
    ;
    assert(0 <= y * w) by (nonlinear_arith)
        requires
            0 <= y,
            0 < w,
    ;
}

/// Reverses each group of 8 pixels in the first `rows` rows.
pub(crate) fn swap_columns(data: &mut Vec<u8>, width: usize, rows: usize)
    requires
        rows * width <= old(data)@.len(),
    ensures
        final(data)@ == columns_swapped(old(data)@, width as int, rows as int),
{
    if width == 0 {
        proof {
            assert(data@ =~= columns_swapped(old(data)@, width as int, rows as int));
        }
        return;
    }
    let mut src: Vec<u8> = Vec::new();
    let mut k: usize = 0;
    while k < data.len()
        invariant
            k <= data@.len(),
            data@ == old(data)@,
            src@ == data@.take(k as int),
        decreases data@.len() - k,
    {
        src.push(data[k]);
        proof {
            assert(src@ =~= data@.take(k + 1));
        }
        k = k + 1;
    }
    proof {
        assert(src@ =~= old(data)@);
    }
    let total = rows * width;
    let mut i: usize = 0;
    while i < total
        invariant
            0 < width,
            total == rows * width,
            total <= src@.len(),
            src@ == old(data)@,
            data@.len() == src@.len(),
            i <= total,
            forall|j: int|
                0 <= j < data@.len() ==> #[trigger] data@[j] == if 0 <= j < i {
                    src@[swapped_index(j, width as int)]
                } else {
                    src@[j]
                },
        decreases total - i,
    {
        let y = i / width;
        let x = i % width;
        let start = x / 8 * 8;
        let g = if width - start < 8 {
            width - start
        } else {
            8
        };
        proof {
            lemma_swapped_in_range(i as int, width as int, rows as int);
            assert(y * width <= i) by (nonlinear_arith)
                requires
                    y == i / width,
                    0 < width,
            ;
        }
        let j = y * width + start + (g - 1 - (x - start));
        data.set(i, src[j]);
        i = i + 1;
    }
    proof {
        assert(data@ =~= columns_swapped(old(data)@, width as int, rows as int));
    }
}

/// Reads the chunk at `pos` into `chunks`; gives the position after it.
#[verifier::rlimit(40)]
fn read_next_chunk(
    data: &[u8],
    pos: u64,
    end: u64,
    file_type: FileType,
    chunks: &mut Chunks,
    Ghost(st): Ghost<ChunkState>,
) -> (r: Result<(u64, Ghost<ChunkState>)>)
    requires
        pos < end <= 0xFFFF_FFFF,
        old(chunks).matches(st),
    ensures
        match r {
            Ok((next, g)) => pos < next <= 0x2_0000_0010 && final(chunks).matches(g@) && parse_chunks(
                data@,
                pos as int,
                end as int,
                file_type,
                st,
            ) == parse_chunks(data@, next as int, end as int, file_type, g@),
            Err(e) => match parse_chunks(data@, pos as int, end as int, file_type, st) {
                Err(ce) => e.kind == error_kind(ce) && (ce is HeaderMissing ==> e.message@
                    == header_missing_message()),
                Ok(_) => false,
            },
        },
{
    proof {
        reveal_with_fuel(parse_chunks, 1);
    }
    let dlen: u64 = data.len() as u64;
    let off: u64 = pos + 8;
    if dlen < off + 8 {
        return Err(end_of_data());
    }
    let tag = be32_at(data, off as usize);
    let len = be32_at(data, (off + 4) as usize) as u64;
    let start: u64 = off + 8;
    let pad: u64 = len % 2;
    let known = tag == TAG_BMHD || tag == TAG_BODY || tag == TAG_CMAP || tag == TAG_CRNG || tag
        == TAG_CCRT || tag == TAG_CAMG;
    let ghost mut st2 = st;
    if known {
        if dlen - start < len {
            return Err(end_of_data());
        }
        let payload = &data[start as usize..(start + len) as usize];
        match read_chunk(chunks, Ghost(st), file_type, tag, payload) {
            Ok(()) => {},
            Err(e) => {
                return Err(e);
            },
        }
        proof {
            st2 = chunk_step(file_type, st, tag as int, payload@)->Ok_0;
        }
    }
    if pad == 1 && dlen - start < len + 1 {
        return Err(end_of_data());
    }
    Ok((pos + 8 + len + pad, Ghost(st2)))
}

impl ILBM {
    pub fn file_type(&self) -> (r: FileType)
        ensures
            r == self.file_type,
    {
        self.file_type
    }

    pub fn header(&self) -> (r: &BMHD)
        ensures
            *r == self.header,
    {
        &self.header
    }

    pub fn camg(&self) -> (r: Option<&CAMG>)
        ensures
            r == match self.camg {
                Some(c) => Some(&c),
                None => None::<&CAMG>,
            },
    {
        match &self.camg {
            Some(c) => Some(c),
            None => None,
        }
    }

    pub fn body(&self) -> (r: Option<&BODY>)
        ensures
            r == match self.body {
                Some(b) => Some(&b),
                None => None::<&BODY>,
            },
    {
        match &self.body {
            Some(b) => Some(b),
            None => None,
        }
    }

    pub fn cmaps(&self) -> (r: &[CMAP])
        ensures
            r@ == self.cmaps@,
    {
        self.cmaps.as_slice()
    }

    pub fn crngs(&self) -> (r: &[CRNG])
        ensures
            r@ == self.crngs@,
    {
        self.crngs.as_slice()
    }

    pub fn ccrts(&self) -> (r: &[CCRT])
        ensures
            r@ == self.ccrts@,
    {
        self.ccrts.as_slice()
    }

    /// Whether `data` starts like a container this decoder reads. Looks at
    /// the first 12 bytes only.
    pub fn can_read(data: &[u8]) -> (r: bool)
        ensures
            r == can_read_spec(data@),
    {
        if data.len() < 12 {
            return false;
        }
        if be32_at(data, 0) != TAG_FORM {
            return false;
        }
        if be32_at(data, 4) <= MIN_SIZE {
            return false;
        }
        let sub = be32_at(data, 8);
        sub == TAG_ILBM || sub == TAG_PBM
    }

    /// Decodes a whole container.
    pub fn read(data: &[u8]) -> (r: Result<ILBM>)
        ensures
            result_matches(r, read_spec(data@), |v: ILBM, m: IlbmModel| ilbm_matches(v, m)),
            read_outcome(data@) is Err && read_outcome(data@)->Err_0 is HeaderMissing
                ==> fails_with_message(r, ErrorKind::BrokenFile, header_missing_message()),
    {
        let n = data.len();
        if n < 4 {
            return Err(end_of_data());
        }
        if be32_at(data, 0) != TAG_FORM {
            return Err(
                Error::new(
                    ErrorKind::UnsupportedFileFormat,
                    describe("illegal FOURCC: ", be32_at(data, 0) as i64),
                ),
            );
        }
        if n < 8 {
            return Err(end_of_data());
        }
        let main_len = be32_at(data, 4);
        if main_len <= MIN_SIZE {
            return Err(Error::new(ErrorKind::UnsupportedFileFormat, "file too short".to_owned()));
        }
        if n < 12 {
            return Err(end_of_data());
        }
        let sub = be32_at(data, 8);
        let file_type = if sub == TAG_ILBM {
            FileType::ILBM
        } else if sub == TAG_PBM {
            FileType::PBM
        } else {
            return Err(
                Error::new(
                    ErrorKind::UnsupportedFileFormat,
                    describe("unsupported file format: ", sub as i64),
                ),
            );
        };
        let mut chunks = Chunks {
            header: None,
            body: None,
            cmaps: Vec::new(),
            crngs: Vec::new(),
            ccrts: Vec::new(),
            camg: None,
        };
        let ghost mut st = no_chunks();
        proof {
            assert(cmaps_view(chunks.cmaps@) =~= Seq::<Seq<Rgb>>::empty());
            assert(chunks.crngs@ =~= Seq::<CRNG>::empty());
            assert(chunks.ccrts@ =~= Seq::<CCRT>::empty());
        }
        let ghost goal = parse_chunks(data@, 4, main_len as int, file_type, st);
        let end: u64 = main_len as u64;
        let dlen: u64 = n as u64;
        let mut pos: u64 = 4;
        while pos < end
            invariant
                dlen == data@.len(),
                end == main_len,
                main_len == be32(data@, 4),
                main_len > MIN_SIZE,
                data@.len() >= 12,
                be32(data@, 0) == TAG_FORM,
                sub == be32(data@, 8),
                file_type == (if sub == TAG_ILBM {
                    FileType::ILBM
                } else {
                    FileType::PBM
                }),
                sub == TAG_ILBM || sub == TAG_PBM,
                goal == parse_chunks(data@, 4, main_len as int, file_type, no_chunks()),
                end <= 0xFFFF_FFFF,
                pos <= 0x2_0000_0010,
                chunks.matches(st),
                goal == parse_chunks(data@, pos as int, end as int, file_type, st),
            decreases (if pos < end {
                end - pos
            } else {
                0
            }),
        {
            match read_next_chunk(data, pos, end, file_type, &mut chunks, Ghost(st)) {
                Ok((next, g)) => {
                    pos = next;
                    proof {
                        st = g@;
                    }
                },
                Err(e) => {
                    return Err(e);
                },
            }
        }
        proof {
            reveal_with_fuel(parse_chunks, 1);
        }
        let header = match chunks.header {
            Some(h) => h,
            None => {
                return Err(broken("BMHD chunk missing"));
            },
        };
        Ok(
            ILBM {
                file_type,
                header,
                camg: chunks.camg,
                body: chunks.body,
                cmaps: chunks.cmaps,
                crngs: chunks.crngs,
                ccrts: chunks.ccrts,
            },
        )
    }

    /// Reverses each group of 8 pixels in every row of the pixel chunk, as
    /// far as the pixels reach.
    pub fn column_swap(&mut self)
        ensures
            final(self).file_type == old(self).file_type,
            final(self).header == old(self).header,
            final(self).camg == old(self).camg,
            final(self).cmaps == old(self).cmaps,
            final(self).crngs == old(self).crngs,
            final(self).ccrts == old(self).ccrts,
            match old(self).body {
                None => final(self).body is None,
                Some(b) => final(self).body matches Some(b2) && b2.mask == b.mask && b2.pixels@
                    == columns_swapped(
                    b.pixels@,
                    old(self).header.width as int,
                    swap_rows(
                        b.pixels@.len() as int,
                        old(self).header.width as int,
                        old(self).header.height as int,
                    ),
                ),
            },
    {
        let width = self.header.width as usize;
        let height = self.header.height as usize;
        match &mut self.body {
            None => {},
            Some(body) => {
                let len = body.pixels.len();
                let rows = if width == 0 {
                    0
                } else if len / width < height {
                    len / width
                } else {
                    height
                };
                proof {
                    if width > 0 {
                        vstd::arithmetic::div_mod::lemma_fundamental_div_mod(len as int, width as int);
                        assert(rows * width <= len) by (nonlinear_arith)
                            requires
                                rows <= len / width,
                                len == width * (len / width) + len % width,
                                len % width >= 0,
                                width > 0,
                        ;
                    }
                }
                swap_columns(&mut body.pixels, width, rows);
            },
        }
    }
}

} // verus!
