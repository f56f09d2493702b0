use vstd::prelude::*;

verus! {

/// Size of a sub-rectangle at `x`, `y` of `w` by `h` pixels, clipped to an
/// image of `ow` by `oh`: nothing if the corner lies outside.
pub open spec fn clip(x: int, y: int, w: int, h: int, ow: int, oh: int) -> (int, int) {
    if x >= ow || y >= oh {
        (0, 0)
    } else {
        (
            if w < ow - x {
                w
            } else {
                ow - x
            },
            if h < oh - y {
                h
            } else {
                oh - y
            },
        )
    }
}

/// The bytes of a `rw` by `rh` rectangle at `x`, `y` of a row-major image
/// `ow` pixels wide with `bpp` bytes per pixel.
pub open spec fn rect_spec(data: Seq<u8>, ow: int, x: int, y: int, rw: int, rh: int, bpp: int) -> Seq<u8> {
    Seq::new(
        (rw * rh * bpp) as nat,
        |k: int| data[((y + (k / bpp) / rw) * ow + x + (k / bpp) % rw) * bpp + k % bpp],
    )
}

/// The bytes of an image of `ow` by `oh` resized to `w` by `h`: the part
/// both cover is kept, the rest is the pixel `fill`.
pub open spec fn resize_spec(
    data: Seq<u8>,
    ow: int,
    oh: int,
    w: int,
    h: int,
    fill: Seq<u8>,
    bpp: int,
) -> Seq<u8> {
    Seq::new(
        (w * h * bpp) as nat,
        |k: int|
            if (k / bpp) / w < oh && (k / bpp) % w < ow {
                data[(((k / bpp) / w) * ow + (k / bpp) % w) * bpp + k % bpp]
            } else {
                fill[k % bpp]
            },
    )
}

proof fn lemma_cell(i: int, w: int, rows: int, bpp: int)
    requires
        0 <= i < rows * w,
        0 < w,
        0 < bpp,
    ensures
        0 <= i / w < rows,
        0 <= i % w < w,
        i == w * (i / w) + i % w,
{
    vstd::arithmetic::div_mod::lemma_fundamental_div_mod(i, w);
    vstd::arithmetic::div_mod::lemma_mod_bound(i, w);
    let q = i / w;
    assert(0 <= q < rows) by (nonlinear_arith)
        requires
            i == w * q + i % w,
            0 <= i % w < w,
            0 <= i < rows * w,
    ;
}

proof fn lemma_index_in(a: int, b: int, rows: int, cols: int, bpp: int, c: int)
    requires
        0 <= a < rows,
        0 <= b < cols,
        0 <= c < bpp,
    ensures
        0 <= a * cols <= a * cols + b < rows * cols,
        0 <= (a * cols + b) * bpp <= (a * cols + b) * bpp + c < rows * cols * bpp,
        rows * cols <= rows * cols * bpp,
{
    assert(rows * cols <= rows * cols * bpp) by (nonlinear_arith)
        requires
            0 <= a < rows,
            0 <= b < cols,
            0 <= c < bpp,
    ;
    assert(0 <= a * cols <= a * cols + b < rows * cols) by (nonlinear_arith)
        requires
            0 <= a < rows,
            0 <= b < cols,
    ;
    assert(0 <= (a * cols + b) * bpp <= (a * cols + b) * bpp + c < rows * cols * bpp) by (nonlinear_arith)
        requires
            0 <= a * cols + b < rows * cols,
            0 <= c < bpp,
    ;
}

/// Copies a `rw` by `rh` rectangle at `x`, `y` that lies inside an image
/// `ow` by `oh`.
pub(crate) fn copy_rect(
    data: &[u8],
    ow: usize,
    oh: usize,
    x: usize,
    y: usize,
    rw: usize,
    rh: usize,
    bpp: usize,
) -> (r: Vec<u8>)
    requires
        data@.len() == ow * oh * bpp,
        x + rw <= ow,
        y + rh <= oh,
        0 < bpp <= 4,
    ensures
        r@ == rect_spec(data@, ow as int, x as int, y as int, rw as int, rh as int, bpp as int),
{
    let dlen = data.len();
    let mut out: Vec<u8> = Vec::new();
    if rw == 0 || rh == 0 {
        proof {
            assert(rw * rh * bpp == 0) by (nonlinear_arith)
                requires
                    rw == 0 || rh == 0,
            ;
            assert(out@ =~= rect_spec(
                data@,
                ow as int,
                y as int * 0 + x as int,
                y as int,
                rw as int,
                rh as int,
                bpp as int,
            ));
        }
        return out;
    }
    assert(rw * rh <= rw * rh * bpp <= ow * oh * bpp) by (nonlinear_arith)
        requires
            rw <= ow,
            rh <= oh,
            0 < bpp,
    ;
    let total = rw * rh * bpp;
    let ghost goal = rect_spec(data@, ow as int, x as int, y as int, rw as int, rh as int, bpp as int);
    let mut k: usize = 0;
    while k < total
        invariant
            0 < rw,
            0 < rh,
            0 < bpp <= 4,
            x + rw <= ow,
            y + rh <= oh,
            data@.len() == ow * oh * bpp,
            dlen == data@.len(),
            total == rw * rh * bpp,
            goal == rect_spec(data@, ow as int, x as int, y as int, rw as int, rh as int, bpp as int),
            k <= total,
            out@ == goal.take(k as int),
        decreases total - k,
    {
        let i = k / bpp;
        let c = k % bpp;
        proof {
            lemma_cell(k as int, bpp as int, (rw * rh) as int, 1);
            assert(rw * rh == rh * rw) by (nonlinear_arith);
            lemma_cell(i as int, rw as int, rh as int, 1);
            lemma_index_in((y + i / rw) as int, (x + i % rw) as int, oh as int, ow as int, bpp as int, c as int);
            assert(ow * oh * bpp == oh * ow * bpp) by (nonlinear_arith);
        }
        let row = y + i / rw;
        let cell = row * ow + (x + i % rw);
        let idx = cell * bpp + c;
        out.push(data[idx]);
        proof {
            assert(out@ =~= goal.take(k + 1));
        }
        k = k + 1;
    }
    proof {
        assert(out@ =~= goal);
    }
    out
}

/// The bytes of an image `ow` by `oh` resized to `w` by `h`, new pixels
/// being `fill`.
pub(crate) fn resize_data(
    data: &[u8],
    ow: usize,
    oh: usize,
    w: usize,
    h: usize,
    fill: &[u8],
    bpp: usize,
) -> (r: Vec<u8>)
    requires
        data@.len() == ow * oh * bpp,
        fill@.len() == bpp,
        0 < bpp <= 4,
        w * h * bpp <= usize::MAX,
    ensures
        r@ == resize_spec(data@, ow as int, oh as int, w as int, h as int, fill@, bpp as int),
{
    let dlen = data.len();
    let mut out: Vec<u8> = Vec::new();
    assert(w * h <= w * h * bpp) by (nonlinear_arith)
        requires
            0 < bpp,
    ;
    let total = w * h * bpp;
    let ghost goal = resize_spec(data@, ow as int, oh as int, w as int, h as int, fill@, bpp as int);
    let mut k: usize = 0;
    while k < total
        invariant
            0 < bpp <= 4,
            fill@.len() == bpp,
            data@.len() == ow * oh * bpp,
            dlen == data@.len(),
            total == w * h * bpp,
            goal == resize_spec(data@, ow as int, oh as int, w as int, h as int, fill@, bpp as int),
            k <= total,
            out@ == goal.take(k as int),
        decreases total - k,
    {
        let i = k / bpp;
        let c = k % bpp;
        proof {
            assert(w * h * bpp == (w * h) * bpp) by (nonlinear_arith);
            lemma_cell(k as int, bpp as int, (w * h) as int, 1);
            assert(w > 0) by (nonlinear_arith)
                requires
                    i < w * h,
            ;
            assert(w * h == h * w) by (nonlinear_arith);
            lemma_cell(i as int, w as int, h as int, 1);
        }
        let yy = i / w;
        let xx = i % w;
        let v = if yy < oh && xx < ow {
            proof {
                lemma_index_in(yy as int, xx as int, oh as int, ow as int, bpp as int, c as int);
                assert(ow * oh * bpp == oh * ow * bpp) by (nonlinear_arith);
            }
            let cell = yy * ow + xx;
            data[cell * bpp + c]
        } else {
            fill[c]
        };
        out.push(v);
        proof {
            assert(out@ =~= goal.take(k + 1));
        }
        k = k + 1;
    }
    proof {
        assert(out@ =~= goal);
    }
    out
}

} // verus!
