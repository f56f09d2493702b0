use vstd::prelude::*;

verus! {

/// An RGB color: red, green and blue channels in this order.
#[derive(Clone, Copy, PartialEq, Eq, Default, Hash, Debug)]
pub struct Rgb(pub [u8; 3]);

/// `a·(1 − num/den) + b·num/den`, rounded to the nearest integer, halves
/// away from zero.
pub open spec fn blend_channel(a: u8, b: u8, num: int, den: int) -> int
    recommends
        0 < den,
        num <= den,
{
    (2 * (a * (den - num) + b * num) + den) / (2 * den)
}

/// Channel-wise [`blend_channel`] of two colors.
pub open spec fn blend_spec(c1: Rgb, c2: Rgb, num: int, den: int) -> Rgb {
    Rgb(
        [
            blend_channel(c1.0[0], c2.0[0], num, den) as u8,
            blend_channel(c1.0[1], c2.0[1], num, den) as u8,
            blend_channel(c1.0[2], c2.0[2], num, den) as u8,
        ],
    )
}

proof fn lemma_blend_channel_bounds(a: u8, b: u8, num: int, den: int)
    requires
        0 < den,
        0 <= num <= den,
    ensures
        0 <= blend_channel(a, b, num, den) <= 255,
{
    let x = a * (den - num) + b * num;
    assert(0 <= x <= 255 * den) by (nonlinear_arith)
        requires
            x == a * (den - num) + b * num,
            0 <= a <= 255,
            0 <= b <= 255,
            0 <= num <= den,
    ;
    assert(0 <= (2 * x + den) / (2 * den) <= 255) by (nonlinear_arith)
        requires
            0 <= x <= 255 * den,
            0 < den,
    ;
}

impl Rgb {
    pub fn r(&self) -> (r: u8)
        ensures
            r == self.0[0],
    {
        self.0[0]
    }

    pub fn g(&self) -> (r: u8)
        ensures
            r == self.0[1],
    {
        self.0[1]
    }

    pub fn b(&self) -> (r: u8)
        ensures
            r == self.0[2],
    {
        self.0[2]
    }
}

fn blend_one(a: u8, b: u8, num: u64, den: u64) -> (r: u8)
    requires
        0 < den,
        num <= den,
    ensures
        r as int == blend_channel(a, b, num as int, den as int),
{
    proof {
        lemma_blend_channel_bounds(a, b, num as int, den as int);
    }
    let wa: u128 = (den - num) as u128;
    let wb: u128 = num as u128;
    assert((a as u128) * wa <= 255 * 0xFFFF_FFFF_FFFF_FFFFu128) by (nonlinear_arith)
        requires
            a <= 255,
            wa <= 0xFFFF_FFFF_FFFF_FFFFu128,
    ;
    assert((b as u128) * wb <= 255 * 0xFFFF_FFFF_FFFF_FFFFu128) by (nonlinear_arith)
        requires
            b <= 255,
            wb <= 0xFFFF_FFFF_FFFF_FFFFu128,
    ;
    let x: u128 = (a as u128) * wa + (b as u128) * wb;
    let r: u128 = (2 * x + den as u128) / (2 * den as u128);
    r as u8
}

/// Mixes two colors channel by channel: the weight of `c2` is `num / den`,
/// that of `c1` the rest, and each channel is rounded to the nearest
/// integer, halves away from zero.
pub fn blend(c1: Rgb, c2: Rgb, num: u64, den: u64) -> (r: Rgb)
    requires
        0 < den,
        num <= den,
    ensures
        r == blend_spec(c1, c2, num as int, den as int),
{
    let r = Rgb(
        [
            blend_one(c1.0[0], c2.0[0], num, den),
            blend_one(c1.0[1], c2.0[1], num, den),
            blend_one(c1.0[2], c2.0[2], num, den),
        ],
    );
    assert(r.0@ =~= blend_spec(c1, c2, num as int, den as int).0@);
    r
}

/// A blend with weight zero on the second color gives the first color, one
/// with full weight gives the second; in between, each channel moves
/// monotonically from the first color's value to the second's and never
/// leaves the range they span.
pub proof fn blend_endpoints_and_monotonic(a: u8, b: u8, num1: int, num2: int, den: int)
    requires
        0 < den,
        0 <= num1 <= num2 <= den,
    ensures
        blend_channel(a, b, 0, den) == a,
        blend_channel(a, b, den, den) == b,
        a <= b ==> a <= blend_channel(a, b, num1, den) <= blend_channel(a, b, num2, den) <= b,
        b <= a ==> b <= blend_channel(a, b, num2, den) <= blend_channel(a, b, num1, den) <= a,
{
    assert(2 * (a * (den - 0) + b * 0) + den == a * (2 * den) + den) by (nonlinear_arith);
    vstd::arithmetic::div_mod::lemma_fundamental_div_mod_converse(
        2 * (a * (den - 0) + b * 0) + den,
        2 * den,
        a as int,
        den,
    );
    assert(2 * (a * (den - den) + b * den) + den == b * (2 * den) + den) by (nonlinear_arith);
    vstd::arithmetic::div_mod::lemma_fundamental_div_mod_converse(
        2 * (a * (den - den) + b * den) + den,
        2 * den,
        b as int,
        den,
    );
    let x1 = a * (den - num1) + b * num1;
    let x2 = a * (den - num2) + b * num2;
    let x0 = a * den;
    let xd = b * den;
    if a <= b {
        assert(x0 <= x1 <= x2 <= xd) by (nonlinear_arith)
            requires
                x1 == a * (den - num1) + b * num1,
                x2 == a * (den - num2) + b * num2,
                x0 == a * den,
                xd == b * den,
                a <= b,
                0 <= num1 <= num2 <= den,
        ;
        vstd::arithmetic::div_mod::lemma_div_is_ordered(2 * x0 + den, 2 * x1 + den, 2 * den);
        vstd::arithmetic::div_mod::lemma_div_is_ordered(2 * x1 + den, 2 * x2 + den, 2 * den);
        vstd::arithmetic::div_mod::lemma_div_is_ordered(2 * x2 + den, 2 * xd + den, 2 * den);
    } else {
        assert(xd <= x2 <= x1 <= x0) by (nonlinear_arith)
            requires
                x1 == a * (den - num1) + b * num1,
                x2 == a * (den - num2) + b * num2,
                x0 == a * den,
                xd == b * den,
                b <= a,
                0 <= num1 <= num2 <= den,
        ;
        vstd::arithmetic::div_mod::lemma_div_is_ordered(2 * x1 + den, 2 * x0 + den, 2 * den);
        vstd::arithmetic::div_mod::lemma_div_is_ordered(2 * x2 + den, 2 * x1 + den, 2 * den);
        vstd::arithmetic::div_mod::lemma_div_is_ordered(2 * xd + den, 2 * x2 + den, 2 * den);
    }
}

} // verus!
