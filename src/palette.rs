use vstd::prelude::*;

use crate::color::{blend, blend_endpoints_and_monotonic, blend_spec, Rgb};

verus! {

/// Cycle rates are given in steps per this many seconds.
pub const LBM_CYCLE_RATE_DIVISOR: u64 = 280;

/// Time values are given in milliseconds.
pub const TICKS_PER_SECOND: u64 = 1000;

/// `LBM_CYCLE_RATE_DIVISOR * TICKS_PER_SECOND`: a cycle with rate `r`
/// advances `r * now / CYCLE_STEP_TICKS` steps after `now` milliseconds.
pub const CYCLE_STEP_TICKS: u64 = 280_000;

/// A range of palette entries, `low..=high`, that rotates over time.
#[derive(Debug, Clone, Copy, Default, PartialEq, Eq, Hash)]
pub struct Cycle {
    pub low: u8,
    pub high: u8,
    pub rate: u32,
    pub reverse: bool,
}

impl Cycle {
    pub fn new(low: u8, high: u8, rate: u32, reverse: bool) -> (r: Self)
        ensures
            r == (Cycle { low, high, rate, reverse }),
    {
        Cycle { low, high, rate, reverse }
    }

    pub fn low(&self) -> (r: u8)
        ensures
            r == self.low,
    {
        self.low
    }

    pub fn high(&self) -> (r: u8)
        ensures
            r == self.high,
    {
        self.high
    }

    pub fn rate(&self) -> (r: u32)
        ensures
            r == self.rate,
    {
        self.rate
    }

    pub fn reverse(&self) -> (r: bool)
        ensures
            r == self.reverse,
    {
        self.reverse
    }

    /// A cycle moves colors only if its range holds two or more entries and
    /// its rate is not zero.
    pub open spec fn is_active(self) -> bool {
        self.high > self.low && self.rate > 0
    }

    /// Number of entries in the range.
    pub open spec fn span(self) -> int {
        self.high - self.low + 1
    }

    /// Whole steps taken after `now` milliseconds.
    pub open spec fn steps(self, now: int) -> int {
        (self.rate * now) / (CYCLE_STEP_TICKS as int)
    }

    /// How far the range is rotated after `now` milliseconds.
    pub open spec fn distance(self, now: int) -> int {
        self.steps(now) % self.span()
    }

    /// Fraction of the step under way after `now` milliseconds, in units of
    /// `1 / CYCLE_STEP_TICKS`.
    pub open spec fn fraction(self, now: int) -> int {
        (self.rate * now) % (CYCLE_STEP_TICKS as int)
    }
}

/// `p` with entries `low..=high` rotated by `d` places, towards higher
/// indices if `right`, else towards lower ones.
pub open spec fn rotated(p: Seq<Rgb>, low: int, high: int, d: int, right: bool) -> Seq<Rgb> {
    let n = high - low + 1;
    Seq::new(
        p.len(),
        |i: int|
            if low <= i <= high {
                if right {
                    p[low + (i - low - d) % n]
                } else {
                    p[low + (i - low + d) % n]
                }
            } else {
                p[i]
            },
    )
}

/// The palette `p` as a cycle shows it after `now` milliseconds.
pub open spec fn cycled(p: Seq<Rgb>, c: Cycle, now: int) -> Seq<Rgb> {
    if c.is_active() {
        rotated(p, c.low as int, c.high as int, c.distance(now), !c.reverse)
    } else {
        p
    }
}

/// The colors that blended cycling writes into `low..=high`, for the
/// entry at offset `off` of the range. The exact rotation puts source
/// offset `s` there (`off - distance` forward, `off + distance` reversed);
/// blending mixes it, by the fraction of the step under way, with the
/// source offset that the rotation brings there next: the one before `s`
/// forward, the one after `s` reversed. At fraction zero this is the exact
/// rotation; as the fraction grows, colors move on in the cycle's own
/// direction.
pub open spec fn blended_entry(src: Seq<Rgb>, c: Cycle, now: int, off: int) -> Rgb {
    let n = c.span();
    let low = c.low as int;
    let dist = c.distance(now);
    let m = c.fraction(now);
    let q = CYCLE_STEP_TICKS as int;
    if !c.reverse {
        let s = (off - dist) % n;
        blend_spec(src[low + s], src[low + (s + n - 1) % n], m, q)
    } else {
        let s = (off + dist) % n;
        blend_spec(src[low + s], src[low + (s + 1) % n], m, q)
    }
}

/// `dest` with the range of `c` replaced by the blended colors of `src`.
pub open spec fn blended(dest: Seq<Rgb>, src: Seq<Rgb>, c: Cycle, now: int) -> Seq<Rgb> {
    if c.is_active() {
        Seq::new(
            dest.len(),
            |i: int|
                if c.low <= i <= c.high {
                    blended_entry(src, c, now, i - c.low)
                } else {
                    dest[i]
                },
        )
    } else {
        dest
    }
}

/// The cycles applied one after another, in order.
pub open spec fn cycled_all(p: Seq<Rgb>, cycles: Seq<Cycle>, now: int) -> Seq<Rgb>
    decreases cycles.len(),
{
    if cycles.len() == 0 {
        p
    } else {
        cycled(cycled_all(p, cycles.drop_last(), now), cycles.last(), now)
    }
}

/// Blended cycling of `base` by each cycle in order, each reading from `base`
/// and writing over what the cycles before it wrote.
pub open spec fn blended_all(base: Seq<Rgb>, cycles: Seq<Cycle>, now: int) -> Seq<Rgb>
    decreases cycles.len(),
{
    if cycles.len() == 0 {
        base
    } else {
        blended(blended_all(base, cycles.drop_last(), now), base, cycles.last(), now)
    }
}

/// A table of 256 colors, indexed by a byte.
#[derive(Debug, Clone, PartialEq, Eq)]
pub struct Palette {
    colors: Vec<Rgb>,
}

impl View for Palette {
    type V = Seq<Rgb>;

    closed spec fn view(&self) -> Seq<Rgb> {
        self.colors@
    }
}

proof fn lemma_rotate_right_index(off: int, d: int, n: int)
    requires
        0 <= off < n,
        0 <= d,
    ensures
        (off - d) % n == if off >= d % n {
            off - d % n
        } else {
            off + n - d % n
        },
{
    let q = d / n;
    let dm = d % n;
    vstd::arithmetic::div_mod::lemma_fundamental_div_mod(d, n);
    if off >= dm {
        assert(off - d == (-q) * n + (off - dm)) by (nonlinear_arith)
            requires
                d == n * q + dm,
        ;
        vstd::arithmetic::div_mod::lemma_fundamental_div_mod_converse(off - d, n, -q, off - dm);
    } else {
        assert(off - d == (-q - 1) * n + (off + n - dm)) by (nonlinear_arith)
            requires
                d == n * q + dm,
        ;
        vstd::arithmetic::div_mod::lemma_fundamental_div_mod_converse(
            off - d,
            n,
            -q - 1,
            off + n - dm,
        );
    }
}

proof fn lemma_rotate_left_index(off: int, d: int, n: int)
    requires
        0 <= off < n,
        0 <= d,
    ensures
        (off + d) % n == if off + d % n < n {
            off + d % n
        } else {
            off + d % n - n
        },
{
    let q = d / n;
    let dm = d % n;
    vstd::arithmetic::div_mod::lemma_fundamental_div_mod(d, n);
    if off + dm < n {
        assert(off + d == q * n + (off + dm)) by (nonlinear_arith)
            requires
                d == n * q + dm,
        ;
        vstd::arithmetic::div_mod::lemma_fundamental_div_mod_converse(off + d, n, q, off + dm);
    } else {
        assert(off + d == (q + 1) * n + (off + dm - n)) by (nonlinear_arith)
            requires
                d == n * q + dm,
        ;
        vstd::arithmetic::div_mod::lemma_fundamental_div_mod_converse(
            off + d,
            n,
            q + 1,
            off + dm - n,
        );
    }
}

impl Palette {
    /// A palette always has 256 entries.
    pub open spec fn wf(&self) -> bool {
        self@.len() == 256
    }

    /// An all-black palette.
    pub fn new() -> (r: Self)
        ensures
            r.wf(),
            r@ == Seq::new(256, |_i: int| Rgb([0u8, 0u8, 0u8])),
    {
        let mut colors: Vec<Rgb> = Vec::new();
        let mut i: usize = 0;
        while i < 256
            invariant
                i <= 256,
                colors@ == Seq::new(i as nat, |_i: int| Rgb([0u8, 0u8, 0u8])),
            decreases 256 - i,
        {
            colors.push(Rgb([0, 0, 0]));
            i = i + 1;
            proof {
                assert(colors@ =~= Seq::new(i as nat, |_i: int| Rgb([0u8, 0u8, 0u8])));
            }
        }
        Palette { colors }
    }

    /// The first 256 of `colors`, followed by black where there are fewer.
    pub fn from_colors(colors: &[Rgb]) -> (r: Self)
        ensures
            r.wf(),
            forall|i: int|
                0 <= i < 256 ==> #[trigger] r@[i] == if i < colors@.len() {
                    colors@[i]
                } else {
                    Rgb([0u8, 0u8, 0u8])
                },
    {
        let mut out: Vec<Rgb> = Vec::new();
        let mut i: usize = 0;
        while i < 256
            invariant
                i <= 256,
                out@.len() == i,
                forall|j: int|
                    0 <= j < i ==> #[trigger] out@[j] == if j < colors@.len() {
                        colors@[j]
                    } else {
                        Rgb([0u8, 0u8, 0u8])
                    },
            decreases 256 - i,
        {
            if i < colors.len() {
                out.push(colors[i]);
            } else {
                out.push(Rgb([0, 0, 0]));
            }
            i = i + 1;
        }
        Palette { colors: out }
    }

    /// The 256 colors in index order.
    pub fn colors(&self) -> (r: &[Rgb])
        ensures
            r@ == self@,
    {
        self.colors.as_slice()
    }

    pub fn get(&self, index: u8) -> (r: Rgb)
        requires
            self.wf(),
        ensures
            r == self@[index as int],
    {
        self.colors[index as usize]
    }

    pub fn set(&mut self, index: u8, color: Rgb)
        requires
            old(self).wf(),
        ensures
            final(self).wf(),
            final(self)@ == old(self)@.update(index as int, color),
    {
        self.colors.set(index as usize, color);
    }

    /// A copy of this palette.
    pub fn copy(&self) -> (r: Self)
        ensures
            r@ == self@,
    {
        let mut out: Vec<Rgb> = Vec::new();
        let mut i: usize = 0;
        while i < self.colors.len()
            invariant
                i <= self@.len(),
                out@ == self@.take(i as int),
            decreases self@.len() - i,
        {
            out.push(self.colors[i]);
            i = i + 1;
            proof {
                assert(out@ =~= self@.take(i as int));
            }
        }
        proof {
            assert(out@ =~= self@);
        }
        Palette { colors: out }
    }

    /// Makes this palette equal to `other`.
    pub fn copy_from(&mut self, other: &Palette)
        requires
            other.wf(),
        ensures
            final(self)@ == other@,
    {
        let mut i: usize = 0;
        let n = self.colors.len();
        if n != 256 {
            *self = other.copy();
            return;
        }
        while i < 256
            invariant
                n == 256,
                other.wf(),
                i <= 256,
                self@.len() == 256,
                forall|j: int| 0 <= j < i ==> #[trigger] self@[j] == other@[j],
            decreases 256 - i,
        {
            self.colors.set(i, other.colors[i]);
            i = i + 1;
        }
        proof {
            assert(self@ =~= other@);
        }
    }

    fn rotate(&mut self, low: u8, high: u8, distance: u32, right: bool)
        requires
            old(self).wf(),
            low <= high,
        ensures
            final(self).wf(),
            final(self)@ == rotated(old(self)@, low as int, high as int, distance as int, right),
    {
        let src = self.copy();
        let n: u32 = high as u32 - low as u32 + 1;
        let dm: u32 = distance % n;
        let mut i: u32 = low as u32;
        while i <= high as u32
            invariant
                src@ == old(self)@,
                src.wf(),
                self.wf(),
                n == high - low + 1,
                dm == distance % n,
                low <= i <= high as u32 + 1,
                forall|j: int|
                    0 <= j < 256 ==> #[trigger] self@[j] == if low <= j < i {
                        rotated(src@, low as int, high as int, distance as int, right)[j]
                    } else {
                        src@[j]
                    },
            decreases high as u32 + 1 - i,
        {
            let off: u32 = i - low as u32;
            let from: u32 = if right {
                if off >= dm {
                    off - dm
                } else {
                    off + n - dm
                }
            } else {
                if off + dm < n {
                    off + dm
                } else {
                    off + dm - n
                }
            };
            proof {
                lemma_rotate_right_index(off as int, distance as int, n as int);
                lemma_rotate_left_index(off as int, distance as int, n as int);
            }
            let color = src.colors[(low as u32 + from) as usize];
            self.colors.set(i as usize, color);
            i = i + 1;
        }
        proof {
            assert(self@ =~= rotated(old(self)@, low as int, high as int, distance as int, right));
        }
    }

    /// Rotates entries `low..=high` by `distance` places towards higher
    /// indices; the last entries of the range wrap around to its start.
    pub fn rotate_right(&mut self, low: u8, high: u8, distance: u32)
        requires
            old(self).wf(),
            low <= high,
        ensures
            final(self).wf(),
            final(self)@ == rotated(old(self)@, low as int, high as int, distance as int, true),
    {
        self.rotate(low, high, distance, true);
    }

    /// Rotates entries `low..=high` by `distance` places towards lower
    /// indices; the first entries of the range wrap around to its end.
    pub fn rotate_left(&mut self, low: u8, high: u8, distance: u32)
        requires
            old(self).wf(),
            low <= high,
        ensures
            final(self).wf(),
            final(self)@ == rotated(old(self)@, low as int, high as int, distance as int, false),
    {
        self.rotate(low, high, distance, false);
    }
}

/// The whole steps and the fraction of a cycle after `now` milliseconds.
fn cycle_position(cycle: &Cycle, now: u64) -> (r: (u32, u64))
    requires
        cycle.is_active(),
    ensures
        r.0 as int == cycle.distance(now as int),
        r.1 as int == cycle.fraction(now as int),
        r.0 < cycle.span(),
        r.1 < CYCLE_STEP_TICKS,
{
    let n: u128 = (cycle.high as u128) - (cycle.low as u128) + 1;
    let rate: u128 = cycle.rate as u128;
    let t: u128 = now as u128;
    assert(rate * t <= 0xFFFF_FFFFu128 * 0xFFFF_FFFF_FFFF_FFFFu128) by (nonlinear_arith)
        requires
            rate <= 0xFFFF_FFFFu128,
            t <= 0xFFFF_FFFF_FFFF_FFFFu128,
    ;
    let x: u128 = rate * t;
    let steps: u128 = x / (CYCLE_STEP_TICKS as u128);
    let distance: u128 = steps % n;
    let fraction: u128 = x % (CYCLE_STEP_TICKS as u128);
    (distance as u32, fraction as u64)
}

proof fn lemma_next_offset(s: int, n: int)
    requires
        0 <= s < n,
    ensures
        (s + 1) % n == if s + 1 < n {
            s + 1
        } else {
            0
        },
{
    if s + 1 < n {
        vstd::arithmetic::div_mod::lemma_small_mod((s + 1) as nat, n as nat);
    } else {
        vstd::arithmetic::div_mod::lemma_mod_self_0(n);
    }
}

proof fn lemma_previous_offset(s: int, n: int)
    requires
        0 <= s < n,
    ensures
        (s + n - 1) % n == if s == 0 {
            n - 1
        } else {
            s - 1
        },
{
    if s == 0 {
        vstd::arithmetic::div_mod::lemma_small_mod((n - 1) as nat, n as nat);
    } else {
        vstd::arithmetic::div_mod::lemma_fundamental_div_mod_converse(s + n - 1, n, 1, s - 1);
    }
}

/// Blending with no weight on the second color gives the first one; with
/// all weight on it, the second one.
proof fn lemma_blend_ends(x: Rgb, y: Rgb, q: int)
    requires
        0 < q,
    ensures
        blend_spec(x, y, 0, q) == x,
        blend_spec(x, y, q, q) == y,
{
    blend_endpoints_and_monotonic(x.0[0], y.0[0], 0, 0, q);
    blend_endpoints_and_monotonic(x.0[1], y.0[1], 0, 0, q);
    blend_endpoints_and_monotonic(x.0[2], y.0[2], 0, 0, q);
    assert(blend_spec(x, y, 0, q).0 =~= x.0);
    assert(blend_spec(x, y, q, q).0 =~= y.0);
}

impl Palette {
    /// Rotates the range of `cycle` as far as it has moved after `now`
    /// milliseconds: right if it runs forward, left if it is reversed.
    /// Nothing changes where the range holds fewer than two entries or the
    /// rate is zero.
    pub fn apply_cycle(&mut self, cycle: &Cycle, now: u64)
        requires
            old(self).wf(),
        ensures
            final(self).wf(),
            final(self)@ == cycled(old(self)@, *cycle, now as int),
    {
        let low = cycle.low();
        let high = cycle.high();
        let rate = cycle.rate();
        if high > low && rate > 0 {
            let (distance, _fraction) = cycle_position(cycle, now);
            if cycle.reverse() {
                self.rotate_left(low, high, distance);
            } else {
                self.rotate_right(low, high, distance);
            }
        }
    }

    /// Writes into the range of `cycle` the colors of `palette` as smooth
    /// cycling shows them after `now` milliseconds: each entry mixes two
    /// neighbouring source entries by the fraction of the step under way.
    /// Entries outside the range keep their colors.
    pub fn apply_cycle_blended(&mut self, palette: &Palette, cycle: &Cycle, now: u64)
        requires
            old(self).wf(),
            palette.wf(),
        ensures
            final(self).wf(),
            final(self)@ == blended(old(self)@, palette@, *cycle, now as int),
    {
        let low = cycle.low();
        let high = cycle.high();
        let rate = cycle.rate();
        if high > low && rate > 0 {
            let (distance, fraction) = cycle_position(cycle, now);
            let n: u32 = high as u32 - low as u32 + 1;
            let mut off: u32 = 0;
            while off < n
                invariant
                    cycle.is_active(),
                    low == cycle.low,
                    high == cycle.high,
                    n == cycle.span(),
                    distance as int == cycle.distance(now as int),
                    fraction as int == cycle.fraction(now as int),
                    distance < n,
                    fraction < CYCLE_STEP_TICKS,
                    palette.wf(),
                    self.wf(),
                    off <= n,
                    forall|j: int|
                        0 <= j < 256 ==> #[trigger] self@[j] == if low <= j < low + off {
                            blended_entry(palette@, *cycle, now as int, j - low)
                        } else {
                            old(self)@[j]
                        },
                decreases n - off,
            {
                let color = if !cycle.reverse() {
                    let s: u32 = if off >= distance {
                        off - distance
                    } else {
                        off + n - distance
                    };
                    let before: u32 = if s == 0 {
                        n - 1
                    } else {
                        s - 1
                    };
                    proof {
                        vstd::arithmetic::div_mod::lemma_small_mod(distance as nat, n as nat);
                        lemma_rotate_right_index(off as int, distance as int, n as int);
                        lemma_previous_offset(s as int, n as int);
                    }
                    blend(
                        palette.get((low as u32 + s) as u8),
                        palette.get((low as u32 + before) as u8),
                        fraction,
                        CYCLE_STEP_TICKS,
                    )
                } else {
                    let s: u32 = if off + distance < n {
                        off + distance
                    } else {
                        off + distance - n
                    };
                    let after: u32 = if s + 1 < n {
                        s + 1
                    } else {
                        0
                    };
                    proof {
                        vstd::arithmetic::div_mod::lemma_small_mod(distance as nat, n as nat);
                        lemma_rotate_left_index(off as int, distance as int, n as int);
                        lemma_next_offset(s as int, n as int);
                    }
                    blend(
                        palette.get((low as u32 + s) as u8),
                        palette.get((low as u32 + after) as u8),
                        fraction,
                        CYCLE_STEP_TICKS,
                    )
                };
                self.set((low as u32 + off) as u8, color);
                off = off + 1;
            }
            proof {
                assert(self@ =~= blended(old(self)@, palette@, *cycle, now as int));
            }
        }
    }

    /// Applies each cycle in turn, in the order given.
    pub fn apply_cycles(&mut self, cycles: &[Cycle], now: u64)
        requires
            old(self).wf(),
        ensures
            final(self).wf(),
            final(self)@ == cycled_all(old(self)@, cycles@, now as int),
    {
        let mut i: usize = 0;
        while i < cycles.len()
            invariant
                i <= cycles@.len(),
                self.wf(),
                self@ == cycled_all(old(self)@, cycles@.take(i as int), now as int),
            decreases cycles@.len() - i,
        {
            self.apply_cycle(&cycles[i], now);
            proof {
                assert(cycles@.take(i + 1).drop_last() =~= cycles@.take(i as int));
            }
            i = i + 1;
        }
        proof {
            assert(cycles@.take(i as int) =~= cycles@);
        }
    }

    /// Makes this palette `palette` as the cycles show it after `now`
    /// milliseconds: rotated exactly, or, if `blend` is set, blended, each
    /// cycle reading from `palette`.
    pub fn apply_cycles_from(&mut self, palette: &Palette, cycles: &[Cycle], now: u64, blend: bool)
        requires
            palette.wf(),
        ensures
            final(self).wf(),
            final(self)@ == if blend {
                blended_all(palette@, cycles@, now as int)
            } else {
                cycled_all(palette@, cycles@, now as int)
            },
    {
        self.copy_from(palette);
        if blend {
            let mut i: usize = 0;
            while i < cycles.len()
                invariant
                    i <= cycles@.len(),
                    palette.wf(),
                    self.wf(),
                    self@ == blended_all(palette@, cycles@.take(i as int), now as int),
                decreases cycles@.len() - i,
            {
                self.apply_cycle_blended(palette, &cycles[i], now);
                proof {
                    assert(cycles@.take(i + 1).drop_last() =~= cycles@.take(i as int));
                }
                i = i + 1;
            }
            proof {
                assert(cycles@.take(i as int) =~= cycles@);
            }
        } else {
            self.apply_cycles(cycles, now);
        }
    }
}

/// Writes into `output` the entrywise blend of two palettes: the weight of
/// `p2` is `num / den`.
pub fn blend_palettes(p1: &Palette, p2: &Palette, num: u64, den: u64, output: &mut Palette)
    requires
        p1.wf(),
        p2.wf(),
        0 < den,
        num <= den,
    ensures
        final(output).wf(),
        final(output)@ == Seq::new(256, |i: int| blend_spec(p1@[i], p2@[i], num as int, den as int)),
{
    if output.colors.len() != 256 {
        *output = Palette::new();
    }
    let mut i: usize = 0;
    while i < 256
        invariant
            p1.wf(),
            p2.wf(),
            output.wf(),
            0 < den,
            num <= den,
            i <= 256,
            forall|j: int|
                0 <= j < i ==> #[trigger] output@[j] == blend_spec(p1@[j], p2@[j], num as int, den as int),
        decreases 256 - i,
    {
        let c = blend(p1.colors[i], p2.colors[i], num, den);
        output.colors.set(i, c);
        i = i + 1;
    }
    proof {
        assert(output@ =~= Seq::new(256, |i: int| blend_spec(p1@[i], p2@[i], num as int, den as int)));
    }
}

/// A cycle whose range holds fewer than two entries, or whose rate is zero,
/// leaves the palette as it is at every time, exact or blended.
pub proof fn inert_cycle_keeps_palette(dest: Seq<Rgb>, src: Seq<Rgb>, c: Cycle, now: int)
    requires
        !c.is_active(),
    ensures
        cycled(dest, c, now) == dest,
        blended(dest, src, c, now) == dest,
{
}

/// Cycling is periodic: after any time in which the rate covers whole turns
/// of the range (one turn is `span / (rate / 280)` seconds), the palette
/// looks the same again, exact or blended.
pub proof fn cycle_is_periodic(dest: Seq<Rgb>, src: Seq<Rgb>, c: Cycle, now: nat, period: nat)
    requires
        (c.rate * period) % (c.span() * CYCLE_STEP_TICKS) == 0,
    ensures
        cycled(dest, c, (now + period) as int) == cycled(dest, c, now as int),
        blended(dest, src, c, (now + period) as int) == blended(dest, src, c, now as int),
{
    if c.is_active() {
        let q = CYCLE_STEP_TICKS as int;
        let n = c.span();
        let x = c.rate * now;
        let k = (c.rate * period) / (n * q);
        vstd::arithmetic::div_mod::lemma_fundamental_div_mod(c.rate * period, n * q);
        vstd::arithmetic::div_mod::lemma_fundamental_div_mod(x, q);
        assert(c.rate * ((now + period) as int) == (x / q + k * n) * q + x % q) by (nonlinear_arith)
            requires
                x == c.rate * now,
                c.rate * period == (n * q) * k + 0,
                x == q * (x / q) + x % q,
        ;
        vstd::arithmetic::div_mod::lemma_mod_bound(x, q);
        vstd::arithmetic::div_mod::lemma_fundamental_div_mod_converse(
            c.rate * ((now + period) as int),
            q,
            x / q + k * n,
            x % q,
        );
        assert(c.steps((now + period) as int) == c.steps(now as int) + n * k);
        vstd::arithmetic::div_mod::lemma_mod_multiples_vanish(k, c.steps(now as int), n);
        assert(c.distance((now + period) as int) == c.distance(now as int));
        assert(c.fraction((now + period) as int) == c.fraction(now as int));
        assert(cycled(dest, c, (now + period) as int) =~= cycled(dest, c, now as int));
        assert(blended(dest, src, c, (now + period) as int) =~= blended(dest, src, c, now as int));
    }
}

/// At a whole step (fraction zero) blended cycling gives exactly what exact
/// cycling gives, in both directions: inside the cycle's range the entries
/// of the exact rotation of `src`, outside it those of `dest`.
pub proof fn blended_whole_step_matches_exact(dest: Seq<Rgb>, src: Seq<Rgb>, c: Cycle, now: int)
    requires
        dest.len() == 256,
        src.len() == 256,
        c.fraction(now) == 0,
    ensures
        blended(src, src, c, now) == cycled(src, c, now),
        forall|i: int|
            0 <= i < 256 ==> #[trigger] blended(dest, src, c, now)[i] == if c.is_active() && c.low
                <= i <= c.high {
                cycled(src, c, now)[i]
            } else {
                dest[i]
            },
{
    if c.is_active() {
        let n = c.span();
        let d = c.distance(now);
        let low = c.low as int;
        let q = CYCLE_STEP_TICKS as int;
        assert forall|i: int| low <= i <= c.high implies #[trigger] blended_entry(src, c, now, i - low)
            == cycled(src, c, now)[i] by {
            let off = i - low;
            if !c.reverse {
                let s = (off - d) % n;
                vstd::arithmetic::div_mod::lemma_mod_bound(off - d, n);
                vstd::arithmetic::div_mod::lemma_mod_bound(s + n - 1, n);
                lemma_blend_ends(src[low + s], src[low + (s + n - 1) % n], q);
            } else {
                let s = (off + d) % n;
                vstd::arithmetic::div_mod::lemma_mod_bound(off + d, n);
                vstd::arithmetic::div_mod::lemma_mod_bound(s + 1, n);
                lemma_blend_ends(src[low + s], src[low + (s + 1) % n], q);
            }
        }
        assert(blended(src, src, c, now) =~= cycled(src, c, now));
    }
}

} // verus!
