use color_cycle::color::{blend, Rgb};
use color_cycle::palette::{blend_palettes, Cycle, Palette, CYCLE_STEP_TICKS};

fn ramp() -> Palette {
    let colors: Vec<Rgb> = (0..256).map(|i| Rgb([i as u8, (255 - i) as u8, (i * 7 % 256) as u8])).collect();
    Palette::from_colors(&colors)
}

fn entries(p: &Palette, range: std::ops::Range<u8>) -> Vec<Rgb> {
    range.map(|i| p.get(i)).collect()
}

#[test]
fn blend_endpoints_and_rounding() {
    let a = Rgb([10, 200, 0]);
    let b = Rgb([250, 0, 255]);
    assert_eq!(blend(a, b, 0, 1000), a);
    assert_eq!(blend(a, b, 1000, 1000), b);
    // 0.5 * 0 + 0.5 * 255 = 127.5 rounds away from zero
    assert_eq!(blend(Rgb([0, 0, 0]), Rgb([255, 255, 255]), 1, 2), Rgb([128, 128, 128]));
    // 0.25 * 10 + 0.75 * 250 = 190; 0.25 * 200 = 50; 0.75 * 255 = 191.25
    assert_eq!(blend(a, b, 3, 4), Rgb([190, 50, 191]));
}

#[test]
fn blend_is_monotonic_per_channel() {
    let a = Rgb([10, 200, 77]);
    let b = Rgb([250, 0, 77]);
    let mut prev = blend(a, b, 0, 100);
    for num in 1..=100 {
        let c = blend(a, b, num, 100);
        assert!(c.r() >= prev.r());
        assert!(c.g() <= prev.g());
        assert_eq!(c.b(), 77);
        prev = c;
    }
}

#[test]
fn exact_cycle_rotates_right_by_elapsed_steps() {
    let base = ramp();
    let mut p = base.clone();
    p.apply_cycle(&Cycle::new(0, 3, 280, false), 1000);
    assert_eq!(
        entries(&p, 0..4),
        vec![base.get(3), base.get(0), base.get(1), base.get(2)]
    );
    assert_eq!(entries(&p, 4..255), entries(&base, 4..255));
}

#[test]
fn reversed_cycle_rotates_left() {
    let base = ramp();
    let mut p = base.clone();
    p.apply_cycle(&Cycle::new(10, 14, 560, true), 1000);
    assert_eq!(
        entries(&p, 10..15),
        vec![base.get(12), base.get(13), base.get(14), base.get(10), base.get(11)]
    );
}

#[test]
fn inert_cycles_do_nothing() {
    let base = ramp();
    for cycle in [Cycle::new(5, 5, 1000, false), Cycle::new(9, 3, 1000, true), Cycle::new(0, 255, 0, false)] {
        for now in [0u64, 1, 999, 123_456_789, u64::MAX] {
            let mut p = base.clone();
            p.apply_cycle(&cycle, now);
            assert_eq!(p, base);
            let mut q = base.clone();
            q.apply_cycle_blended(&base, &cycle, now);
            assert_eq!(q, base);
        }
    }
}

#[test]
fn cycling_is_periodic() {
    let base = ramp();
    let cycle = Cycle::new(0, 3, 280, false);
    // one turn of 4 entries at one step per second takes 4000 ms
    for now in [0u64, 250, 1000, 1999, 3999, 77_777] {
        let mut a = base.clone();
        a.apply_cycle(&cycle, now);
        let mut b = base.clone();
        b.apply_cycle(&cycle, now + 4000);
        assert_eq!(a, b);
        let mut c = base.clone();
        c.apply_cycle_blended(&base, &cycle, now);
        let mut d = base.clone();
        d.apply_cycle_blended(&base, &cycle, now + 4000);
        assert_eq!(c, d);
    }
}

#[test]
fn blended_at_whole_step_equals_exact() {
    let base = ramp();
    for reverse in [false, true] {
        for (low, high, rate) in [(0u8, 3u8, 280u32), (20, 27, 280), (40, 42, 560), (100, 200, 2800)] {
            let cycle = Cycle::new(low, high, rate, reverse);
            for now in [0u64, 1000, 2000, 3000, 7000, 123_000] {
                let mut exact = base.clone();
                exact.apply_cycle(&cycle, now);
                let mut smooth = base.clone();
                smooth.apply_cycle_blended(&base, &cycle, now);
                assert_eq!(exact, smooth, "low {low}, high {high}, rate {rate}, reverse {reverse}, now {now}");
            }
        }
    }
}

#[test]
fn blended_mixes_neighbours_by_fraction() {
    let mut colors = vec![Rgb([0, 0, 0]); 256];
    colors[0] = Rgb([0, 0, 0]);
    colors[1] = Rgb([100, 100, 100]);
    colors[2] = Rgb([200, 200, 200]);
    let base = Palette::from_colors(&colors);
    // rate 280, 500 ms: distance 0, half a step
    let mut p = base.clone();
    p.apply_cycle_blended(&base, &Cycle::new(0, 2, 280, false), 500);
    // halfway from [0, 100, 200] to its right rotation [200, 0, 100]
    assert_eq!(entries(&p, 0..3), vec![Rgb([100, 100, 100]), Rgb([50, 50, 50]), Rgb([150, 150, 150])]);
    let mut q = base.clone();
    q.apply_cycle_blended(&base, &Cycle::new(0, 2, 280, true), 500);
    // halfway from [0, 100, 200] to its left rotation [100, 200, 0]
    assert_eq!(entries(&q, 0..3), vec![Rgb([50, 50, 50]), Rgb([150, 150, 150]), Rgb([100, 100, 100])]);
    assert_eq!(CYCLE_STEP_TICKS, 280_000);
}

#[test]
fn cycles_apply_in_order() {
    let base = ramp();
    let cycles = [Cycle::new(0, 3, 280, false), Cycle::new(2, 5, 280, false)];
    let mut p = Palette::new();
    p.apply_cycles_from(&base, &cycles, 1000, false);
    let mut q = base.clone();
    q.rotate_right(0, 3, 1);
    q.rotate_right(2, 5, 1);
    assert_eq!(p, q);
    let mut r = Palette::new();
    r.apply_cycles_from(&base, &cycles, 1000, true);
    let mut s = base.clone();
    s.apply_cycle_blended(&base, &cycles[0], 1000);
    s.apply_cycle_blended(&base, &cycles[1], 1000);
    assert_eq!(r, s);
}

#[test]
fn rotation_takes_distance_modulo_span() {
    let base = ramp();
    let mut a = base.clone();
    a.rotate_left(100, 104, 7);
    let mut b = base.clone();
    b.rotate_left(100, 104, 2);
    assert_eq!(a, b);
    let mut c = base.clone();
    c.rotate_right(100, 104, 5);
    assert_eq!(c, base);
}

#[test]
fn palettes_blend_entrywise() {
    let black = Palette::new();
    let white = Palette::from_colors(&vec![Rgb([255, 255, 255]); 256]);
    let mut out = Palette::new();
    blend_palettes(&black, &white, 1, 4, &mut out);
    for i in 0..=255u8 {
        assert_eq!(out.get(i), Rgb([64, 64, 64]));
    }
    assert_eq!(out.colors().len(), 256);
}
