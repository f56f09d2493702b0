use color_cycle::bitvec::BitVec;

fn bits_of(bytes: &[u8], n: usize) -> Vec<bool> {
    (0..n).map(|i| (bytes[i / 8] >> (i % 8)) & 1 == 1).collect()
}

fn collect(v: &BitVec) -> Vec<bool> {
    (0..v.len()).map(|i| v.get(i).unwrap()).collect()
}

#[test]
fn pushed_bits_come_back_in_order() {
    let pattern = [true, false, false, true, true, true, false, true, false, false, true];
    let mut v = BitVec::new();
    for &b in &pattern {
        v.push(b);
    }
    assert_eq!(v.len(), pattern.len());
    for (i, &b) in pattern.iter().enumerate() {
        assert_eq!(v.get(i), Some(b));
    }
    assert_eq!(v.get(pattern.len()), None);
    assert_eq!(v.first(), Some(true));
    assert_eq!(v.last(), Some(true));
}

#[test]
fn extend_from_bytes_matches_pushes_at_every_alignment() {
    let bytes = [0b1011_0010u8, 0b0110_1101, 0b1111_0000, 0b0000_1111];
    for start in 0..8usize {
        for count in [0usize, 1, 7, 8, 9, 15, 16, 23, 32] {
            let mut spliced = BitVec::new();
            let mut pushed = BitVec::new();
            for i in 0..start {
                spliced.push(i % 3 == 0);
                pushed.push(i % 3 == 0);
            }
            spliced.extend_from_bytes(&bytes, count);
            for b in bits_of(&bytes, count) {
                pushed.push(b);
            }
            assert_eq!(spliced.len(), start + count);
            assert_eq!(collect(&spliced), collect(&pushed), "start {start}, count {count}");
        }
    }
}

#[test]
fn set_truncate_pop_and_fill() {
    let mut v = BitVec::with_capacity(20);
    assert!(v.is_empty());
    for _ in 0..10 {
        v.push(false);
    }
    v.set(3, true);
    v.set(9, true);
    assert_eq!(v.get(3), Some(true));
    assert_eq!(v.get(9), Some(true));
    assert_eq!(v.pop(), Some(true));
    assert_eq!(v.len(), 9);
    v.truncate(4);
    assert_eq!(collect(&v), vec![false, false, false, true]);
    v.fill(true);
    assert_eq!(collect(&v), vec![true, true, true, true]);
    assert!(v.capacity() >= v.len());
    let mut empty = BitVec::new();
    assert_eq!(empty.pop(), None);
    assert_eq!(empty.first(), None);
}

#[test]
fn bytes_and_iteration() {
    let mut v = BitVec::new();
    v.extend_from_bytes(&[0b0000_0101, 0xFF], 10);
    assert_eq!(v.to_bytes(), vec![0b0000_0101, 0xFF]);
    let mut it = v.iter();
    let mut seen = Vec::new();
    while let Some(b) = it.next() {
        seen.push(b);
    }
    assert_eq!(seen, vec![true, false, true, false, false, false, false, false, true, true]);
    assert_eq!(v.into_bytes().len(), 2);
}
