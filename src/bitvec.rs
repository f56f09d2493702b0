use vstd::prelude::*;

verus! {

/// Bit `i` (0 = least significant) of a byte.
pub open spec fn bit_of(b: u8, i: int) -> bool {
    (b >> (i as u8)) & 1u8 == 1u8
}

/// The first `len` bits of `bytes`, taken least significant bit first from
/// each byte in turn.
pub open spec fn bits_lsb_first(bytes: Seq<u8>, len: nat) -> Seq<bool> {
    Seq::new(len, |i: int| bit_of(bytes[i / 8], i % 8))
}

/// Bit `j` of a byte string, least significant bit first within each byte.
pub open spec fn byte_bit(bytes: Seq<u8>, j: int) -> bool {
    bit_of(bytes[j / 8], j % 8)
}

/// Number of bytes needed to hold `bits` bits.
pub open spec fn bytes_for(bits: nat) -> nat {
    (bits + 7) / 8
}

proof fn lemma_set_bit(b: u8, k: u8, v: bool, t: u8)
    requires
        k < 8,
        t < 8,
    ensures
        bit_of((b & !(1u8 << k)) | ((if v { 1u8 } else { 0u8 }) << k), t as int) == if t == k {
            v
        } else {
            bit_of(b, t as int)
        },
{
    let vb: u8 = if v { 1u8 } else { 0u8 };
    assert(vb == 0 || vb == 1);
    assert((((b & !(1u8 << k)) | (vb << k)) >> t) & 1u8 == if t == k {
        vb
    } else {
        (b >> t) & 1u8
    }) by (bit_vector)
        requires
            k < 8,
            t < 8,
            vb == 0 || vb == 1,
    ;
}

proof fn lemma_splice_low(last: u8, b: u8, k: u8, t: u8)
    requires
        0 < k < 8,
        t < 8,
    ensures
        bit_of((last & (0xFFu8 >> ((8 - k) as u8))) | (b << k), t as int) == if t < k {
            bit_of(last, t as int)
        } else {
            bit_of(b, (t - k) as int)
        },
{
    assert((((last & (0xFFu8 >> ((8 - k) as u8))) | (b << k)) >> t) & 1u8 == if t < k {
        (last >> t) & 1u8
    } else {
        (b >> ((t - k) as u8)) & 1u8
    }) by (bit_vector)
        requires
            0 < k < 8,
            t < 8,
    ;
}

proof fn lemma_splice_high(b: u8, k: u8, t: u8)
    requires
        0 < k < 8,
        t < 8,
    ensures
        bit_of(b >> ((8 - k) as u8), t as int) == if t < k {
            bit_of(b, (t + 8 - k) as int)
        } else {
            false
        },
{
    assert(((b >> ((8 - k) as u8)) >> t) & 1u8 == if t < k {
        (b >> ((t + 8 - k) as u8)) & 1u8
    } else {
        0u8
    }) by (bit_vector)
        requires
            0 < k < 8,
            t < 8,
    ;
}

proof fn lemma_fill_byte(v: bool, t: u8)
    requires
        t < 8,
    ensures
        bit_of(if v { 0xFFu8 } else { 0u8 }, t as int) == v,
{
    assert((0xFFu8 >> t) & 1u8 == 1u8) by (bit_vector)
        requires
            t < 8,
    ;
    assert((0u8 >> t) & 1u8 == 0u8) by (bit_vector);
}

proof fn lemma_bit_test(b: u8, t: u8)
    requires
        t < 8,
    ensures
        bit_of(b, t as int) == (((b >> t) & 1u8) != 0u8),
        bit_of(b, 0) == ((b & 1u8) != 0u8),
{
    assert((((b >> t) & 1u8) == 1u8) == (((b >> t) & 1u8) != 0u8)) by (bit_vector);
    assert((((b >> 0u8) & 1u8) == 1u8) == ((b & 1u8) != 0u8)) by (bit_vector);
}

proof fn lemma_pushed_byte(v: bool)
    ensures
        bit_of(if v { 1u8 } else { 0u8 }, 0) == v,
{
    assert((1u8 >> 0u8) & 1u8 == 1u8) by (bit_vector);
    assert((0u8 >> 0u8) & 1u8 == 0u8) by (bit_vector);
}

/// A growable sequence of booleans, packed eight to a byte, least significant
/// bit first.
#[derive(Debug, Default)]
pub struct BitVec {
    len: usize,
    bits: Vec<u8>,
}

/// Relies on `Vec::capacity`: a vector can always hold at least as many
/// elements as it has.
#[verifier::external_body]
fn vec_capacity(v: &Vec<u8>) -> (r: usize)
    ensures
        r >= v@.len(),
{
    v.capacity()
}

impl View for BitVec {
    type V = Seq<bool>;

    closed spec fn view(&self) -> Seq<bool> {
        bits_lsb_first(self.bits@, self.len as nat)
    }
}

impl BitVec {
    /// The backing store holds exactly the bytes that the bits need.
    pub closed spec fn wf(&self) -> bool {
        self.bits@.len() == bytes_for(self.len as nat)
    }

    pub fn new() -> (r: Self)
        ensures
            r.wf(),
            r@ == Seq::<bool>::empty(),
    {
        let r = BitVec { len: 0, bits: Vec::new() };
        assert(r@ =~= Seq::<bool>::empty());
        r
    }

    pub fn with_capacity(capacity: usize) -> (r: Self)
        ensures
            r.wf(),
            r@ == Seq::<bool>::empty(),
    {
        let r = BitVec { len: 0, bits: Vec::with_capacity(capacity / 8 + 1) };
        assert(r@ =~= Seq::<bool>::empty());
        r
    }

    pub fn len(&self) -> (r: usize)
        ensures
            r == self@.len(),
    {
        self.len
    }

    pub fn is_empty(&self) -> (r: bool)
        ensures
            r == (self@.len() == 0),
    {
        self.len == 0
    }

    /// Number of bits the backing store holds without growing.
    pub fn capacity(&self) -> (r: usize)
        requires
            self.wf(),
        ensures
            r >= self@.len(),
    {
        let c = vec_capacity(&self.bits);
        if c > usize::MAX / 8 {
            usize::MAX
        } else {
            c * 8
        }
    }

    pub fn set(&mut self, index: usize, value: bool)
        requires
            old(self).wf(),
            index < old(self)@.len(),
        ensures
            final(self).wf(),
            final(self)@ == old(self)@.update(index as int, value),
    {
        self.set_unchecked(index, value);
    }

    fn set_unchecked(&mut self, index: usize, value: bool)
        requires
            old(self).wf(),
            index < old(self)@.len(),
        ensures
            final(self).wf(),
            final(self).len == old(self).len,
            final(self)@ == old(self)@.update(index as int, value),
    {
        let byte_index = index / 8;
        let bit_index = (index % 8) as u8;
        let old_byte = self.bits[byte_index];
        let vb: u8 = if value { 1 } else { 0 };
        let byte = (old_byte & !(1u8 << bit_index)) | (vb << bit_index);
        self.bits.set(byte_index, byte);
        proof {
            assert forall|i: int| 0 <= i < self.len implies #[trigger] self@[i] == old(
                self,
            )@.update(index as int, value)[i] by {
                if i / 8 == byte_index as int {
                    lemma_set_bit(old_byte, bit_index, value, (i % 8) as u8);
                }
            }
            assert(self@ =~= old(self)@.update(index as int, value));
        }
    }

    pub fn get(&self, index: usize) -> (r: Option<bool>)
        requires
            self.wf(),
        ensures
            r == if index < self@.len() {
                Some(self@[index as int])
            } else {
                None::<bool>
            },
    {
        if index >= self.len {
            return None;
        }
        let byte_index = index / 8;
        let bit_index = (index % 8) as u8;
        proof {
            lemma_bit_test(self.bits@[byte_index as int], bit_index);
        }
        Some(((self.bits[byte_index] >> bit_index) & 1) != 0)
    }

    pub fn push(&mut self, value: bool)
        requires
            old(self).wf(),
            old(self)@.len() < usize::MAX,
        ensures
            final(self).wf(),
            final(self)@ == old(self)@.push(value),
    {
        if self.len % 8 == 0 {
            let vb: u8 = if value { 1 } else { 0 };
            self.bits.push(vb);
            self.len = self.len + 1;
            proof {
                lemma_pushed_byte(value);
                assert(self@ =~= old(self)@.push(value));
            }
        } else {
            let ghost mid = *self;
            proof {
                assert(bytes_for((self.len + 1) as nat) == bytes_for(self.len as nat));
            }
            self.len = self.len + 1;
            proof {
                assert(self@ =~= mid@.push(self@[mid.len as int]));
            }
            self.set_unchecked(self.len - 1, value);
            proof {
                assert(self@ =~= old(self)@.push(value));
            }
        }
    }

    pub fn first(&self) -> (r: Option<bool>)
        requires
            self.wf(),
        ensures
            r == if self@.len() > 0 {
                Some(self@[0])
            } else {
                None::<bool>
            },
    {
        if self.len == 0 {
            return None;
        }
        proof {
            lemma_bit_test(self.bits@[0], 0);
        }
        Some((self.bits[0] & 1) != 0)
    }

    pub fn last(&self) -> (r: Option<bool>)
        requires
            self.wf(),
        ensures
            r == if self@.len() > 0 {
                Some(self@.last())
            } else {
                None::<bool>
            },
    {
        if self.len == 0 {
            return None;
        }
        self.get(self.len - 1)
    }

    pub fn pop(&mut self) -> (r: Option<bool>)
        requires
            old(self).wf(),
        ensures
            final(self).wf(),
            r == if old(self)@.len() > 0 {
                Some(old(self)@.last())
            } else {
                None::<bool>
            },
            final(self)@ == if old(self)@.len() > 0 {
                old(self)@.drop_last()
            } else {
                old(self)@
            },
    {
        let value = self.last();
        if value.is_some() {
            let new_len = self.len - 1;
            self.truncate(new_len);
        }
        value
    }

    pub fn truncate(&mut self, len: usize)
        requires
            old(self).wf(),
        ensures
            final(self).wf(),
            final(self)@ == if len < old(self)@.len() {
                old(self)@.take(len as int)
            } else {
                old(self)@
            },
    {
        if len < self.len {
            self.len = len;
            self.bits.truncate(len / 8 + if len % 8 == 0 { 0 } else { 1 });
            proof {
                assert(self@ =~= old(self)@.take(len as int));
            }
        }
    }

    /// Sets every bit to `value`.
    pub fn fill(&mut self, value: bool)
        requires
            old(self).wf(),
        ensures
            final(self).wf(),
            final(self)@ == Seq::new(old(self)@.len(), |_i: int| value),
    {
        let byte: u8 = if value { 0xFF } else { 0 };
        let n = self.bits.len();
        let mut i: usize = 0;
        while i < n
            invariant
                self.len == old(self).len,
                self.bits@.len() == n,
                n == old(self).bits@.len(),
                forall|j: int| 0 <= j < i ==> self.bits@[j] == byte,
            decreases n - i,
        {
            self.bits.set(i, byte);
            i = i + 1;
        }
        proof {
            assert forall|j: int| 0 <= j < self.len implies #[trigger] self@[j] == value by {
                lemma_fill_byte(value, (j % 8) as u8);
            }
            assert(self@ =~= Seq::new(old(self)@.len(), |_i: int| value));
        }
    }

    /// Appends the first `bit_len` bits of `bytes`, least significant bit
    /// first within each byte, whatever the alignment of the current end.
    pub fn extend_from_bytes(&mut self, bytes: &[u8], bit_len: usize)
        requires
            old(self).wf(),
            bit_len <= bytes@.len() * 8,
            old(self)@.len() + bit_len <= usize::MAX,
        ensures
            final(self).wf(),
            final(self)@ == old(self)@ + bits_lsb_first(bytes@, bit_len as nat),
    {
        let ghost old_view = self@;
        let nbytes = bit_len / 8 + if bit_len % 8 == 0 { 0 } else { 1 };
        let k = self.len % 8;
        let base = self.len;
        let mut i: usize = 0;
        if k == 0 {
            while i < nbytes
                invariant
                    k == 0,
                    base == old(self).len,
                    base % 8 == 0,
                    nbytes <= bytes@.len(),
                    nbytes * 8 < bit_len + 8,
                    i <= nbytes,
                    self.len == base,
                    old_view.len() == base,
                    self.bits@.len() == base / 8 + i,
                    forall|j: int|
                        0 <= j < base ==> #[trigger] bit_of(self.bits@[j / 8], j % 8)
                            == old_view[j],
                    forall|j: int|
                        base <= j < base + 8 * i ==> #[trigger] bit_of(self.bits@[j / 8], j % 8)
                            == byte_bit(bytes@, j - base),
                decreases nbytes - i,
            {
                let ghost prev = self.bits@;
                self.bits.push(bytes[i]);
                proof {
                    assert forall|j: int| 0 <= j < base implies #[trigger] bit_of(
                        self.bits@[j / 8],
                        j % 8,
                    ) == old_view[j] by {
                        assert(self.bits@[j / 8] == prev[j / 8]);
                    }
                    assert forall|j: int| base <= j < base + 8 * (i + 1) implies #[trigger] bit_of(
                        self.bits@[j / 8],
                        j % 8,
                    ) == byte_bit(bytes@, j - base) by {
                        if j < base + 8 * i {
                            assert(self.bits@[j / 8] == prev[j / 8]);
                        } else {
                            let t = j - base - 8 * i;
                            assert(0 <= t < 8);
                            assert(j == (base / 8 + i) * 8 + t);
                            assert(j / 8 == base / 8 + i);
                            assert(j % 8 == t);
                            assert(j - base == i * 8 + t);
                            assert((j - base) / 8 == i);
                            assert((j - base) % 8 == t);
                        }
                    }
                }
                i = i + 1;
            }
        } else {
            let kb = k as u8;
            let mask: u8 = 0xFFu8 >> (8 - kb);
            while i < nbytes
                invariant
                    0 < k < 8,
                    kb == k,
                    mask == 0xFFu8 >> ((8 - kb) as u8),
                    base == old(self).len,
                    base % 8 == k,
                    nbytes <= bytes@.len(),
                    nbytes * 8 < bit_len + 8,
                    i <= nbytes,
                    self.len == base,
                    old_view.len() == base,
                    self.bits@.len() == base / 8 + 1 + i,
                    forall|j: int|
                        0 <= j < base ==> #[trigger] bit_of(self.bits@[j / 8], j % 8)
                            == old_view[j],
                    forall|j: int|
                        base <= j < base + 8 * i ==> #[trigger] bit_of(self.bits@[j / 8], j % 8)
                            == byte_bit(bytes@, j - base),
                decreases nbytes - i,
            {
                let b = bytes[i];
                let last_index = self.bits.len() - 1;
                let last = self.bits[last_index];
                let ghost prev = self.bits@;
                self.bits.set(last_index, (last & mask) | (b << kb));
                self.bits.push(b >> (8 - kb));
                proof {
                    let lb = last_index as int;
                    assert(lb * 8 + k == base + 8 * i);
                    assert(lb == base / 8 + i);
                    assert forall|j: int| 0 <= j < base implies #[trigger] bit_of(
                        self.bits@[j / 8],
                        j % 8,
                    ) == old_view[j] by {
                        if j / 8 == lb {
                            assert(j % 8 < k);
                            lemma_splice_low(last, b, kb, (j % 8) as u8);
                        } else {
                            assert(self.bits@[j / 8] == prev[j / 8]);
                        }
                    }
                    assert forall|j: int| base <= j < base + 8 * (i + 1) implies #[trigger] bit_of(
                        self.bits@[j / 8],
                        j % 8,
                    ) == byte_bit(bytes@, j - base) by {
                        if j < base + 8 * i {
                            if j / 8 == lb {
                                assert(j % 8 < k);
                                lemma_splice_low(last, b, kb, (j % 8) as u8);
                            } else {
                                assert(self.bits@[j / 8] == prev[j / 8]);
                            }
                        } else if j < lb * 8 + 8 {
                            let t = j - lb * 8;
                            assert(k <= t < 8);
                            assert(j / 8 == lb);
                            assert(j % 8 == t);
                            assert(j - base == i * 8 + (t - k));
                            assert((j - base) / 8 == i);
                            assert((j - base) % 8 == t - k);
                            lemma_splice_low(last, b, kb, t as u8);
                        } else {
                            let t = j - lb * 8 - 8;
                            assert(0 <= t < k);
                            assert(j / 8 == lb + 1);
                            assert(j % 8 == t);
                            assert(j - base == i * 8 + (t + 8 - k));
                            assert((j - base) / 8 == i);
                            assert((j - base) % 8 == t + 8 - k);
                            lemma_splice_high(b, kb, t as u8);
                        }
                    }
                }
                i = i + 1;
            }
        }
        self.len = base + bit_len;
        let new_len = self.len;
        self.bits.truncate(new_len / 8 + if new_len % 8 == 0 { 0 } else { 1 });
        proof {
            assert forall|j: int| 0 <= j < new_len implies #[trigger] self@[j] == (old_view
                + bits_lsb_first(bytes@, bit_len as nat))[j] by {
                if j >= base {
                    assert(byte_bit(bytes@, j - base) == bits_lsb_first(bytes@, bit_len as nat)[j
                        - base]);
                } else {
                    assert(old_view[j] == bit_of(self.bits@[j / 8], j % 8));
                }
            }
            assert(self@ =~= old_view + bits_lsb_first(bytes@, bit_len as nat));
        }
    }

    /// The backing bytes: bit `i` is bit `i % 8` of byte `i / 8`.
    pub fn into_bytes(self) -> (r: Vec<u8>)
        requires
            self.wf(),
        ensures
            r@.len() == bytes_for(self@.len()),
            bits_lsb_first(r@, self@.len()) == self@,
    {
        self.bits
    }

    /// A copy of the backing bytes: bit `i` is bit `i % 8` of byte `i / 8`.
    pub fn to_bytes(&self) -> (r: Vec<u8>)
        requires
            self.wf(),
        ensures
            r@.len() == bytes_for(self@.len()),
            bits_lsb_first(r@, self@.len()) == self@,
    {
        let r = self.bits.clone();
        assert(r@ =~= self.bits@);
        r
    }

    pub fn iter(&self) -> (r: BitVecIter<'_>)
        requires
            self.wf(),
        ensures
            r.index == 0,
            r.bitvec == self,
    {
        BitVecIter { index: 0, bitvec: self }
    }
}

/// Walks the bits of a [`BitVec`] from first to last.
#[derive(Debug, Clone, Copy)]
pub struct BitVecIter<'a> {
    pub index: usize,
    pub bitvec: &'a BitVec,
}

impl<'a> BitVecIter<'a> {
    /// The next bit, or `None` once every bit was handed out.
    pub fn next(&mut self) -> (r: Option<bool>)
        requires
            old(self).bitvec.wf(),
        ensures
            final(self).bitvec == old(self).bitvec,
            r == if old(self).index < old(self).bitvec@.len() {
                Some(old(self).bitvec@[old(self).index as int])
            } else {
                None::<bool>
            },
            final(self).index == if old(self).index < old(self).bitvec@.len() {
                old(self).index + 1
            } else {
                old(self).index as int
            },
    {
        let value = self.bitvec.get(self.index);
        if value.is_some() {
            self.index = self.index + 1;
        }
        value
    }
}

/// The bits after pushing each of `bits`, in order, onto `start`.
pub open spec fn pushed_all(start: Seq<bool>, bits: Seq<bool>) -> Seq<bool>
    decreases bits.len(),
{
    if bits.len() == 0 {
        start
    } else {
        pushed_all(start, bits.drop_last()).push(bits.last())
    }
}

/// Pushing bits one at a time keeps them in order after what was there, so
/// `get(i)` gives back the `i`-th bit pushed; and appending bytes with
/// `extend_from_bytes`, whatever the alignment of the end, gives the same
/// bits as pushing each of their bits in turn.
pub proof fn pushes_keep_order(start: Seq<bool>, bits: Seq<bool>, bytes: Seq<u8>, n: nat)
    ensures
        pushed_all(start, bits) == start + bits,
        forall|i: int|
            0 <= i < bits.len() ==> #[trigger] pushed_all(start, bits)[start.len() + i] == bits[i],
        start + bits_lsb_first(bytes, n) == pushed_all(start, bits_lsb_first(bytes, n)),
{
    lemma_pushed_all(start, bits);
    lemma_pushed_all(start, bits_lsb_first(bytes, n));
}

proof fn lemma_pushed_all(start: Seq<bool>, bits: Seq<bool>)
    ensures
        pushed_all(start, bits) == start + bits,
    decreases bits.len(),
{
    if bits.len() > 0 {
        lemma_pushed_all(start, bits.drop_last());
        assert((start + bits.drop_last()).push(bits.last()) =~= start + bits);
    } else {
        assert(start + bits =~= start);
    }
}

} // verus!
