use vstd::prelude::*;
use bit_vec::BitVec;

verus! {

/// `bit_vec::BitVec`: a sequence of bits that can grow.
#[verifier::external_type_specification]
#[verifier::external_body]
#[verifier::reject_recursive_types(B)]
pub struct ExBitVec<B>(BitVec<B>);

/// A key combination: bit `i` tells whether the key with registry index `i` is held.
pub type KeyComb = BitVec;

/// The bits of a bit vector, first bit first.
pub uninterp spec fn comb_bits(c: BitVec) -> Seq<bool>;

/// Bit `j` (counted from the most significant one) of a byte.
pub open spec fn byte_bit(byte: u8, j: int) -> bool {
    (byte >> ((7 - j) as u8)) & 1u8 == 1u8
}

/// `BitVec::from_bytes`: every byte yields eight bits, the most significant first.
#[verifier::external_body]
pub(crate) fn bits_from_bytes(bytes: &[u8]) -> (r: BitVec)
    requires
        bytes@.len() * 8 <= usize::MAX,
    ensures
        comb_bits(r).len() == bytes@.len() * 8,
        forall|i: int|
            0 <= i < bytes@.len() * 8 ==> #[trigger] comb_bits(r)[i] == byte_bit(bytes@[i / 8], i % 8),
{
    BitVec::from_bytes(bytes)
}

/// `BitVec::clone`: the copy holds the same bits.
#[verifier::external_body]
pub(crate) fn bits_clone(c: &BitVec) -> (r: BitVec)
    ensures
        comb_bits(r) == comb_bits(*c),
{
    c.clone()
}

/// `BitVec::len`: the number of bits.
#[verifier::external_body]
pub(crate) fn bits_len(c: &BitVec) -> (n: usize)
    ensures
        n == comb_bits(*c).len(),
{
    c.len()
}

/// `BitVec::grow`: appends `n` copies of `value`; it panics when the new length
/// does not fit in a `usize`.
#[verifier::external_body]
pub(crate) fn bits_grow(c: &mut BitVec, n: usize, value: bool)
    requires
        comb_bits(*old(c)).len() + n <= usize::MAX,
    ensures
        comb_bits(*final(c)) == comb_bits(*old(c)) + Seq::new(n as nat, |i: int| value),
{
    c.grow(n, value)
}

/// `BitVec::set`: overwrites bit `i`; it panics when `i` is out of bounds.
#[verifier::external_body]
pub(crate) fn bits_set(c: &mut BitVec, i: usize, x: bool)
    requires
        i < comb_bits(*old(c)).len(),
    ensures
        comb_bits(*final(c)) == comb_bits(*old(c)).update(i as int, x),
{
    c.set(i, x)
}

/// `BitVec::eq`: two bit vectors are equal when they have the same length and
/// the same bits.
#[verifier::external_body]
pub(crate) fn bits_eq(a: &BitVec, b: &BitVec) -> (r: bool)
    ensures
        r == (comb_bits(*a) == comb_bits(*b)),
{
    a == b
}

/// Bit `i` of a combination read with zero-extension: absent bits are unset.
pub open spec fn bit_at(bits: Seq<bool>, i: int) -> bool {
    0 <= i < bits.len() && bits[i]
}

/// Equality of combinations under zero-extension.
pub open spec fn comb_equal(a: Seq<bool>, b: Seq<bool>) -> bool {
    forall|i: int| #[trigger] bit_at(a, i) == bit_at(b, i)
}

/// `n` unset bits.
pub open spec fn zeros(n: nat) -> Seq<bool> {
    Seq::new(n, |i: int| false)
}

/// The combination with bit `pos` set, grown as far as needed.
pub open spec fn with_bit(bits: Seq<bool>, pos: nat) -> Seq<bool> {
    if pos >= bits.len() {
        (bits + zeros((pos - bits.len() + 1) as nat)).update(pos as int, true)
    } else {
        bits.update(pos as int, true)
    }
}

/// The combination with bit `pos` cleared; its length stays.
pub open spec fn without_bit(bits: Seq<bool>, pos: nat) -> Seq<bool> {
    if pos < bits.len() {
        bits.update(pos as int, false)
    } else {
        bits
    }
}

/// The combination that holds no key: eight unset bits.
pub fn start_key_comb() -> (r: KeyComb)
    ensures
        comb_bits(r) == zeros(8),
{
    let bytes: [u8; 1] = [0u8];
    let r = bits_from_bytes(bytes.as_slice());
    assert forall|i: int| 0 <= i < 8 implies comb_bits(r)[i] == false by {
        assert(bytes@[i / 8] == 0u8);
        let j = (7 - i % 8) as u8;
        assert((0u8 >> j) & 1u8 != 1u8) by (bit_vector);
    }
    assert(comb_bits(r) =~= zeros(8));
    r
}

/// A copy of `key_comb` with bit `pos` set.
pub fn keycomb_set(key_comb: &KeyComb, pos: u32) -> (r: KeyComb)
    requires
        pos < usize::MAX,
    ensures
        comb_bits(r) == with_bit(comb_bits(*key_comb), pos as nat),
{
    let mut tmp = bits_clone(key_comb);
    let len = bits_len(&tmp);
    if (pos as usize) >= len {
        bits_grow(&mut tmp, pos as usize - len + 1, false);
    }
    bits_set(&mut tmp, pos as usize, true);
    tmp
}

/// A copy of `key_comb` with bit `pos` cleared; a position beyond its length
/// changes nothing.
pub fn keycomb_unset(key_comb: &KeyComb, pos: u32) -> (r: KeyComb)
    ensures
        comb_bits(r) == without_bit(comb_bits(*key_comb), pos as nat),
{
    let mut tmp = bits_clone(key_comb);
    if (pos as usize) < bits_len(&tmp) {
        bits_set(&mut tmp, pos as usize, false);
    }
    tmp
}

/// Whether two combinations hold the same keys, whatever their lengths.
pub fn keycomb_eq(key_comb1: &KeyComb, key_comb2: &KeyComb) -> (r: bool)
    ensures
        r == comb_equal(comb_bits(*key_comb1), comb_bits(*key_comb2)),
{
    let len1 = bits_len(key_comb1);
    let len2 = bits_len(key_comb2);
    if len1 < len2 {
        let mut tmp = bits_clone(key_comb1);
        bits_grow(&mut tmp, len2 - len1, false);
        let r = bits_eq(&tmp, key_comb2);
        proof {
            lemma_equal_by_extension(comb_bits(*key_comb1), comb_bits(*key_comb2));
        }
        r
    } else {
        let mut tmp = bits_clone(key_comb2);
        bits_grow(&mut tmp, len1 - len2, false);
        let r = bits_eq(&tmp, key_comb1);
        proof {
            lemma_equal_by_extension(comb_bits(*key_comb2), comb_bits(*key_comb1));
            lemma_comb_equal_symmetric(comb_bits(*key_comb1), comb_bits(*key_comb2));
        }
        r
    }
}

/// A combination equals a longer one exactly when padding it with unset bits
/// up to the longer one's length gives the same bit sequence.
pub proof fn lemma_equal_by_extension(a: Seq<bool>, b: Seq<bool>)
    requires
        a.len() <= b.len(),
    ensures
        comb_equal(a, b) <==> a + zeros((b.len() - a.len()) as nat) == b,
{
    let ext = a + zeros((b.len() - a.len()) as nat);
    if comb_equal(a, b) {
        assert forall|i: int| 0 <= i < b.len() implies ext[i] == b[i] by {
            assert(bit_at(a, i) == bit_at(b, i));
        }
        assert(ext =~= b);
    }
    if ext == b {
        assert forall|i: int| #[trigger] bit_at(a, i) == bit_at(b, i) by {
            if 0 <= i < b.len() {
                assert(ext[i] == b[i]);
            }
        }
    }
}

/// Equality under zero-extension does not depend on the order of its arguments.
pub proof fn lemma_comb_equal_symmetric(a: Seq<bool>, b: Seq<bool>)
    ensures
        comb_equal(a, b) == comb_equal(b, a),
{
    if comb_equal(a, b) {
        assert forall|i: int| #[trigger] bit_at(b, i) == bit_at(a, i) by {
            assert(bit_at(a, i) == bit_at(b, i));
        }
    }
    if comb_equal(b, a) {
        assert forall|i: int| #[trigger] bit_at(a, i) == bit_at(b, i) by {
            assert(bit_at(b, i) == bit_at(a, i));
        }
    }
}

/// Equality under zero-extension carries over from one pair to the next.
pub proof fn lemma_comb_equal_transitive(a: Seq<bool>, b: Seq<bool>, c: Seq<bool>)
    requires
        comb_equal(a, b),
        comb_equal(b, c),
    ensures
        comb_equal(a, c),
{
    assert forall|i: int| #[trigger] bit_at(a, i) == bit_at(c, i) by {
        assert(bit_at(a, i) == bit_at(b, i));
        assert(bit_at(b, i) == bit_at(c, i));
    }
}

/// A combination represented with a shorter bit sequence equals the same
/// combination padded with unset bits.
pub proof fn lemma_zero_extension_equal(a: Seq<bool>, n: nat)
    ensures
        comb_equal(a, a + zeros(n)),
        comb_equal(a + zeros(n), a),
{
    let b = a + zeros(n);
    assert forall|i: int| #[trigger] bit_at(a, i) == bit_at(b, i) by {
        if 0 <= i < a.len() {
            assert(b[i] == a[i]);
        } else if 0 <= i < b.len() {
            assert(b[i] == zeros(n)[i - a.len()]);
        }
    }
    lemma_comb_equal_symmetric(a, b);
}

/// Setting a bit sets it and leaves the others; clearing a bit clears it and
/// leaves the others.
pub proof fn lemma_bit_after(bits: Seq<bool>, pos: nat, i: int)
    ensures
        bit_at(with_bit(bits, pos), i) == (i == pos || bit_at(bits, i)),
        bit_at(without_bit(bits, pos), i) == (i != pos && bit_at(bits, i)),
{
    if pos >= bits.len() {
        let grown = bits + zeros((pos - bits.len() + 1) as nat);
        if 0 <= i < grown.len() && i != pos {
            if i < bits.len() {
                assert(grown[i] == bits[i]);
            } else {
                assert(grown[i] == zeros((pos - bits.len() + 1) as nat)[i - bits.len()]);
            }
        }
    }
}

/// Setting a bit changes a combination exactly when it lacks the bit.
pub proof fn lemma_set_is_noop(bits: Seq<bool>, pos: nat)
    ensures
        comb_equal(with_bit(bits, pos), bits) == bit_at(bits, pos as int),
{
    if bit_at(bits, pos as int) {
        assert forall|i: int| #[trigger] bit_at(with_bit(bits, pos), i) == bit_at(bits, i) by {
            lemma_bit_after(bits, pos, i);
        }
    } else {
        lemma_bit_after(bits, pos, pos as int);
        if comb_equal(with_bit(bits, pos), bits) {
            assert(bit_at(with_bit(bits, pos), pos as int) == bit_at(bits, pos as int));
        }
    }
}

/// Clearing a bit that was just set gives back a combination that lacked it.
pub proof fn lemma_unset_after_set(bits: Seq<bool>, pos: nat)
    requires
        !bit_at(bits, pos as int),
    ensures
        comb_equal(without_bit(with_bit(bits, pos), pos), bits),
{
    assert forall|i: int| #[trigger] bit_at(without_bit(with_bit(bits, pos), pos), i) == bit_at(
        bits,
        i,
    ) by {
        lemma_bit_after(with_bit(bits, pos), pos, i);
        lemma_bit_after(bits, pos, i);
    }
}

/// Clearing the same bit in two equal combinations leaves them equal.
pub proof fn lemma_unset_both(a: Seq<bool>, b: Seq<bool>, pos: nat)
    requires
        comb_equal(a, b),
    ensures
        comb_equal(without_bit(a, pos), without_bit(b, pos)),
{
    assert forall|i: int| #[trigger] bit_at(without_bit(a, pos), i) == bit_at(without_bit(b, pos), i) by {
        lemma_bit_after(a, pos, i);
        lemma_bit_after(b, pos, i);
        assert(bit_at(a, i) == bit_at(b, i));
    }
}

} // verus!
