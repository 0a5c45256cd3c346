//! Byte strings as bit arrays: bit `p` stands in byte `p / 8`, at bit `p % 8`.

use vstd::prelude::*;

verus! {

/// Whether bit `j` of `b` is set, for `j` below 8.
pub open spec fn has_bit(b: u8, j: u8) -> bool {
    b & (1u8 << j) != 0
}

/// `b` with bit `j` set, for `j` below 8.
pub open spec fn with_bit(b: u8, j: u8) -> u8 {
    b | (1u8 << j)
}

/// Whether bit `p` of `s` is set.
pub open spec fn bit(s: Seq<u8>, p: int) -> bool {
    has_bit(s[p / 8], (p % 8) as u8)
}

/// `s` with bit `p` set.
pub open spec fn set_bit(s: Seq<u8>, p: int) -> Seq<u8> {
    s.update(p / 8, with_bit(s[p / 8], (p % 8) as u8))
}

/// Setting a bit of a byte sets it, leaves the other bits alone, and changes
/// nothing if the bit was set.
pub proof fn lemma_with_bit(b: u8, j: u8, other: u8)
    requires
        j < 8,
        other < 8,
    ensures
        has_bit(with_bit(b, j), j),
        other != j ==> has_bit(with_bit(b, j), other) == has_bit(b, other),
        has_bit(b, other) ==> has_bit(with_bit(b, j), other),
        has_bit(b, j) ==> with_bit(b, j) == b,
{
    assert(j < 8 ==> (b | (1u8 << j)) & (1u8 << j) != 0) by (bit_vector);
    assert(j < 8 && other < 8 && other != j ==> (((b | (1u8 << j)) & (1u8 << other) != 0) == (b & (
    1u8 << other) != 0))) by (bit_vector);
    assert(j < 8 && b & (1u8 << j) != 0 ==> (b | (1u8 << j)) == b) by (bit_vector);
}

/// Setting a bit keeps the length and every byte but the one that holds the bit.
pub proof fn lemma_set_bit_bytes(s: Seq<u8>, p: int)
    requires
        0 <= p < 8 * s.len(),
    ensures
        set_bit(s, p).len() == s.len(),
        forall|i: int| 0 <= i < s.len() && i != p / 8 ==> set_bit(s, p)[i] == s[i],
{
}

/// After bit `p` is set, bit `q` is set exactly if it is `p` or was set before.
pub proof fn lemma_set_bit(s: Seq<u8>, p: int, q: int)
    requires
        0 <= p < 8 * s.len(),
        0 <= q < 8 * s.len(),
    ensures
        bit(set_bit(s, p), q) == (q == p || bit(s, q)),
{
    lemma_with_bit(s[p / 8], (p % 8) as u8, (q % 8) as u8);
}

} // verus!
