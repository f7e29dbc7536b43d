use vstd::prelude::*;

verus! {

/// Bit `k` (0 = most significant) of byte `b`.
pub open spec fn bit_at(b: u8, k: u8) -> bool {
    ((b >> (7 - k) as u8) & 1u8) == 1u8
}

/// Bit `i` of a byte buffer read most-significant-bit first.
pub open spec fn seq_bit(d: Seq<u8>, i: int) -> bool {
    bit_at(d[i / 8], (i % 8) as u8)
}

/// The first `n` bits of a byte buffer.
pub open spec fn bits_of(d: Seq<u8>, n: int) -> Seq<bool> {
    Seq::new(n as nat, |i: int| seq_bit(d, i))
}

/// Bytes needed to hold `n` bits.
pub open spec fn byte_len(n: int) -> int {
    (n + 7) / 8
}

/// A buffer holding `n` bits in exactly `byte_len(n)` bytes with every bit
/// after the `n`-th cleared.
pub open spec fn canonical(d: Seq<u8>, n: int) -> bool {
    &&& d.len() == byte_len(n)
    &&& forall|i: int| n <= i < 8 * d.len() ==> !#[trigger] seq_bit(d, i)
}

pub proof fn lemma_index(m: int, k: int)
    requires
        0 <= k < 8,
    ensures
        (8 * m + k) / 8 == m,
        (8 * m + k) % 8 == k,
{
}

/// Keeping the top `s` bits of a byte clears the rest.
pub proof fn lemma_mask(b: u8, s: u8, k: u8)
    by (bit_vector)
    requires
        1 <= s <= 7,
        k < 8,
    ensures
        bit_at(((b >> (8 - s) as u8) << (8 - s) as u8) as u8, k) == (k < s && bit_at(b, k)),
{
}

/// The top `s` bits of a byte moved down to the low end.
pub proof fn lemma_shift_down(b: u8, s: u8, k: u8)
    by (bit_vector)
    requires
        1 <= s <= 7,
        k < s,
    ensures
        bit_at(b >> (8 - s) as u8, (8 - s + k) as u8) == bit_at(b, k),
{
}

/// One output byte of the sliding 16-bit window.
pub proof fn lemma_window(y: u16, x: u8, s: u8, k: u8)
    by (bit_vector)
    requires
        1 <= s <= 7,
        k < 8,
    ensures
        bit_at((((y << 8u16) | (x as u16)) >> (s as u16)) as u8, k) == if k < s {
            bit_at(y as u8, (k + 8 - s) as u8)
        } else {
            bit_at(x, (k - s) as u8)
        },
        (((y << 8u16) | (x as u16)) as u8) == x,
{
}

/// The last byte of the window: the pending `s` bits on top, zeros below.
pub proof fn lemma_window_tail(y: u16, s: u8, k: u8)
    by (bit_vector)
    requires
        1 <= s <= 7,
        k < 8,
    ensures
        bit_at((y << (8 - s) as u16) as u8, k) == (k < s && bit_at(y as u8, (8 - s + k) as u8)),
{
}

/// Two bytes with the same eight bits are equal.
pub proof fn lemma_byte_ext(a: u8, b: u8)
    by (bit_vector)
    requires
        bit_at(a, 0) == bit_at(b, 0),
        bit_at(a, 1) == bit_at(b, 1),
        bit_at(a, 2) == bit_at(b, 2),
        bit_at(a, 3) == bit_at(b, 3),
        bit_at(a, 4) == bit_at(b, 4),
        bit_at(a, 5) == bit_at(b, 5),
        bit_at(a, 6) == bit_at(b, 6),
        bit_at(a, 7) == bit_at(b, 7),
    ensures
        a == b,
{
}

} // verus!
