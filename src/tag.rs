use vstd::prelude::*;
use crate::byte_vec::ByteVec;
use crate::bits::{byte_len, lemma_mask, bit_at, seq_bit, bits_of, canonical, lemma_index, lemma_byte_ext};

verus! {

/// `p` is the position of the last set bit of `d`.
pub open spec fn is_last_one(d: Seq<u8>, p: int) -> bool {
    &&& 0 <= p < 8 * d.len()
    &&& seq_bit(d, p)
    &&& forall|j: int| p < j < 8 * d.len() ==> !#[trigger] seq_bit(d, j)
}

/// The bit length that the end tag of `d` marks: the position of its last set
/// bit, or 0 when no bit is set.
pub open spec fn tag_len(d: Seq<u8>) -> int {
    if exists|p: int| is_last_one(d, p) {
        choose|p: int| is_last_one(d, p)
    } else {
        0
    }
}

/// `t` holds `b`, then a single set bit, then zeros up to the byte boundary.
pub open spec fn is_tagged(t: Seq<u8>, b: Seq<bool>) -> bool {
    &&& t.len() == b.len() / 8 + 1
    &&& forall|i: int| 0 <= i < b.len() ==> #[trigger] seq_bit(t, i) == b[i]
    &&& seq_bit(t, b.len() as int)
    &&& forall|i: int| b.len() < i < 8 * t.len() ==> !#[trigger] seq_bit(t, i)
}

pub proof fn lemma_tag_len_unique(d: Seq<u8>, p: int)
    requires
        is_last_one(d, p),
    ensures
        tag_len(d) == p,
{
    let q = choose|q: int| is_last_one(d, q);
    assert(is_last_one(d, q));
    if q < p {
        assert(!seq_bit(d, p));
    } else if p < q {
        assert(!seq_bit(d, q));
    }
}

/// A tagged buffer gives back the length of the bits it was made from.
pub proof fn lemma_tagged_len(t: Seq<u8>, b: Seq<bool>)
    requires
        is_tagged(t, b),
    ensures
        tag_len(t) == b.len(),
{
    assert(is_last_one(t, b.len() as int));
    lemma_tag_len_unique(t, b.len() as int);
}

/// Keeps the first `n` bits of `data` and makes it canonical: exactly
/// `byte_len(n)` bytes, every bit after the `n`-th cleared.
pub(crate) fn mask_tail(data: &mut ByteVec, n: usize)
    requires
        old(data)@.len() >= byte_len(n as int),
        n <= 8 * 1024,
    ensures
        canonical(final(data)@, n as int),
        forall|i: int| 0 <= i < n ==> #[trigger] seq_bit(final(data)@, i) == seq_bit(old(data)@, i),
{
    let ghost d0 = data@;
    let shift = n % 8;
    if shift == 0 {
        data.truncate(n / 8);
        assert forall|i: int| 0 <= i < n implies #[trigger] seq_bit(data@, i) == seq_bit(d0, i) by {
            lemma_index(i / 8, i % 8);
        }
    } else {
        data.truncate(1 + n / 8);
        let last = data.pop().unwrap();
        let s = shift as u8;
        let masked = (last >> (8 - s)) << (8 - s);
        data.push(masked);
        assert forall|i: int| 0 <= i < 8 * data@.len() implies #[trigger] seq_bit(data@, i) == (i
            < n && seq_bit(d0, i)) by {
            lemma_index(i / 8, i % 8);
            if i / 8 == n / 8 {
                lemma_mask(last, s, (i % 8) as u8);
            }
        }
    }
}

/// Marks `bits` as the logical end of the data held in `data`: the buffer is
/// cut to the bytes that hold `bits` bits, the bits after them are cleared, a
/// set bit is placed right after the data and the rest of that byte stays
/// clear.
pub fn append_tag(data: &mut ByteVec, bits: usize)
    requires
        8 * old(data)@.len() >= bits,
        bits <= 8 * 1024,
    ensures
        is_tagged(final(data)@, bits_of(old(data)@, bits as int)),
{
    let ghost dorig = data@;
    mask_tail(data, bits);
    let ghost d0 = data@;
    assert(bits_of(d0, bits as int) =~= bits_of(dorig, bits as int));
    let shift = bits % 8;
    if shift == 0 {
        data.push(0x80);
        assert forall|i: int| 0 <= i < 8 * data@.len() implies #[trigger] seq_bit(data@, i) == if i
            < bits {
            seq_bit(d0, i)
        } else {
            i == bits
        } by {
            lemma_index(i / 8, i % 8);
            if i >= bits {
                let k = (i % 8) as u8;
                assert(bit_at(0x80u8, k) == (k == 0)) by (bit_vector)
                    requires
                        k < 8,
                ;
            }
        }
    } else {
        let last = data.pop().unwrap();
        let sh = shift as u8;
        let tagged = last | (0x80u8 >> sh);
        data.push(tagged);
        assert forall|i: int| 0 <= i < 8 * data@.len() implies #[trigger] seq_bit(data@, i) == if i
            < bits {
            seq_bit(d0, i)
        } else {
            i == bits
        } by {
            lemma_index(i / 8, i % 8);
            if i / 8 == bits / 8 {
                let k = (i % 8) as u8;
                assert(bit_at(tagged, k) == (bit_at(last, k) || k == sh)) by (bit_vector)
                    requires
                        tagged == last | (0x80u8 >> sh),
                        k < 8,
                        1 <= sh <= 7,
                ;
                if i > bits {
                    assert(!seq_bit(d0, i));
                }
            }
        }
    }
    assert(bits_of(d0, bits as int).len() == bits);
}

/// The bit length that the end tag of `bitstring` marks; 0 when no bit is set.
pub fn find_tag(bitstring: &[u8]) -> (r: usize)
    requires
        bitstring@.len() <= usize::MAX / 8,
    ensures
        r == tag_len(bitstring@),
        r <= 8 * bitstring@.len(),
        (exists|p: int| is_last_one(bitstring@, p)) || forall|j: int|
            0 <= j < 8 * bitstring@.len() ==> !#[trigger] seq_bit(bitstring@, j),
{
    let ghost d = bitstring@;
    let mut m: usize = bitstring.len();
    while m > 0
        invariant
            m <= d.len() <= usize::MAX / 8,
            d == bitstring@,
            forall|j: int| 8 * m <= j < 8 * d.len() ==> !#[trigger] seq_bit(d, j),
        decreases m,
    {
        let x = bitstring[m - 1];
        if x != 0 {
            let mut k: u8 = 7;
            while !(((x >> (7 - k)) & 1) == 1)
                invariant
                    k < 8,
                    x != 0,
                    forall|j: u8| k < j < 8 ==> !#[trigger] bit_at(x, j),
                decreases k,
            {
                if k == 0 {
                    assert(bit_at(0u8, 0) == false && bit_at(0u8, 1) == false && bit_at(0u8, 2)
                        == false && bit_at(0u8, 3) == false && bit_at(0u8, 4) == false
                        && bit_at(0u8, 5) == false && bit_at(0u8, 6) == false && bit_at(0u8, 7)
                        == false) by (bit_vector);
                    assert(!bit_at(x, 1) && !bit_at(x, 2) && !bit_at(x, 3) && !bit_at(x, 4)
                        && !bit_at(x, 5) && !bit_at(x, 6) && !bit_at(x, 7));
                    proof { lemma_byte_ext(x, 0); }
                }
                k = k - 1;
            }
            let p = 8 * (m - 1) + k as usize;
            assert forall|j: int| p < j < 8 * d.len() implies !#[trigger] seq_bit(d, j) by {
                lemma_index(j / 8, j % 8);
                if j < 8 * m {
                    assert(j / 8 == m - 1);
                    assert(!bit_at(x, (j % 8) as u8));
                }
            }
            proof { lemma_index((m - 1) as int, k as int); }
            assert(is_last_one(d, p as int));
            proof {
                lemma_tag_len_unique(d, p as int);
            }
            return p;
        }
        assert forall|j: int| 8 * (m - 1) <= j < 8 * m implies !#[trigger] seq_bit(d, j) by {
            lemma_index(j / 8, j % 8);
            assert(j / 8 == m - 1);
            let k = (j % 8) as u8;
            assert(!bit_at(0u8, k)) by (bit_vector);
        }
        m = m - 1;
    }
    assert(!exists|p: int| is_last_one(d, p));
    0
}

} // verus!
