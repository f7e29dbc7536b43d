use vstd::prelude::*;
use crate::bits::{bit_at, seq_bit, bits_of, canonical, lemma_index, lemma_shift_down, lemma_window, lemma_window_tail, lemma_byte_ext};
use crate::byte_vec::ByteVec;
use crate::ref_vec::RefVec;
use crate::cell::{Cell, depth_over, levels_over};
use crate::tag::{mask_tail, append_tag, find_tag, is_tagged, tag_len, lemma_tagged_len};
use crate::types::{ExceptionCode, Result, CellType, LevelMask, MAX_DATA_BITS, MAX_REFERENCES_COUNT,
    MAX_SAFE_DEPTH};

verus! {

/// Mutable form of a cell: up to 1023 data bits, kept canonical, and up to
/// four references.
///
/// No `update_cell` is offered: it would hand a caller's closure mutable
/// access to the buffer and the reference list, and Verus accepts no closure
/// over `&mut` internals, so the builder's invariant could not be kept.
/// There is no `==` either: nodes compare by content hash, which this
/// library does not compute.
#[derive(Debug)]
pub struct BuilderData {
    data: ByteVec,
    length_in_bits: usize,
    references: RefVec,
    cell_type: CellType,
    level_mask: LevelMask,
}

/// Bit `i` of the concatenation of the first `l` bits of `a` with the bits of
/// `b`.
pub open spec fn concat_bit(a: Seq<u8>, l: int, b: Seq<u8>, i: int) -> bool {
    if i < l {
        seq_bit(a, i)
    } else {
        seq_bit(b, i - l)
    }
}


/// `n` bits, at most 1023 and at most what `m` bytes hold.
pub open spec fn clamped_len(n: int, m: int) -> int {
    let c = if n < MAX_DATA_BITS { n } else { MAX_DATA_BITS as int };
    if 8 * m < c {
        8 * m
    } else {
        c
    }
}

/// `p` is the length of the longest common prefix of `a` and `b`.
pub open spec fn is_common_prefix(a: Seq<bool>, b: Seq<bool>, p: int) -> bool {
    &&& 0 <= p <= a.len()
    &&& p <= b.len()
    &&& a.subrange(0, p) == b.subrange(0, p)
    &&& (p == a.len() || p == b.len() || a[p] != b[p])
}

/// Length of the longest common prefix of `a` and `b`.
pub open spec fn common_prefix_len(a: Seq<bool>, b: Seq<bool>) -> int {
    choose|p: int| is_common_prefix(a, b, p)
}

/// The bit of `a` right after its first `p` bits, as 0 or 1; `None` when
/// `a` has no more bits.
pub open spec fn bit_after(a: Seq<bool>, p: int) -> Option<usize> {
    if 0 <= p < a.len() {
        Some(if a[p] { 1usize } else { 0usize })
    } else {
        None
    }
}

/// The level mask that finalizing gives a node: for an ordinary node the
/// union of its children's masks, for any other subtype the mask set on it.
pub open spec fn final_level(b: BuilderData) -> u8 {
    if b.kind() == CellType::Ordinary {
        levels_over(b.refs())
    } else {
        b.levels().value()
    }
}

/// `c` is what finalizing `b` produces.
pub open spec fn finalized(b: BuilderData, c: Cell) -> bool {
    &&& c.bits() == b.bits()
    &&& is_tagged(c.tagged_data(), b.bits())
    &&& c.refs() == b.refs()
    &&& c.kind() == b.kind()
    &&& c.level_mask_spec().value() == final_level(b)
    &&& c.depth() == depth_over(b.refs())
}

/// `b` is a fresh builder reopened from `c`.
pub open spec fn reopened(c: Cell, b: BuilderData) -> bool {
    &&& b.wf()
    &&& b.bits() == c.bits()
    &&& b.refs() == c.refs()
    &&& b.kind() == c.kind()
    &&& b.levels() == c.level_mask_spec()
}

proof fn lemma_common_prefix_unique(a: Seq<bool>, b: Seq<bool>, p: int)
    requires
        is_common_prefix(a, b, p),
    ensures
        common_prefix_len(a, b) == p,
{
    let q = common_prefix_len(a, b);
    assert(is_common_prefix(a, b, q));
    if q < p {
        assert(a.subrange(0, p)[q] == b.subrange(0, p)[q]);
    } else if p < q {
        assert(a.subrange(0, q)[p] == b.subrange(0, q)[p]);
    }
}

/// Appends every byte of `s` to `data`.
fn extend_from_slice(data: &mut ByteVec, s: &[u8])
    ensures
        final(data)@ == old(data)@ + s@,
{
    let mut i: usize = 0;
    while i < s.len()
        invariant
            i <= s@.len(),
            data@ == old(data)@ + s@.subrange(0, i as int),
        decreases s@.len() - i,
    {
        data.push(s[i]);
        i = i + 1;
        assert(data@ =~= old(data)@ + s@.subrange(0, i as int));
    }
    assert(s@.subrange(0, s@.len() as int) =~= s@);
}

/// Bits of an aligned concatenation: `a` holds `8 * q` bits in `q` bytes
/// followed by the bytes of `b`.
proof fn lemma_aligned_concat(a: Seq<u8>, q: int, b: Seq<u8>, i: int)
    requires
        0 <= q <= a.len(),
        0 <= i < 8 * (q + b.len()),
    ensures
        seq_bit(a.subrange(0, q) + b, i) == concat_bit(a, 8 * q, b, i),
{
    lemma_index(i / 8, i % 8);
    if i >= 8 * q {
        lemma_index(i / 8 - q, i % 8);
    }
}

/// Bits made of the first `l` bits of `a` followed by the first `n` of `b`.
proof fn lemma_concat_bits(d: Seq<u8>, a: Seq<u8>, l: int, b: Seq<u8>, n: int)
    requires
        0 <= l,
        0 <= n,
        forall|i: int| 0 <= i < l + n ==> #[trigger] seq_bit(d, i) == concat_bit(a, l, b, i),
    ensures
        bits_of(d, l + n) == bits_of(a, l) + bits_of(b, n),
{
    assert forall|i: int| 0 <= i < l + n implies #[trigger] bits_of(d, l + n)[i] == (bits_of(a, l)
        + bits_of(b, n))[i] by {
        assert(seq_bit(d, i) == concat_bit(a, l, b, i));
    }
    assert(bits_of(d, l + n) =~= bits_of(a, l) + bits_of(b, n));
}

impl BuilderData {
    /// What every builder satisfies.
    pub closed spec fn wf(&self) -> bool {
        &&& self.length_in_bits <= MAX_DATA_BITS
        &&& canonical(self.data@, self.length_in_bits as int)
        &&& self.references@.len() <= MAX_REFERENCES_COUNT
    }

    /// The data bits, in order.
    pub closed spec fn bits(&self) -> Seq<bool> {
        bits_of(self.data@, self.length_in_bits as int)
    }

    /// The byte buffer that holds the bits.
    pub closed spec fn bytes(&self) -> Seq<u8> {
        self.data@
    }

    pub closed spec fn refs(&self) -> Seq<Cell> {
        self.references@
    }

    pub closed spec fn kind(&self) -> CellType {
        self.cell_type
    }

    pub closed spec fn levels(&self) -> LevelMask {
        self.level_mask
    }

    /// `self` and `other` hold the same bits, references, subtype and mask.
    pub open spec fn same_content(&self, other: &BuilderData) -> bool {
        &&& self.bits() == other.bits()
        &&& self.refs() == other.refs()
        &&& self.kind() == other.kind()
        &&& self.levels() == other.levels()
    }

    /// What well-formedness gives a caller: the capacities hold, and the
    /// byte buffer is canonical and holds exactly the builder's bits.
    pub proof fn lemma_wf(&self)
        requires
            self.wf(),
        ensures
            self.bits().len() <= MAX_DATA_BITS,
            self.refs().len() <= MAX_REFERENCES_COUNT,
            canonical(self.bytes(), self.bits().len() as int),
            bits_of(self.bytes(), self.bits().len() as int) == self.bits(),
            8 * self.bytes().len() <= MAX_DATA_BITS + 8,
    {
    }

    /// A well-formed ordinary builder holding `bits` and nothing else.
    pub open spec fn is_fresh(&self, bits: Seq<bool>) -> bool {
        &&& self.wf()
        &&& self.bits() == bits
        &&& self.refs() == Seq::<Cell>::empty()
        &&& self.kind() == CellType::Ordinary
        &&& self.levels().value() == 0
    }

    /// An empty ordinary builder.
    pub fn new() -> (r: BuilderData)
        ensures
            r.is_fresh(Seq::<bool>::empty()),
    {
        let r = BuilderData {
            data: ByteVec::new(),
            length_in_bits: 0,
            references: RefVec::new(),
            cell_type: CellType::Ordinary,
            level_mask: LevelMask::with_mask(0),
        };
        assert(r.bits() =~= Seq::<bool>::empty());
        r
    }

    /// A builder holding the first `length_in_bits` bits of `data`. Fails with
    /// `FatalError` when `data` holds fewer bits, else with `CellOverflow`
    /// above 1023 bits.
    pub fn with_raw(data: ByteVec, length_in_bits: usize) -> (r: Result<BuilderData>)
        ensures
            8 * data@.len() < length_in_bits ==> r == Err::<BuilderData, ExceptionCode>(
                ExceptionCode::FatalError,
            ),
            8 * data@.len() >= length_in_bits > MAX_DATA_BITS ==> r == Err::<
                BuilderData,
                ExceptionCode,
            >(ExceptionCode::CellOverflow),
            8 * data@.len() >= length_in_bits && length_in_bits <= MAX_DATA_BITS ==> r is Ok,
            r matches Ok(b) ==> b.is_fresh(bits_of(data@, length_in_bits as int)),
    {
        let mut data = data;
        if length_in_bits / 8 + (if length_in_bits % 8 == 0 { 0 } else { 1 }) > data.len() {
            return Err(ExceptionCode::FatalError);
        } else if length_in_bits > MAX_DATA_BITS {
            return Err(ExceptionCode::CellOverflow);
        }
        let ghost d0 = data@;
        mask_tail(&mut data, length_in_bits);
        let b = BuilderData {
            data,
            length_in_bits,
            references: RefVec::new(),
            cell_type: CellType::Ordinary,
            level_mask: LevelMask::with_mask(0),
        };
        assert(b.bits() =~= bits_of(d0, length_in_bits as int));
        Ok(b)
    }

    /// `self` is `old` with `tail` appended to its bits, all else kept.
    pub open spec fn appended(&self, old: &BuilderData, tail: Seq<bool>) -> bool {
        &&& self.wf()
        &&& self.bits() == old.bits() + tail
        &&& self.refs() == old.refs()
        &&& self.kind() == old.kind()
        &&& self.levels() == old.levels()
    }

    /// Appends `bits` bits of `slice` (bits read most significant first).
    /// Fails with `FatalError` when `slice` holds fewer bits, else with
    /// `CellOverflow` when the builder would exceed 1023 bits; on failure the
    /// builder is left as it was.
    pub fn append_raw(&mut self, slice: &[u8], bits: usize) -> (r: Result<()>)
        requires
            old(self).wf(),
        ensures
            8 * slice@.len() < bits ==> r == Err::<(), ExceptionCode>(ExceptionCode::FatalError),
            8 * slice@.len() >= bits && old(self).bits().len() + bits > MAX_DATA_BITS ==> r == Err::<
                (),
                ExceptionCode,
            >(ExceptionCode::CellOverflow),
            8 * slice@.len() >= bits && old(self).bits().len() + bits <= MAX_DATA_BITS ==> r is Ok,
            r is Err ==> *final(self) == *old(self),
            r is Ok ==> final(self).appended(old(self), bits_of(slice@, bits as int)),
    {
        if bits / 8 + (if bits % 8 == 0 { 0 } else { 1 }) > slice.len() {
            return Err(ExceptionCode::FatalError);
        } else if bits > MAX_DATA_BITS - self.length_in_bits {
            return Err(ExceptionCode::CellOverflow);
        } else if bits != 0 {
            if self.length_in_bits % 8 == 0 {
                if bits % 8 == 0 {
                    self.append_without_shifting(slice, bits);
                } else {
                    self.append_with_slice_shifting(slice, bits);
                }
            } else {
                self.append_with_double_shifting(slice, bits);
            }
        } else {
            assert(bits_of(slice@, 0) =~= Seq::<bool>::empty());
            assert(self.bits() + bits_of(slice@, 0) =~= self.bits());
        }
        Ok(())
    }

    fn append_without_shifting(&mut self, slice: &[u8], bits: usize)
        requires
            old(self).wf(),
            bits % 8 == 0,
            old(self).length_in_bits % 8 == 0,
            old(self).length_in_bits + bits <= MAX_DATA_BITS,
            8 * slice@.len() >= bits,
        ensures
            final(self).appended(old(self), bits_of(slice@, bits as int)),
    {
        let ghost d0 = self.data@;
        let ghost l = self.length_in_bits as int;
        self.data.truncate(self.length_in_bits / 8);
        extend_from_slice(&mut self.data, slice);
        self.length_in_bits = self.length_in_bits + bits;
        let ghost d1 = self.data@;
        self.data.truncate(self.length_in_bits / 8);
        assert forall|i: int| 0 <= i < self.length_in_bits implies #[trigger] seq_bit(self.data@, i)
            == concat_bit(d0, l, slice@, i) by {
            lemma_index(i / 8, i % 8);
            lemma_aligned_concat(d0, l / 8, slice@, i);
        }
        proof {
            lemma_concat_bits(self.data@, d0, l, slice@, bits as int);
        }
    }

    fn append_with_slice_shifting(&mut self, slice: &[u8], bits: usize)
        requires
            old(self).wf(),
            bits % 8 != 0,
            old(self).length_in_bits % 8 == 0,
            old(self).length_in_bits + bits <= MAX_DATA_BITS,
            8 * slice@.len() >= bits,
        ensures
            final(self).appended(old(self), bits_of(slice@, bits as int)),
    {
        let ghost d0 = self.data@;
        let ghost l = self.length_in_bits as int;
        self.data.truncate(self.length_in_bits / 8);
        extend_from_slice(&mut self.data, slice);
        self.length_in_bits = self.length_in_bits + bits;
        let ghost d1 = self.data@;
        assert forall|i: int| 0 <= i < self.length_in_bits implies #[trigger] seq_bit(d1, i)
            == concat_bit(d0, l, slice@, i) by {
            lemma_aligned_concat(d0, l / 8, slice@, i);
        }
        mask_tail(&mut self.data, self.length_in_bits);
        proof {
            lemma_concat_bits(self.data@, d0, l, slice@, bits as int);
        }
    }

    fn append_with_double_shifting(&mut self, slice: &[u8], bits: usize)
        requires
            old(self).wf(),
            old(self).length_in_bits % 8 != 0,
            old(self).length_in_bits + bits <= MAX_DATA_BITS,
            8 * slice@.len() >= bits,
        ensures
            final(self).appended(old(self), bits_of(slice@, bits as int)),
    {
        let ghost d0 = self.data@;
        let ghost l = self.length_in_bits as int;
        let ghost q = l / 8;
        let self_shift = (self.length_in_bits % 8) as u8;
        let ghost s = self_shift;
        self.data.truncate(1 + self.length_in_bits / 8);
        self.length_in_bits = self.length_in_bits + bits;
        let last = self.data.pop().unwrap();
        let last_bits = last >> (8 - self_shift);
        let mut y: u16 = last_bits as u16;
        assert(y as u8 == last_bits) by (bit_vector)
            requires
                y == last_bits as u16,
        ;
        assert forall|k: u8| k < s implies #[trigger] bit_at(y as u8, (8 - s + k) as u8)
            == concat_bit(d0, l, slice@, 8 * q + k) by {
            lemma_shift_down(last, s, k);
            lemma_index(q, k as int);
        }
        assert forall|t: int| 0 <= t < 8 * q implies #[trigger] seq_bit(self.data@, t) == concat_bit(
            d0,
            l,
            slice@,
            t,
        ) by {
            lemma_index(t / 8, t % 8);
        }
        let mut j: usize = 0;
        while j < slice.len()
            invariant
                j <= slice@.len(),
                1 <= s <= 7,
                s == self_shift,
                l == 8 * q + s,
                self.data@.len() == q + j,
                forall|t: int| 0 <= t < 8 * (q + j) ==> #[trigger] seq_bit(self.data@, t) == concat_bit(
                    d0,
                    l,
                    slice@,
                    t,
                ),
                forall|k: u8| k < s ==> #[trigger] bit_at(y as u8, (8 - s + k) as u8) == concat_bit(
                    d0,
                    l,
                    slice@,
                    8 * (q + j) + k,
                ),
                self.length_in_bits == l + bits,
                self.references == old(self).references,
                self.cell_type == old(self).cell_type,
                self.level_mask == old(self).level_mask,
            decreases slice@.len() - j,
        {
            let x = slice[j];
            let ghost y0 = y;
            let ghost dprev = self.data@;
            y = (y << 8) | (x as u16);
            let out = (y >> self_shift) as u8;
            self.data.push(out);
            assert forall|t: int| 0 <= t < 8 * (q + j + 1) implies #[trigger] seq_bit(self.data@, t)
                == concat_bit(d0, l, slice@, t) by {
                lemma_index(t / 8, t % 8);
                if t >= 8 * (q + j) {
                    let k = (t - 8 * (q + j)) as u8;
                    lemma_window(y0, x, s, k);
                    assert(t / 8 == q + j);
                    if k >= s {
                        lemma_index(j as int, (k - s) as int);
                    } else {
                        assert(bit_at(y0 as u8, (8 - s + k) as u8) == concat_bit(d0, l, slice@, 8 * (q
                            + j) + k));
                    }
                } else {
                    assert(seq_bit(dprev, t) == concat_bit(d0, l, slice@, t));
                }
            }
            assert forall|k: u8| k < s implies #[trigger] bit_at(y as u8, (8 - s + k) as u8)
                == concat_bit(d0, l, slice@, 8 * (q + j + 1) + k) by {
                lemma_window(y0, x, s, 0);
                lemma_index(j as int, (8 - s + k) as int);
            }
            j = j + 1;
        }
        let ghost dl = self.data@;
        let ghost yl = y;
        self.data.push((y << (8 - self_shift)) as u8);
        assert forall|t: int| 0 <= t < self.length_in_bits implies #[trigger] seq_bit(self.data@, t)
            == concat_bit(d0, l, slice@, t) by {
            lemma_index(t / 8, t % 8);
            let m = slice@.len() as int;
            if t >= 8 * (q + m) {
                let k = (t - 8 * (q + m)) as u8;
                lemma_window_tail(yl, s, k);
                assert(t / 8 == q + m);
            } else {
                assert(seq_bit(dl, t) == concat_bit(d0, l, slice@, t));
            }
        }
        mask_tail(&mut self.data, self.length_in_bits);
        proof {
            lemma_concat_bits(self.data@, d0, l, slice@, bits as int);
        }
    }

    /// Puts `bits` bits of `slice` in front of the builder's bits. Zero bits
    /// change nothing. Fails with `FatalError` when `slice` holds fewer bits,
    /// else with `CellOverflow` when the result would exceed 1023 bits; on
    /// failure the builder is left as it was.
    pub fn prepend_raw(&mut self, slice: &[u8], bits: usize) -> (r: Result<()>)
        requires
            old(self).wf(),
        ensures
            bits == 0 ==> r is Ok && *final(self) == *old(self),
            bits != 0 && 8 * slice@.len() < bits ==> r == Err::<(), ExceptionCode>(
                ExceptionCode::FatalError,
            ),
            bits != 0 && 8 * slice@.len() >= bits && old(self).bits().len() + bits > MAX_DATA_BITS
                ==> r == Err::<(), ExceptionCode>(ExceptionCode::CellOverflow),
            8 * slice@.len() >= bits && old(self).bits().len() + bits <= MAX_DATA_BITS ==> r is Ok,
            r is Err ==> *final(self) == *old(self),
            r is Ok ==> {
                &&& final(self).wf()
                &&& final(self).bits() == bits_of(slice@, bits as int) + old(self).bits()
                &&& final(self).refs() == old(self).refs()
                &&& final(self).kind() == old(self).kind()
                &&& final(self).levels() == old(self).levels()
            },
    {
        if bits != 0 {
            let mut buffer = match BuilderData::with_raw(ByteVec::from_slice(slice), bits) {
                Ok(b) => b,
                Err(e) => {
                    return Err(e);
                },
            };
            let ghost front = buffer;
            match buffer.append_raw(self.data.as_slice(), self.length_in_bits) {
                Ok(()) => {},
                Err(e) => {
                    return Err(e);
                },
            }
            assert(bits_of(self.data@, self.length_in_bits as int) == self.bits());
            self.length_in_bits = buffer.length_in_bits;
            self.data = buffer.data;
        }
        Ok(())
    }

    /// Keeps the first `length_in_bits` bits; fails with `FatalError` when the
    /// builder holds fewer. The buffer stays canonical: the dropped bits of
    /// the last byte are cleared.
    pub fn trunc(&mut self, length_in_bits: usize) -> (r: Result<()>)
        requires
            old(self).wf(),
        ensures
            length_in_bits > old(self).bits().len() <==> r is Err,
            r is Err ==> r == Err::<(), ExceptionCode>(ExceptionCode::FatalError),
            r is Err ==> *final(self) == *old(self),
            r is Ok ==> {
                &&& final(self).wf()
                &&& final(self).bits() == old(self).bits().subrange(0, length_in_bits as int)
                &&& final(self).refs() == old(self).refs()
                &&& final(self).kind() == old(self).kind()
                &&& final(self).levels() == old(self).levels()
            },
    {
        if self.length_in_bits < length_in_bits {
            Err(ExceptionCode::FatalError)
        } else {
            let ghost before = self.bits();
            self.length_in_bits = length_in_bits;
            mask_tail(&mut self.data, length_in_bits);
            assert(self.bits() =~= before.subrange(0, length_in_bits as int));
            Ok(())
        }
    }

    /// Adds `cell` as the last reference; `CellOverflow` when four are held.
    pub fn checked_append_reference(&mut self, cell: Cell) -> (r: Result<()>)
        requires
            old(self).wf(),
        ensures
            old(self).refs().len() < MAX_REFERENCES_COUNT <==> r is Ok,
            r is Err ==> r == Err::<(), ExceptionCode>(ExceptionCode::CellOverflow),
            r is Err ==> *final(self) == *old(self),
            r is Ok ==> {
                &&& final(self).wf()
                &&& final(self).refs() == old(self).refs().push(cell)
                &&& final(self).bits() == old(self).bits()
                &&& final(self).kind() == old(self).kind()
                &&& final(self).levels() == old(self).levels()
            },
    {
        if self.references.len() >= MAX_REFERENCES_COUNT {
            Err(ExceptionCode::CellOverflow)
        } else {
            self.references.push(cell);
            Ok(())
        }
    }

    /// Adds `cell` as the first reference; `CellOverflow` when four are held.
    pub fn checked_prepend_reference(&mut self, cell: Cell) -> (r: Result<()>)
        requires
            old(self).wf(),
        ensures
            old(self).refs().len() < MAX_REFERENCES_COUNT <==> r is Ok,
            r is Err ==> r == Err::<(), ExceptionCode>(ExceptionCode::CellOverflow),
            r is Err ==> *final(self) == *old(self),
            r is Ok ==> {
                &&& final(self).wf()
                &&& final(self).refs() == seq![cell] + old(self).refs()
                &&& final(self).bits() == old(self).bits()
                &&& final(self).kind() == old(self).kind()
                &&& final(self).levels() == old(self).levels()
            },
    {
        if self.references.len() >= MAX_REFERENCES_COUNT {
            Err(ExceptionCode::CellOverflow)
        } else {
            self.references.insert(0, cell);
            assert(self.references@ =~= seq![cell] + old(self).references@);
            Ok(())
        }
    }

    /// Puts `child` in slot `index`; an index out of range changes nothing.
    pub fn replace_reference_cell(&mut self, index: usize, child: Cell)
        requires
            old(self).wf(),
        ensures
            final(self).wf(),
            final(self).refs() == if index < old(self).refs().len() {
                old(self).refs().update(index as int, child)
            } else {
                old(self).refs()
            },
            final(self).bits() == old(self).bits(),
            final(self).kind() == old(self).kind(),
            final(self).levels() == old(self).levels(),
    {
        if index < self.references.len() {
            self.references.set(index, child);
        }
    }

    /// Replaces the data with the first `min(length_in_bits, 1023, 8 *
    /// data.len())` bits of `data`, kept canonical.
    pub fn replace_data(&mut self, data: ByteVec, length_in_bits: usize)
        requires
            old(self).wf(),
        ensures
            final(self).wf(),
            final(self).bits() == bits_of(data@, clamped_len(length_in_bits as int, data@.len() as int)),
            final(self).refs() == old(self).refs(),
            final(self).kind() == old(self).kind(),
            final(self).levels() == old(self).levels(),
    {
        let mut data = data;
        let mut n = if length_in_bits < MAX_DATA_BITS { length_in_bits } else { MAX_DATA_BITS };
        if data.len() < 128 && data.len() * 8 < n {
            n = data.len() * 8;
        }
        let ghost d0 = data@;
        mask_tail(&mut data, n);
        self.length_in_bits = n;
        self.data = data;
        assert(self.bits() =~= bits_of(d0, n as int));
    }

    /// There is room for `x`'s bits and references.
    pub fn can_append(&self, x: &BuilderData) -> (r: bool)
        requires
            self.wf(),
            x.wf(),
        ensures
            r == (self.bits().len() + x.bits().len() <= MAX_DATA_BITS && self.refs().len()
                + x.refs().len() <= MAX_REFERENCES_COUNT),
    {
        MAX_DATA_BITS - self.length_in_bits >= x.length_in_bits && MAX_REFERENCES_COUNT
            - self.references.len() >= x.references.len()
    }

    pub fn is_empty(&self) -> (r: bool)
        ensures
            r == (self.bits().len() == 0 && self.refs().len() == 0),
    {
        self.length_in_bits == 0 && self.references.len() == 0
    }

    pub fn length_in_bits(&self) -> (r: usize)
        ensures
            r == self.bits().len(),
    {
        self.length_in_bits
    }

    /// The canonical byte buffer.
    pub fn data(&self) -> (r: &[u8])
        ensures
            r@ == self.bytes(),
            self.wf() ==> canonical(r@, self.bits().len() as int) && bits_of(
                r@,
                self.bits().len() as int,
            ) == self.bits(),
    {
        self.data.as_slice()
    }

    pub fn references(&self) -> (r: &[Cell])
        ensures
            r@ == self.refs(),
    {
        self.references.as_slice()
    }

    pub fn level(&self) -> (r: u8)
        ensures
            r == (self.levels().value() & 1) + ((self.levels().value() >> 1u8) & 1) + ((
            self.levels().value() >> 2u8) & 1),
    {
        self.level_mask.level()
    }

    pub fn level_mask(&self) -> (r: LevelMask)
        ensures
            r == self.levels(),
    {
        self.level_mask
    }

    /// Sets the references, subtype and level mask together.
    pub(crate) fn replace_parts(&mut self, references: RefVec, cell_type: CellType, level_mask: LevelMask)
        requires
            old(self).wf(),
            references@.len() <= MAX_REFERENCES_COUNT,
        ensures
            final(self).wf(),
            final(self).bits() == old(self).bits(),
            final(self).refs() == references@,
            final(self).kind() == cell_type,
            final(self).levels() == level_mask,
    {
        self.references = references;
        self.cell_type = cell_type;
        self.level_mask = level_mask;
    }

    /// Mutable access to the level mask.
    pub fn level_mask_mut(&mut self) -> (r: &mut LevelMask)
        ensures
            *r == old(self).levels(),
            final(self).levels() == *final(r),
            final(self).bits() == old(self).bits(),
            final(self).bytes() == old(self).bytes(),
            final(self).refs() == old(self).refs(),
            final(self).kind() == old(self).kind(),
            old(self).wf() ==> final(self).wf(),
    {
        &mut self.level_mask
    }

    pub fn set_type(&mut self, cell_type: CellType)
        requires
            old(self).wf(),
        ensures
            final(self).wf(),
            final(self).bits() == old(self).bits(),
            final(self).bytes() == old(self).bytes(),
            final(self).refs() == old(self).refs(),
            final(self).kind() == cell_type,
            final(self).levels() == old(self).levels(),
    {
        self.cell_type = cell_type;
    }

    pub fn set_level_mask(&mut self, mask: LevelMask)
        requires
            old(self).wf(),
        ensures
            final(self).wf(),
            final(self).bits() == old(self).bits(),
            final(self).bytes() == old(self).bytes(),
            final(self).refs() == old(self).refs(),
            final(self).kind() == old(self).kind(),
            final(self).levels() == mask,
    {
        self.level_mask = mask;
    }

    /// Reads bit `i` of the data.
    fn get_bit(&self, i: usize) -> (r: bool)
        requires
            self.wf(),
            i < self.bits().len(),
        ensures
            r == self.bits()[i as int],
    {
        let b = self.data.get(i / 8);
        let k = (i % 8) as u8;
        (b >> (7 - k)) & 1 == 1
    }

    /// Finalizes into a node: an ordinary node takes the union of its
    /// children's level masks, the end tag is appended, and the node is built
    /// with depth ceiling `max_depth`. Fails with `FatalError` when the tree
    /// would be deeper.
    pub fn finalize(self, max_depth: u16) -> (r: Result<Cell>)
        requires
            self.wf(),
        ensures
            depth_over(self.refs()) <= max_depth <==> r is Ok,
            r is Err ==> r == Err::<Cell, ExceptionCode>(ExceptionCode::FatalError),
            r matches Ok(c) ==> finalized(self, c),
    {
        let mut b = self;
        if b.cell_type == CellType::Ordinary {
            let mut m = LevelMask::with_mask(0);
            let mut i: usize = 0;
            while i < b.references.len()
                invariant
                    i <= b.references@.len(),
                    m.value() == levels_over(b.references@.subrange(0, i as int)),
                decreases b.references@.len() - i,
            {
                let lm = b.references.get(i).level_mask();
                assert(b.references@.subrange(0, i + 1).drop_last() =~= b.references@.subrange(
                    0,
                    i as int,
                ));
                m = m.union(&lm);
                i = i + 1;
            }
            assert(b.references@.subrange(0, b.references@.len() as int) =~= b.references@);
            b.level_mask = m;
        }
        let ghost bits = b.bits();
        append_tag(&mut b.data, b.length_in_bits);
        let ghost t = b.data@;
        proof {
            lemma_tagged_len(t, bits);
            let n = bits.len() as int;
            lemma_index(n / 8, n % 8);
            let k = (n % 8) as u8;
            assert(!bit_at(0u8, k)) by (bit_vector)
                requires
                    k < 8,
            ;
            assert(seq_bit(t, n));
        }
        let mask = b.level_mask.mask();
        let r = Cell::with_max_depth(b.references, b.data.as_slice(), b.cell_type, mask, max_depth);
        proof {
            if r is Ok {
                assert(r->Ok_0.bits() =~= bits);
            }
        }
        r
    }

    /// Finalizes with the default depth ceiling.
    pub fn into_cell(self) -> (r: Result<Cell>)
        requires
            self.wf(),
        ensures
            depth_over(self.refs()) <= MAX_SAFE_DEPTH <==> r is Ok,
            r is Err ==> r == Err::<Cell, ExceptionCode>(ExceptionCode::FatalError),
            r matches Ok(c) ==> finalized(self, c),
    {
        self.finalize(MAX_SAFE_DEPTH)
    }

    /// A builder holding a node's bits, references (shared handles), subtype
    /// and level mask.
    pub fn from_cell(cell: &Cell) -> (r: BuilderData)
        ensures
            reopened(*cell, r),
    {
        let n = cell.bit_length();
        let d = cell.data();
        let mut b = match BuilderData::with_raw(ByteVec::from_slice(d), n) {
            Ok(b) => b,
            Err(_) => {
                proof {
                    assert(false);
                }
                BuilderData::new()
            },
        };
        assert(b.bits() =~= cell.bits());
        b.references = cell.clone_references();
        b.cell_type = cell.cell_type();
        b.level_mask = cell.level_mask();
        b
    }

    /// A builder holding the bits that the end tag of `data` marks; no tag
    /// gives an empty builder. Fails with `CellOverflow` when the tag marks
    /// more than 1023 bits.
    pub fn with_bitstring(data: ByteVec) -> (r: Result<BuilderData>)
        requires
            data@.len() <= usize::MAX / 8,
        ensures
            tag_len(data@) > MAX_DATA_BITS ==> r == Err::<BuilderData, ExceptionCode>(
                ExceptionCode::CellOverflow,
            ),
            tag_len(data@) <= MAX_DATA_BITS ==> r is Ok,
            r matches Ok(b) ==> b.is_fresh(bits_of(data@, tag_len(data@))),
    {
        let length_in_bits = find_tag(data.as_slice());
        if length_in_bits == 0 {
            let b = BuilderData::new();
            assert(bits_of(data@, 0) =~= Seq::<bool>::empty());
            Ok(b)
        } else if length_in_bits / 8 + (if length_in_bits % 8 == 0 { 0 } else { 1 }) > data.len() {
            Err(ExceptionCode::FatalError)
        } else if length_in_bits > MAX_DATA_BITS {
            Err(ExceptionCode::CellOverflow)
        } else {
            BuilderData::with_raw(data, length_in_bits)
        }
    }

    /// `with_raw`, then each of `refs` appended as a reference in order;
    /// `CellOverflow` when there are more than four.
    pub fn with_raw_and_refs(data: ByteVec, length_in_bits: usize, refs: Vec<Cell>) -> (r: Result<
        BuilderData,
    >)
        ensures
            8 * data@.len() < length_in_bits ==> r == Err::<BuilderData, ExceptionCode>(
                ExceptionCode::FatalError,
            ),
            8 * data@.len() >= length_in_bits > MAX_DATA_BITS ==> r == Err::<
                BuilderData,
                ExceptionCode,
            >(ExceptionCode::CellOverflow),
            8 * data@.len() >= length_in_bits && length_in_bits <= MAX_DATA_BITS && refs@.len()
                > MAX_REFERENCES_COUNT ==> r == Err::<BuilderData, ExceptionCode>(
                ExceptionCode::CellOverflow,
            ),
            8 * data@.len() >= length_in_bits && length_in_bits <= MAX_DATA_BITS && refs@.len()
                <= MAX_REFERENCES_COUNT ==> r is Ok,
            r matches Ok(b) ==> {
                &&& b.wf()
                &&& b.bits() == bits_of(data@, length_in_bits as int)
                &&& b.refs() == refs@
                &&& b.kind() == CellType::Ordinary
                &&& b.levels().value() == 0
            },
    {
        let ghost d = data@;
        let mut builder = match BuilderData::with_raw(data, length_in_bits) {
            Ok(b) => b,
            Err(e) => {
                return Err(e);
            },
        };
        let mut i: usize = 0;
        while i < refs.len()
            invariant
                i <= refs@.len(),
                i <= MAX_REFERENCES_COUNT,
                8 * d.len() >= length_in_bits,
                length_in_bits <= MAX_DATA_BITS,
                d == data@,
                builder.wf(),
                builder.bits() == bits_of(d, length_in_bits as int),
                builder.refs() == refs@.subrange(0, i as int),
                builder.kind() == CellType::Ordinary,
                builder.levels().value() == 0,
            decreases refs@.len() - i,
        {
            if i == MAX_REFERENCES_COUNT {
                return Err(ExceptionCode::CellOverflow);
            }
            match builder.checked_append_reference(refs[i].clone()) {
                Ok(()) => {},
                Err(e) => {
                    return Err(e);
                },
            }
            assert(builder.refs() =~= refs@.subrange(0, i + 1));
            i = i + 1;
        }
        assert(refs@.subrange(0, refs@.len() as int) =~= refs@);
        Ok(builder)
    }

    /// Compares the data bits of two builders: for each side, the bit right
    /// after their longest common prefix (0 or 1), or `None` when that side
    /// has no more bits. Identical builders give `(None, None)`.
    pub fn compare_data(&self, other: &Self) -> (r: Result<(Option<usize>, Option<usize>)>)
        requires
            self.wf(),
            other.wf(),
        ensures
            r == Ok::<(Option<usize>, Option<usize>), ExceptionCode>(
                (
                    bit_after(self.bits(), common_prefix_len(self.bits(), other.bits())),
                    bit_after(other.bits(), common_prefix_len(self.bits(), other.bits())),
                ),
            ),
    {
        let ghost a = self.bits();
        let ghost b = other.bits();
        let la = self.length_in_bits;
        let lb = other.length_in_bits;
        let mut p: usize = 0;
        while p < la && p < lb && self.get_bit(p) == other.get_bit(p)
            invariant
                p <= la == a.len(),
                p <= lb == b.len(),
                a == self.bits(),
                b == other.bits(),
                self.wf(),
                other.wf(),
                a.subrange(0, p as int) == b.subrange(0, p as int),
            decreases la - p,
        {
            assert(a.subrange(0, p + 1) =~= a.subrange(0, p as int).push(a[p as int]));
            assert(b.subrange(0, p + 1) =~= b.subrange(0, p as int).push(b[p as int]));
            p = p + 1;
        }
        proof {
            lemma_common_prefix_unique(a, b, p as int);
        }
        let x = if p < la {
            Some(if self.get_bit(p) { 1usize } else { 0usize })
        } else {
            None
        };
        let y = if p < lb {
            Some(if other.get_bit(p) { 1usize } else { 0usize })
        } else {
            None
        };
        Ok((x, y))
    }

    /// Copies the data, its bit length and the references out of the
    /// builder.
    pub fn cell_data(&mut self, data: &mut ByteVec, bits: &mut usize, children: &mut RefVec)
        ensures
            *final(self) == *old(self),
            final(data)@ == old(self).bytes(),
            *final(bits) == old(self).bits().len(),
            final(children)@ == old(self).refs(),
    {
        *data = ByteVec::from_slice(self.data.as_slice());
        *bits = self.length_in_bits;
        *children = RefVec::new();
        let n = self.references.len();
        let mut i: usize = 0;
        while i < n
            invariant
                i <= n == self.references@.len(),
                children@ == self.references@.subrange(0, i as int),
            decreases n - i,
        {
            children.push(self.references.get(i).clone());
            i = i + 1;
        }
        assert(children@ =~= self.references@);
    }
}

/// Canonical buffers are determined by their bits: two builders holding the
/// same bit string, however each was assembled, hold byte-identical buffers.
pub proof fn lemma_canonical_determinism(a: BuilderData, b: BuilderData)
    requires
        a.wf(),
        b.wf(),
        a.bits() == b.bits(),
    ensures
        a.bytes() == b.bytes(),
{
    let l = a.length_in_bits as int;
    assert(a.bits().len() == l && b.bits().len() == b.length_in_bits);
    let da = a.data@;
    let db = b.data@;
    assert forall|m: int| 0 <= m < da.len() implies da[m] == db[m] by {
        assert forall|k: u8| k < 8 implies #[trigger] bit_at(da[m], k) == bit_at(db[m], k) by {
            let i = 8 * m + k;
            lemma_index(m, k as int);
            assert(db.len() == da.len());
            if i < l {
                assert(a.bits()[i] == seq_bit(da, i));
                assert(b.bits()[i] == seq_bit(db, i));
                assert(a.bits()[i] == b.bits()[i]);
            } else {
                assert(!seq_bit(da, i) && !seq_bit(db, i));
            }
        }
        lemma_byte_ext(da[m], db[m]);
    }
    assert(da =~= db);
}

/// Appending `bits` bits of `slice` at any bit offset, read back from the
/// byte buffers: the result is canonical, its first `L` bits are the old
/// buffer's and the next `bits` are the slice's, where `L` is the old length.
pub proof fn lemma_append_bytes(old: BuilderData, new: BuilderData, slice: Seq<u8>, bits: int)
    requires
        old.wf(),
        0 <= bits,
        new.appended(&old, bits_of(slice, bits)),
    ensures
        new.bits().len() == old.bits().len() + bits,
        canonical(new.bytes(), old.bits().len() + bits),
        forall|i: int| 0 <= i < old.bits().len() ==> #[trigger] seq_bit(new.bytes(), i) == seq_bit(old.bytes(), i),
        forall|j: int| 0 <= j < bits ==> #[trigger] seq_bit(new.bytes(), old.bits().len() + j) == seq_bit(slice, j),
{
    let l = old.bits().len() as int;
    assert(bits_of(slice, bits).len() == bits);
    assert(new.bits().len() == l + bits);
    assert(new.bits() == bits_of(new.bytes(), new.length_in_bits as int));
    assert(old.bits() == bits_of(old.bytes(), old.length_in_bits as int));
    assert forall|i: int| 0 <= i < l implies #[trigger] seq_bit(new.bytes(), i) == seq_bit(old.bytes(), i) by {
        assert(new.bits()[i] == seq_bit(new.bytes(), i));
        assert(old.bits()[i] == seq_bit(old.bytes(), i));
        assert((old.bits() + bits_of(slice, bits))[i] == old.bits()[i]);
    }
    assert forall|j: int| 0 <= j < bits implies #[trigger] seq_bit(new.bytes(), l + j) == seq_bit(slice, j) by {
        assert(new.bits()[l + j] == seq_bit(new.bytes(), l + j));
        assert((old.bits() + bits_of(slice, bits))[l + j] == bits_of(slice, bits)[j]);
    }
}

/// Tagging a builder's bits and reading the tag back recovers the exact bit
/// length and the bits themselves, for every length up to the capacity.
pub proof fn lemma_tag_round_trip(b: BuilderData, t: Seq<u8>)
    requires
        b.wf(),
        is_tagged(t, b.bits()),
    ensures
        tag_len(t) == b.bits().len(),
        bits_of(t, tag_len(t)) == b.bits(),
{
    lemma_tagged_len(t, b.bits());
    assert(bits_of(t, tag_len(t)) =~= b.bits());
}

/// Finalizing a builder and reopening the node gives back the same bits,
/// bytes, references, subtype and level mask. For an ordinary builder the
/// mask must already be the union of its children's masks, which finalizing
/// sets.
pub proof fn lemma_finalize_reopen(b: BuilderData, c: Cell, r: BuilderData)
    requires
        b.wf(),
        finalized(b, c),
        reopened(c, r),
        b.kind() != CellType::Ordinary || b.levels().value() == levels_over(b.refs()),
    ensures
        r.same_content(&b),
        r.bytes() == b.bytes(),
{
    r.levels().lemma_value_eq(b.levels());
    lemma_canonical_determinism(r, b);
}

impl Default for BuilderData {
    /// An empty ordinary builder.
    fn default() -> (r: Self)
        ensures
            r.is_fresh(Seq::<bool>::empty()),
    {
        BuilderData::new()
    }
}

impl<'a> From<&'a Cell> for BuilderData {
    /// Reopens a node; `from_cell` states what the builder holds.
    fn from(cell: &'a Cell) -> (r: Self)
        ensures
            reopened(*cell, r),
    {
        BuilderData::from_cell(cell)
    }
}

impl<'a> vstd::std_specs::convert::FromSpecImpl<&'a Cell> for BuilderData {
    /// The buffer's identity is not a function of the node, so no spec
    /// function gives the result: callers use `from_cell`'s contract.
    open spec fn obeys_from_spec() -> bool {
        false
    }

    open spec fn from_spec(cell: &'a Cell) -> BuilderData {
        choose|b: BuilderData| reopened(*cell, b)
    }
}

impl From<Cell> for BuilderData {
    /// Reopens a node; `from_cell` states what the builder holds.
    fn from(cell: Cell) -> (r: Self)
        ensures
            reopened(cell, r),
    {
        BuilderData::from_cell(&cell)
    }
}

impl vstd::std_specs::convert::FromSpecImpl<Cell> for BuilderData {
    /// See the impl for `&Cell`.
    open spec fn obeys_from_spec() -> bool {
        false
    }

    open spec fn from_spec(cell: Cell) -> BuilderData {
        choose|b: BuilderData| reopened(cell, b)
    }
}

impl Clone for BuilderData {
    /// An independent copy: the bytes are duplicated, references are shared
    /// handles to the same nodes.
    fn clone(&self) -> (r: Self)
        ensures
            r.bytes() == self.bytes(),
            r.bits() == self.bits(),
            r.refs() == self.refs(),
            r.kind() == self.kind(),
            r.levels() == self.levels(),
            self.wf() ==> r.wf(),
    {
        let mut references = RefVec::new();
        let mut i: usize = 0;
        while i < self.references.len()
            invariant
                i <= self.references@.len(),
                references@ == self.references@.subrange(0, i as int),
            decreases self.references@.len() - i,
        {
            references.push(self.references.get(i).clone());
            i = i + 1;
        }
        assert(references@ =~= self.references@);
        BuilderData {
            data: ByteVec::from_slice(self.data.as_slice()),
            length_in_bits: self.length_in_bits,
            references,
            cell_type: self.cell_type,
            level_mask: self.level_mask,
        }
    }
}

} // verus!
