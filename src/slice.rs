use vstd::prelude::*;
use crate::bits::{bit_at, seq_bit, bits_of};
use crate::cell::Cell;
use crate::ref_vec::RefVec;
use crate::tag::is_tagged;
use crate::builder::BuilderData;
use crate::types::{ExceptionCode, Result, CellType, LevelMask, MAX_DATA_BITS, MAX_REFERENCES_COUNT};

verus! {

/// A read window over a node: the bits in `[data_start, data_end)` and the
/// references in `[refs_start, refs_end)`.
pub struct SliceData {
    cell: Cell,
    data_start: usize,
    data_end: usize,
    refs_start: usize,
    refs_end: usize,
}

impl SliceData {
    pub closed spec fn wf(&self) -> bool {
        &&& self.data_start <= self.data_end <= self.cell.bits().len()
        &&& self.refs_start <= self.refs_end <= self.cell.refs().len()
        &&& self.cell.bits().len() <= MAX_DATA_BITS
        &&& self.cell.refs().len() <= MAX_REFERENCES_COUNT
    }

    /// The unread bits.
    pub closed spec fn remaining_bits(&self) -> Seq<bool> {
        self.cell.bits().subrange(self.data_start as int, self.data_end as int)
    }

    /// The unread references.
    pub closed spec fn remaining_refs(&self) -> Seq<Cell> {
        self.cell.refs().subrange(self.refs_start as int, self.refs_end as int)
    }

    pub closed spec fn node(&self) -> Cell {
        self.cell
    }

    /// A window over the whole node.
    pub fn load_cell(cell: Cell) -> (r: SliceData)
        ensures
            r.wf(),
            r.node() == cell,
            r.remaining_bits() == cell.bits(),
            r.remaining_refs() == cell.refs(),
    {
        let data_end = cell.bit_length();
        let refs_end = cell.references_count();
        let r = SliceData { cell, data_start: 0, data_end, refs_start: 0, refs_end };
        assert(r.remaining_bits() =~= r.cell.bits());
        assert(r.remaining_refs() =~= r.cell.refs());
        r
    }

    /// Skips the first `bits` unread bits and `refs` unread references;
    /// `FatalError` when fewer are left.
    pub fn skip(&mut self, bits: usize, refs: usize) -> (r: Result<()>)
        requires
            old(self).wf(),
        ensures
            r is Ok <==> (bits <= old(self).remaining_bits().len() && refs
                <= old(self).remaining_refs().len()),
            r is Err ==> r == Err::<(), ExceptionCode>(ExceptionCode::FatalError) && *final(self)
                == *old(self),
            final(self).wf(),
            final(self).node() == old(self).node(),
            r is Ok ==> final(self).remaining_bits() == old(self).remaining_bits().subrange(
                bits as int,
                old(self).remaining_bits().len() as int,
            ),
            r is Ok ==> final(self).remaining_refs() == old(self).remaining_refs().subrange(
                refs as int,
                old(self).remaining_refs().len() as int,
            ),
    {
        if bits > self.data_end - self.data_start || refs > self.refs_end - self.refs_start {
            return Err(ExceptionCode::FatalError);
        }
        let ghost b0 = self.remaining_bits();
        let ghost r0 = self.remaining_refs();
        self.data_start = self.data_start + bits;
        self.refs_start = self.refs_start + refs;
        assert(self.remaining_bits() =~= b0.subrange(bits as int, b0.len() as int));
        assert(self.remaining_refs() =~= r0.subrange(refs as int, r0.len() as int));
        Ok(())
    }

    pub fn remaining_references(&self) -> (r: usize)
        requires
            self.wf(),
        ensures
            r == self.remaining_refs().len(),
    {
        self.refs_end - self.refs_start
    }

    /// The `i`-th unread reference; `FatalError` past the end.
    pub fn reference(&self, i: usize) -> (r: Result<Cell>)
        requires
            self.wf(),
        ensures
            i < self.remaining_refs().len() ==> r == Ok::<Cell, ExceptionCode>(
                self.remaining_refs()[i as int],
            ),
            i >= self.remaining_refs().len() ==> r == Err::<Cell, ExceptionCode>(
                ExceptionCode::FatalError,
            ),
    {
        if i >= self.refs_end - self.refs_start {
            return Err(ExceptionCode::FatalError);
        }
        let refs = self.cell.clone_references();
        Ok(refs.get(self.refs_start + i).clone())
    }

    pub fn cell_type(&self) -> (r: CellType)
        ensures
            r == self.node().kind(),
    {
        self.cell.cell_type()
    }

    pub fn level_mask(&self) -> (r: LevelMask)
        ensures
            r == self.node().level_mask_spec(),
    {
        self.cell.level_mask()
    }

    /// A fresh builder holding the unread bits.
    pub fn remaining_data(&self) -> (r: BuilderData)
        requires
            self.wf(),
        ensures
            r.is_fresh(self.remaining_bits()),
    {
        let d = self.cell.data();
        let mut b = BuilderData::new();
        let mut i: usize = self.data_start;
        assert(self.cell.bits().subrange(self.data_start as int, i as int) =~= Seq::<bool>::empty());
        while i < self.data_end
            invariant
                self.data_start <= i <= self.data_end,
                self.wf(),
                d@ == self.cell.tagged_data(),
                is_tagged(d@, self.cell.bits()),
                b.is_fresh(self.cell.bits().subrange(self.data_start as int, i as int)),
            decreases self.data_end - i,
        {
            let byte = d[i / 8];
            let k = (i % 8) as u8;
            let bit = (byte >> (7 - k)) & 1 == 1;
            assert(seq_bit(d@, i as int) == self.cell.bits()[i as int]);
            assert(bit == seq_bit(d@, i as int));
            let one: [u8; 1] = if bit { [0x80u8] } else { [0u8] };
            assert(bit_at(0x80u8, 0) && !bit_at(0u8, 0)) by (bit_vector);
            let ghost before = b.bits();
            assert(one@.len() == 1);
            assert(before.len() == i - self.data_start);
            let res = b.append_raw(&one, 1);
            assert(res is Ok);
            assert(bits_of(one@, 1) =~= seq![bit]);
            assert(before + seq![bit] =~= before.push(bit));
            assert(self.cell.bits().subrange(self.data_start as int, i + 1) =~= before.push(bit));
            i = i + 1;
        }
        b
    }
}

impl BuilderData {
    /// A builder holding what a read window has left: its unread bits, its
    /// unread references (shared handles), and the node's subtype and level
    /// mask.
    pub fn from_slice(slice: &SliceData) -> (r: BuilderData)
        requires
            slice.wf(),
        ensures
            r.wf(),
            r.bits() == slice.remaining_bits(),
            r.refs() == slice.remaining_refs(),
            r.kind() == slice.node().kind(),
            r.levels() == slice.node().level_mask_spec(),
    {
        let refs_count = slice.remaining_references();
        let mut references = RefVec::new();
        let mut i: usize = 0;
        while i < refs_count
            invariant
                i <= refs_count == slice.remaining_refs().len(),
                slice.wf(),
                references@ == slice.remaining_refs().subrange(0, i as int),
            decreases refs_count - i,
        {
            let c = match slice.reference(i) {
                Ok(c) => c,
                Err(_) => {
                    proof {
                        assert(false);
                    }
                    return BuilderData::new();
                },
            };
            references.push(c);
            assert(references@ =~= slice.remaining_refs().subrange(0, i + 1));
            i = i + 1;
        }
        assert(references@ =~= slice.remaining_refs());
        let mut builder = slice.remaining_data();
        builder.replace_parts(references, slice.cell_type(), slice.level_mask());
        builder
    }
}

} // verus!
