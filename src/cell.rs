use vstd::prelude::*;
use std::rc::Rc;
use crate::bits::{bit_at, seq_bit, bits_of, lemma_index, lemma_byte_ext};
use crate::tag::{tag_len, is_tagged, is_last_one, lemma_tag_len_unique, find_tag};
use crate::ref_vec::RefVec;
use crate::types::{ExceptionCode, Result, CellType, LevelMask, MAX_DATA_BITS, MAX_REFERENCES_COUNT};

verus! {

/// Relies on `Rc::clone`: the new handle points to the same allocation, so it
/// is the same value.
#[verifier::external_body]
fn share(r: &Rc<CellData>) -> (res: Rc<CellData>)
    ensures
        res == *r,
{
    Rc::clone(r)
}

#[derive(Debug)]
struct CellData {
    data: Vec<u8>,
    bit_length: usize,
    references: RefVec,
    cell_type: CellType,
    level_mask: LevelMask,
    depth: u16,
}

/// An immutable, finalized node. Handles are shared: cloning a `Cell` clones
/// the handle, not the node.
#[derive(Debug)]
pub struct Cell {
    inner: Rc<CellData>,
}

/// Depth of a node whose children are `refs`: 0 for a leaf, else one more
/// than the deepest child.
pub open spec fn depth_over(refs: Seq<Cell>) -> int
    decreases refs.len(),
{
    if refs.len() == 0 {
        0
    } else {
        let rest = depth_over(refs.drop_last());
        let here = refs.last().depth() + 1;
        if rest > here {
            rest
        } else {
            here
        }
    }
}

/// Union of the level masks of `refs`.
pub open spec fn levels_over(refs: Seq<Cell>) -> u8
    decreases refs.len(),
{
    if refs.len() == 0 {
        0
    } else {
        levels_over(refs.drop_last()) | refs.last().level_mask_spec().value()
    }
}

/// A byte buffer that ends in a tag: its last byte is not zero.
pub open spec fn tag_ok(d: Seq<u8>) -> bool {
    d.len() >= 1 && d.last() != 0
}

impl Cell {
    #[verifier::type_invariant]
    closed spec fn inv(self) -> bool {
        &&& self.inner.bit_length <= MAX_DATA_BITS
        &&& is_tagged(self.inner.data@, bits_of(self.inner.data@, self.inner.bit_length as int))
        &&& self.inner.references@.len() <= MAX_REFERENCES_COUNT
    }

    /// The data bits of the node (the tag excluded).
    pub closed spec fn bits(self) -> Seq<bool> {
        bits_of(self.inner.data@, self.inner.bit_length as int)
    }

    /// The stored bytes, end tag included.
    pub closed spec fn tagged_data(self) -> Seq<u8> {
        self.inner.data@
    }

    pub closed spec fn refs(self) -> Seq<Cell> {
        self.inner.references@
    }

    pub closed spec fn kind(self) -> CellType {
        self.inner.cell_type
    }

    pub closed spec fn level_mask_spec(self) -> LevelMask {
        self.inner.level_mask
    }

    pub closed spec fn depth(self) -> int {
        self.inner.depth as int
    }

    /// Builds a node from tagged bytes. Fails with `FatalError` when the
    /// bytes carry no end tag in their last byte, when more than 1023 bits or
    /// four references are given, when the mask is above 7, or when the tree
    /// would be deeper than `max_depth`.
    pub fn with_max_depth(
        references: RefVec,
        data: &[u8],
        cell_type: CellType,
        level_mask: u8,
        max_depth: u16,
    ) -> (r: Result<Cell>)
        ensures
            r.is_ok() <==> {
                &&& tag_ok(data@)
                &&& data@.len() <= 1024
                &&& tag_len(data@) / 8 + 1 == data@.len()
                &&& tag_len(data@) <= MAX_DATA_BITS
                &&& references@.len() <= MAX_REFERENCES_COUNT
                &&& level_mask <= 7
                &&& depth_over(references@) <= max_depth
            },
            r is Err ==> r == Err::<Cell, ExceptionCode>(ExceptionCode::FatalError),
            r matches Ok(c) ==> {
                &&& c.tagged_data() == data@
                &&& c.bits() == bits_of(data@, tag_len(data@))
                &&& c.refs() == references@
                &&& c.kind() == cell_type
                &&& c.level_mask_spec().value() == level_mask
                &&& c.depth() == depth_over(references@)
            },
    {
        let n = data.len();
        if n == 0 || n > 1024 || data[n - 1] == 0 {
            return Err(ExceptionCode::FatalError);
        }
        let bit_length = find_tag(data);
        proof {
            let x = data@[n - 1];
            if !exists|p: int| is_last_one(data@, p) {
                assert forall|k: u8| k < 8 implies !#[trigger] bit_at(x, k) by {
                    lemma_index(n - 1, k as int);
                    assert(!seq_bit(data@, 8 * (n - 1) + k));
                }
                assert(bit_at(0u8, 0) == false && bit_at(0u8, 1) == false && bit_at(0u8, 2)
                    == false && bit_at(0u8, 3) == false && bit_at(0u8, 4) == false
                    && bit_at(0u8, 5) == false && bit_at(0u8, 6) == false && bit_at(0u8, 7)
                    == false) by (bit_vector);
                lemma_byte_ext(x, 0);
            }
        }
        if bit_length / 8 + 1 != n || bit_length > MAX_DATA_BITS || references.len()
            > MAX_REFERENCES_COUNT || level_mask > 7 {
            return Err(ExceptionCode::FatalError);
        }
        let mut depth: u32 = 0;
        let mut i: usize = 0;
        while i < references.len()
            invariant
                i <= references@.len(),
                depth == depth_over(references@.subrange(0, i as int)),
                depth <= u16::MAX + 1,
            decreases references@.len() - i,
        {
            let d = references.get(i).depth_value() as u32 + 1;
            assert(references@.subrange(0, i + 1).drop_last() == references@.subrange(0, i as int));
            if d > depth {
                depth = d;
            }
            i = i + 1;
        }
        assert(references@.subrange(0, references@.len() as int) == references@);
        if depth > max_depth as u32 {
            return Err(ExceptionCode::FatalError);
        }
        let mut copy: Vec<u8> = Vec::new();
        let mut j: usize = 0;
        while j < n
            invariant
                j <= n == data@.len(),
                copy@ == data@.subrange(0, j as int),
            decreases n - j,
        {
            copy.push(data[j]);
            j = j + 1;
        }
        assert(copy@ == data@);
        proof {
            let p = choose|p: int| is_last_one(data@, p);
            lemma_tag_len_unique(data@, p);
            assert(is_tagged(data@, bits_of(data@, bit_length as int)));
        }
        Ok(
            Cell {
                inner: Rc::new(
                    CellData {
                        data: copy,
                        bit_length,
                        references,
                        cell_type,
                        level_mask: LevelMask::with_mask(level_mask),
                        depth: depth as u16,
                    },
                ),
            },
        )
    }

    fn depth_value(&self) -> (r: u16)
        ensures
            r == self.depth(),
    {
        self.inner.depth
    }

    /// The stored bytes, end tag included.
    pub fn data(&self) -> (r: &[u8])
        ensures
            r@ == self.tagged_data(),
            is_tagged(r@, self.bits()),
            self.bits().len() <= MAX_DATA_BITS,
    {
        proof {
            use_type_invariant(self);
        }
        self.inner.data.as_slice()
    }

    pub fn bit_length(&self) -> (r: usize)
        ensures
            r == self.bits().len(),
            r <= MAX_DATA_BITS,
    {
        proof {
            use_type_invariant(self);
        }
        self.inner.bit_length
    }

    pub fn cell_type(&self) -> (r: CellType)
        ensures
            r == self.kind(),
    {
        self.inner.cell_type
    }

    pub fn level_mask(&self) -> (r: LevelMask)
        ensures
            r == self.level_mask_spec(),
    {
        proof {
            use_type_invariant(self);
        }
        self.inner.level_mask
    }

    pub fn references_count(&self) -> (r: usize)
        ensures
            r == self.refs().len(),
            r <= MAX_REFERENCES_COUNT,
    {
        proof {
            use_type_invariant(self);
        }
        self.inner.references.len()
    }

    /// A new list holding handles to this node's children, in order.
    pub fn clone_references(&self) -> (r: RefVec)
        ensures
            r@ == self.refs(),
            r@.len() <= MAX_REFERENCES_COUNT,
    {
        proof {
            use_type_invariant(self);
        }
        let refs = &self.inner.references;
        let mut out = RefVec::new();
        let mut i: usize = 0;
        while i < refs.len()
            invariant
                i <= refs@.len(),
                refs@ == self.refs(),
                out@ == refs@.subrange(0, i as int),
            decreases refs@.len() - i,
        {
            out.push(refs.get(i).clone());
            i = i + 1;
        }
        assert(out@ == refs@);
        out
    }
}

impl Clone for Cell {
    /// Another handle to the same node.
    fn clone(&self) -> (r: Self)
        ensures
            r == *self,
    {
        proof {
            use_type_invariant(self);
        }
        Cell { inner: share(&self.inner) }
    }
}

} // verus!
