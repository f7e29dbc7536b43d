use vstd::prelude::*;
use smallvec::SmallVec;
use crate::cell::Cell;

verus! {

/// Reference list of a node: a `SmallVec` with four handles inline, the most
/// a node holds.
#[derive(Debug)]
#[verifier::external_body]
pub struct RefVec {
    v: SmallVec<[Cell; 4]>,
}

/// The handles held by a `RefVec`, in order.
pub uninterp spec fn ref_vec_contents(r: RefVec) -> Seq<Cell>;

impl View for RefVec {
    type V = Seq<Cell>;

    open spec fn view(&self) -> Seq<Cell> {
        ref_vec_contents(*self)
    }
}

impl RefVec {
    /// Relies on `SmallVec::new`: the list starts empty.
    #[verifier::external_body]
    pub fn new() -> (r: RefVec)
        ensures
            ref_vec_contents(r) == Seq::<Cell>::empty(),
    {
        RefVec { v: SmallVec::new() }
    }

    /// Relies on `SmallVec::as_slice`: the slice holds the elements in order.
    #[verifier::external_body]
    pub fn as_slice(&self) -> (r: &[Cell])
        ensures
            r@ == ref_vec_contents(*self),
    {
        self.v.as_slice()
    }

    /// Relies on `SmallVec::len`.
    #[verifier::external_body]
    pub fn len(&self) -> (r: usize)
        ensures
            r == ref_vec_contents(*self).len(),
    {
        self.v.len()
    }

    /// Relies on indexing a `SmallVec` in bounds.
    #[verifier::external_body]
    pub fn get(&self, i: usize) -> (r: &Cell)
        requires
            i < ref_vec_contents(*self).len(),
        ensures
            *r == ref_vec_contents(*self)[i as int],
    {
        &self.v[i]
    }

    /// Relies on `SmallVec::push`: the handle goes at the end.
    #[verifier::external_body]
    pub fn push(&mut self, x: Cell)
        ensures
            ref_vec_contents(*final(self)) == ref_vec_contents(*old(self)).push(x),
    {
        self.v.push(x)
    }

    /// Relies on `SmallVec::insert`: the handle goes at `i`, later ones move
    /// up by one; `i` past the end panics, hence the bound.
    #[verifier::external_body]
    pub(crate) fn insert(&mut self, i: usize, x: Cell)
        requires
            i <= ref_vec_contents(*old(self)).len(),
        ensures
            ref_vec_contents(*final(self)) == ref_vec_contents(*old(self)).insert(i as int, x),
    {
        self.v.insert(i, x)
    }

    /// Relies on assigning through `SmallVec`'s `IndexMut` in bounds.
    #[verifier::external_body]
    pub(crate) fn set(&mut self, i: usize, x: Cell)
        requires
            i < ref_vec_contents(*old(self)).len(),
        ensures
            ref_vec_contents(*final(self)) == ref_vec_contents(*old(self)).update(i as int, x),
    {
        self.v[i] = x;
    }
}

} // verus!
