use vstd::prelude::*;
use smallvec::SmallVec;

verus! {

/// Byte storage of a builder: a `SmallVec` with 128 bytes inline, so a full
/// node's data needs no heap allocation.
#[derive(Debug)]
#[verifier::external_body]
pub struct ByteVec {
    v: SmallVec<[u8; 128]>,
}

/// The bytes held by a `ByteVec`, in order.
pub uninterp spec fn byte_vec_contents(b: ByteVec) -> Seq<u8>;

impl View for ByteVec {
    type V = Seq<u8>;

    open spec fn view(&self) -> Seq<u8> {
        byte_vec_contents(*self)
    }
}

impl ByteVec {
    /// Relies on `SmallVec::new`: the vector starts empty.
    #[verifier::external_body]
    pub fn new() -> (r: ByteVec)
        ensures
            byte_vec_contents(r) == Seq::<u8>::empty(),
    {
        ByteVec { v: SmallVec::new() }
    }

    /// Relies on `SmallVec::from_slice`: the new vector holds a copy of the
    /// slice.
    #[verifier::external_body]
    pub fn from_slice(s: &[u8]) -> (r: ByteVec)
        ensures
            byte_vec_contents(r) == s@,
    {
        ByteVec { v: SmallVec::from_slice(s) }
    }

    /// Relies on `SmallVec::as_slice`: the slice holds the elements in order.
    #[verifier::external_body]
    pub fn as_slice(&self) -> (r: &[u8])
        ensures
            r@ == byte_vec_contents(*self),
    {
        self.v.as_slice()
    }

    /// Relies on `SmallVec::len`.
    #[verifier::external_body]
    pub fn len(&self) -> (r: usize)
        ensures
            r == byte_vec_contents(*self).len(),
    {
        self.v.len()
    }

    /// Relies on indexing a `SmallVec` in bounds.
    #[verifier::external_body]
    pub(crate) fn get(&self, i: usize) -> (r: u8)
        requires
            i < byte_vec_contents(*self).len(),
        ensures
            r == byte_vec_contents(*self)[i as int],
    {
        self.v[i]
    }

    /// Relies on `SmallVec::push`: the value goes at the end.
    #[verifier::external_body]
    pub(crate) fn push(&mut self, x: u8)
        ensures
            byte_vec_contents(*final(self)) == byte_vec_contents(*old(self)).push(x),
    {
        self.v.push(x)
    }

    /// Relies on `SmallVec::pop`: the last value leaves, `None` when empty.
    #[verifier::external_body]
    pub(crate) fn pop(&mut self) -> (r: Option<u8>)
        ensures
            byte_vec_contents(*old(self)).len() == 0 ==> r == None::<u8> && byte_vec_contents(*final(self)) == byte_vec_contents(*old(self)),
            byte_vec_contents(*old(self)).len() > 0 ==> r == Some(byte_vec_contents(*old(self)).last()) && byte_vec_contents(*final(self))
                == byte_vec_contents(*old(self)).drop_last(),
    {
        self.v.pop()
    }

    /// Relies on `SmallVec::truncate`: keeps the first `n` values; a longer
    /// `n` changes nothing.
    #[verifier::external_body]
    pub(crate) fn truncate(&mut self, n: usize)
        ensures
            n < byte_vec_contents(*old(self)).len() ==> byte_vec_contents(*final(self)) == byte_vec_contents(*old(self)).subrange(0, n as int),
            n >= byte_vec_contents(*old(self)).len() ==> byte_vec_contents(*final(self)) == byte_vec_contents(*old(self)),
    {
        self.v.truncate(n)
    }
}

} // verus!
