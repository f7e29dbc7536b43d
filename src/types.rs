use vstd::prelude::*;

verus! {

/// Largest number of data bits a cell holds.
pub const MAX_DATA_BITS: usize = 1023;

/// Largest number of references a cell holds.
pub const MAX_REFERENCES_COUNT: usize = 4;

/// Depth ceiling used by `BuilderData::into_cell`.
pub const MAX_SAFE_DEPTH: u16 = 512;

/// Failures reported by the builder.
#[derive(Clone, Copy, Debug, PartialEq, Eq, Structural)]
pub enum ExceptionCode {
    /// A caller precondition was violated (a bit length longer than the
    /// bytes supplied, a tree deeper than allowed).
    FatalError,
    /// A bit or reference capacity would be exceeded.
    CellOverflow,
}

pub type Result<T> = core::result::Result<T, ExceptionCode>;

/// Subtype of a cell.
#[derive(Clone, Copy, Debug, PartialEq, Eq, Structural)]
pub enum CellType {
    Unknown,
    Ordinary,
    PrunedBranch,
    LibraryReference,
    MerkleProof,
    MerkleUpdate,
}

impl Default for CellType {
    fn default() -> (r: Self)
        ensures
            r == CellType::Ordinary,
    {
        CellType::Ordinary
    }
}

/// Three-bit mask of the hash levels a cell carries.
#[derive(Clone, Copy, Debug, PartialEq, Eq, Structural)]
pub struct LevelMask(u8);

impl LevelMask {
    #[verifier::type_invariant]
    spec fn inv(self) -> bool {
        self.0 <= 7
    }

    pub closed spec fn value(self) -> u8 {
        self.0
    }

    /// Masks with the same value are the same mask.
    pub proof fn lemma_value_eq(self, other: LevelMask)
        requires
            self.value() == other.value(),
        ensures
            self == other,
    {
    }

    /// A mask out of range (above 7) gives the empty mask.
    pub fn with_mask(mask: u8) -> (r: LevelMask)
        ensures
            r.value() == if mask <= 7 { mask } else { 0 },
    {
        if mask <= 7 {
            LevelMask(mask)
        } else {
            LevelMask(0)
        }
    }

    pub fn mask(&self) -> (r: u8)
        ensures
            r == self.value(),
            r <= 7,
    {
        proof {
            use_type_invariant(self);
        }
        self.0
    }

    /// Number of levels: the count of set bits.
    pub fn level(&self) -> (r: u8)
        ensures
            r == (self.value() & 1) + ((self.value() >> 1u8) & 1) + ((self.value() >> 2u8) & 1),
            r <= 3,
    {
        let m = self.0;
        assert((m & 1) <= 1 && ((m >> 1u8) & 1) <= 1 && ((m >> 2u8) & 1) <= 1) by (bit_vector);
        (m & 1) + ((m >> 1) & 1) + ((m >> 2) & 1)
    }

    /// Union of two masks.
    pub fn union(&self, other: &LevelMask) -> (r: LevelMask)
        ensures
            r.value() == self.value() | other.value(),
    {
        proof {
            use_type_invariant(self);
            use_type_invariant(other);
        }
        let (a, b) = (self.0, other.0);
        assert(a <= 7 && b <= 7 ==> a | b <= 7) by (bit_vector);
        LevelMask(a | b)
    }
}

impl Default for LevelMask {
    fn default() -> (r: Self)
        ensures
            r.value() == 0,
    {
        LevelMask(0)
    }
}

} // verus!
