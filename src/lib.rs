//! Succinct rank and select indexes over a bit sequence, and a sparse array
//! built on top of them.

use vstd::prelude::*;

pub mod bits;
pub mod error;
pub mod rank;
pub mod select;
pub mod sparse;
pub mod footprint;

verus! {

/// What every index over a bit sequence offers: building it from the bits,
/// and the size of its auxiliary tables.
pub trait BitVectorTools: Sized {
    /// The index is consistent with the bits it holds.
    spec fn ready(&self) -> bool;

    /// The bits indexed.
    spec fn indexed(&self) -> Seq<bool>;

    /// Number of words in the auxiliary tables.
    spec fn table_words(&self) -> nat;

    /// Indexes `bit_v`.
    fn new(bit_v: bits::BitSeq) -> (r: Self)
        ensures
            r.ready(),
            r.indexed() == bit_v@,
    ;

    /// Size in bits of the auxiliary tables, the bits themselves excluded, as
    /// the heap holds them: at least a machine word for each table entry
    /// (more where the allocator gave spare capacity), up to `usize::MAX`.
    fn overhead(&self) -> (r: usize)
        requires
            self.ready(),
        ensures
            r >= footprint::saturate(8 * footprint::word_bytes() * self.table_words()),
    ;
}

} // verus!
