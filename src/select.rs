//! Select over a rank index, by binary search on rank.

use vstd::prelude::*;
use crate::BitVectorTools;
use crate::bits::{BitSeq, count, lemma_count_monotonic, lemma_count_split};
use crate::error::BitIndexError;
use crate::rank::{RankSupport, rank_of};

verus! {

/// Number of set bits in the whole sequence.
pub open spec fn total_ones(bits: Seq<bool>) -> nat {
    count(bits, 0, bits.len() as int)
}

/// `p` is the position of the `j`-th set bit (counting from 1): the bit at `p`
/// is set and `j - 1` set bits come before it.
pub open spec fn is_select(bits: Seq<bool>, j: int, p: int) -> bool {
    &&& 0 <= p < bits.len()
    &&& bits[p]
    &&& count(bits, 0, p) == j - 1
}

/// Select over the bits of a rank index; it keeps no tables of its own.
pub struct SelectSupport {
    pub rank_support: RankSupport,
}

impl SelectSupport {
    /// The rank index is consistent.
    pub open spec fn wf(&self) -> bool {
        self.rank_support.wf()
    }

    /// The bits indexed.
    pub open spec fn view(&self) -> Seq<bool> {
        self.rank_support@
    }

    /// Position of the `j`-th set bit, counting from 1; refused where there is
    /// no such bit (`j` is 0 or exceeds the number of set bits).
    pub fn select1(&self, j: usize) -> (r: Result<usize, BitIndexError>)
        requires
            self.wf(),
        ensures
            r is Ok <==> 1 <= j <= total_ones(self@),
            r matches Ok(p) ==> is_select(self@, j as int, p as int),
            r matches Err(e) ==> e == BitIndexError::SelectOutOfRange,
    {
        let n = self.rank_support.len();
        if j == 0 || n == 0 {
            return Err(BitIndexError::SelectOutOfRange);
        }
        let ghost bits = self@;
        let mut lo: usize = 0;
        let mut hi: usize = n - 1;
        while lo < hi
            invariant
                self.wf(),
                n == bits.len(),
                bits == self@,
                lo <= hi < n,
                forall|q: int| 0 <= q < lo ==> #[trigger] count(bits, 0, q + 1) < j,
                j <= total_ones(bits) ==> count(bits, 0, hi + 1) >= j,
            decreases hi - lo,
        {
            let mid: usize = lo + (hi - lo) / 2;
            let rank = self.rank_support.rank1(mid + 1);
            if rank < j {
                assert forall|q: int| 0 <= q < mid + 1 implies #[trigger] count(bits, 0, q + 1) < j by {
                    lemma_count_monotonic(bits, 0, q + 1, mid + 1);
                }
                lo = mid + 1;
            } else {
                hi = mid;
            }
        }
        let rank = self.rank_support.rank1(lo + 1);
        proof {
            lemma_count_split(bits, 0, lo as int, lo + 1);
            lemma_count_monotonic(bits, 0, lo + 1, n as int);
            if lo > 0 {
                assert(count(bits, 0, (lo - 1) + 1) < j);
            }
        }
        if rank == j {
            Ok(lo)
        } else {
            proof {
                if j <= total_ones(bits) {
                    assert(count(bits, 0, lo + 1) >= j);
                }
            }
            Err(BitIndexError::SelectOutOfRange)
        }
    }
}

impl BitVectorTools for SelectSupport {
    open spec fn ready(&self) -> bool {
        self.wf()
    }

    open spec fn indexed(&self) -> Seq<bool> {
        self.rank_support@
    }

    open spec fn table_words(&self) -> nat {
        self.rank_support.table_words()
    }

    fn new(bit_v: BitSeq) -> (r: SelectSupport) {
        SelectSupport { rank_support: RankSupport::new(bit_v) }
    }

    fn overhead(&self) -> (r: usize) {
        self.rank_support.overhead()
    }
}


/// The `j`-th set bit is where rank first reaches `j`: the rank just past it
/// is `j`, and the rank just past any earlier position is less.
pub proof fn lemma_select_is_first(bits: Seq<bool>, j: int, p: int, q: int)
    requires
        is_select(bits, j, p),
        0 <= q < bits.len(),
        rank_of(bits, q + 1) == j,
    ensures
        rank_of(bits, p + 1) == j,
        p <= q,
{
    lemma_count_split(bits, 0, p, p + 1);
    if q < p {
        lemma_count_monotonic(bits, 0, q + 1, p);
    }
}

} // verus!
