//! The bit sequence the indexes are built over, and the counting facts that
//! every layer relies on.

use vstd::prelude::*;
use bitvec::vec::BitVec;

verus! {

/// The longest sequence `bitvec` can hold: its length encoding keeps three
/// bits of a `usize` for the head offset.
pub const MAX_BITS: usize = usize::MAX >> 3;

/// A fixed-length sequence of bits, stored by `bitvec`.
#[verifier::external_body]
pub struct BitSeq {
    inner: BitVec,
}

/// The bits a `BitSeq` holds, in order.
pub uninterp spec fn bits_of(b: BitSeq) -> Seq<bool>;

/// Number of set bits of `s` in positions `[lo, hi)`.
pub open spec fn count(s: Seq<bool>, lo: int, hi: int) -> nat
    decreases hi - lo,
{
    if hi <= lo {
        0
    } else {
        count(s, lo, hi - 1) + if s[hi - 1] { 1nat } else { 0nat }
    }
}

/// Counting over `[lo, hi)` is counting over `[lo, mid)` and then `[mid, hi)`.
pub proof fn lemma_count_split(s: Seq<bool>, lo: int, mid: int, hi: int)
    requires
        lo <= mid <= hi,
    ensures
        count(s, lo, hi) == count(s, lo, mid) + count(s, mid, hi),
    decreases hi - mid,
{
    if hi > mid {
        lemma_count_split(s, lo, mid, hi - 1);
    }
}

/// A range never holds more set bits than positions.
pub proof fn lemma_count_bound(s: Seq<bool>, lo: int, hi: int)
    requires
        lo <= hi,
    ensures
        count(s, lo, hi) <= hi - lo,
    decreases hi - lo,
{
    if hi > lo {
        lemma_count_bound(s, lo, hi - 1);
    }
}

/// Counting is monotonic in the end of the range.
pub proof fn lemma_count_monotonic(s: Seq<bool>, lo: int, a: int, b: int)
    requires
        lo <= a <= b,
    ensures
        count(s, lo, a) <= count(s, lo, b),
{
    lemma_count_split(s, lo, a, b);
}

/// Writing a bit outside a range leaves the range's count alone.
pub proof fn lemma_count_update_outside(s: Seq<bool>, p: int, v: bool, lo: int, hi: int)
    requires
        0 <= p < s.len(),
        0 <= lo,
        hi <= s.len(),
        p < lo || hi <= p,
    ensures
        count(s.update(p, v), lo, hi) == count(s, lo, hi),
    decreases hi - lo,
{
    if hi > lo {
        lemma_count_update_outside(s, p, v, lo, hi - 1);
    }
}

/// A range of clear bits counts zero.
pub proof fn lemma_count_clear(s: Seq<bool>, lo: int, hi: int)
    requires
        forall|q: int| lo <= q < hi ==> !s[q],
    ensures
        count(s, lo, hi) == 0,
    decreases hi - lo,
{
    if hi > lo {
        lemma_count_clear(s, lo, hi - 1);
    }
}

/// Relies on `BitVec::repeat`: `len` clear bits. It panics on lengths past
/// `MAX_BITS`.
#[verifier::external_body]
fn bitvec_zeroed(len: usize) -> (r: BitSeq)
    requires
        len <= MAX_BITS,
    ensures
        bits_of(r) == Seq::new(len as nat, |_i: int| false),
{
    BitSeq { inner: BitVec::repeat(false, len) }
}

/// Relies on `BitVec::len`: the number of bits held.
#[verifier::external_body]
fn bitvec_len(b: &BitSeq) -> (r: usize)
    ensures
        r == bits_of(*b).len(),
{
    b.inner.len()
}

/// Relies on indexing a `BitSlice` by position: the bit there.
#[verifier::external_body]
fn bitvec_get(b: &BitSeq, i: usize) -> (r: bool)
    requires
        i < bits_of(*b).len(),
    ensures
        r == bits_of(*b)[i as int],
{
    b.inner[i]
}

/// Relies on `BitSlice::set`: writes one bit, the others stay.
#[verifier::external_body]
fn bitvec_set(b: &mut BitSeq, i: usize, v: bool)
    requires
        i < bits_of(*old(b)).len(),
    ensures
        bits_of(*final(b)) == bits_of(*old(b)).update(i as int, v),
{
    b.inner.set(i, v)
}

/// Relies on `BitSlice::count_ones` over the range `lo..hi` of the bits.
#[verifier::external_body]
fn bitvec_count_ones(b: &BitSeq, lo: usize, hi: usize) -> (r: usize)
    requires
        lo <= hi <= bits_of(*b).len(),
    ensures
        r == count(bits_of(*b), lo as int, hi as int),
{
    b.inner[lo..hi].count_ones()
}

impl BitSeq {
    /// The bits, in order.
    pub open spec fn view(&self) -> Seq<bool> {
        bits_of(*self)
    }

    /// A sequence of `len` clear bits.
    pub fn zeroed(len: usize) -> (r: BitSeq)
        requires
            len <= MAX_BITS,
        ensures
            r@ == Seq::new(len as nat, |_i: int| false),
    {
        bitvec_zeroed(len)
    }

    /// A sequence holding exactly the given bits.
    pub fn from_bools(v: &Vec<bool>) -> (r: BitSeq)
        requires
            v@.len() <= MAX_BITS,
        ensures
            r@ == v@,
    {
        let mut r = bitvec_zeroed(v.len());
        let mut i: usize = 0;
        while i < v.len()
            invariant
                i <= v@.len(),
                r@.len() == v@.len(),
                forall|q: int| 0 <= q < i ==> r@[q] == v@[q],
                forall|q: int| i <= q < v@.len() ==> !r@[q],
            decreases v@.len() - i,
        {
            if v[i] {
                bitvec_set(&mut r, i, true);
            }
            i = i + 1;
        }
        assert(r@ =~= v@);
        r
    }

    /// The bits, one `bool` each.
    pub fn to_bools(&self) -> (r: Vec<bool>)
        ensures
            r@ == self@,
    {
        let n = bitvec_len(self);
        let mut r: Vec<bool> = Vec::new();
        let mut i: usize = 0;
        while i < n
            invariant
                n == self@.len(),
                i <= n,
                r@ == self@.take(i as int),
            decreases n - i,
        {
            r.push(bitvec_get(self, i));
            i = i + 1;
            assert(r@ =~= self@.take(i as int));
        }
        assert(self@.take(n as int) =~= self@);
        r
    }

    /// Number of bits.
    pub fn len(&self) -> (r: usize)
        ensures
            r == self@.len(),
    {
        bitvec_len(self)
    }

    /// The bit at position `i`.
    pub fn get(&self, i: usize) -> (r: bool)
        requires
            i < self@.len(),
        ensures
            r == self@[i as int],
    {
        bitvec_get(self, i)
    }

    /// Writes the bit at position `i`.
    pub fn set(&mut self, i: usize, v: bool)
        requires
            i < old(self)@.len(),
        ensures
            final(self)@ == old(self)@.update(i as int, v),
    {
        bitvec_set(self, i, v)
    }

    /// Number of set bits in positions `[lo, hi)`.
    pub fn count_ones(&self, lo: usize, hi: usize) -> (r: usize)
        requires
            lo <= hi <= self@.len(),
        ensures
            r == count(self@, lo as int, hi as int),
    {
        bitvec_count_ones(self, lo, hi)
    }
}

} // verus!
