//! A sparse array: values at a few positions of a long logical array, stored
//! densely beside a select index over the presence bits.

use vstd::prelude::*;
use crate::BitVectorTools;
use crate::bits::{
    BitSeq, MAX_BITS, count, lemma_count_clear, lemma_count_monotonic, lemma_count_split,
    lemma_count_update_outside,
};
use crate::error::BitIndexError;
use crate::rank::{rank_of, table_words_of};
use crate::select::{SelectSupport, is_select};
use crate::footprint::{bits_plus_bytes, heap_bytes_of_strings, saturate, total_chars, word_bytes};

verus! {

/// The `k`-th entry of `positions` is the `k`-th set bit of `bits`, for each
/// `k`, and no other bit is set.
pub open spec fn positions_are_ones(bits: Seq<bool>, positions: Seq<int>) -> bool {
    &&& count(bits, 0, bits.len() as int) == positions.len()
    &&& forall|k: int|
        0 <= k < positions.len() ==> {
            &&& 0 <= #[trigger] positions[k] < bits.len()
            &&& bits[positions[k]]
            &&& count(bits, 0, positions[k]) == k
        }
}

/// Where `positions` list the set bits of `bits` in order, the set bit at `p`
/// is listed under its rank.
pub proof fn lemma_set_bit_is_listed(bits: Seq<bool>, positions: Seq<int>, p: int)
    requires
        positions_are_ones(bits, positions),
        0 <= p < bits.len(),
        bits[p],
    ensures
        count(bits, 0, p) < positions.len(),
        positions[count(bits, 0, p) as int] == p,
{
    let k = count(bits, 0, p) as int;
    lemma_count_split(bits, 0, p, p + 1);
    lemma_count_monotonic(bits, 0, p + 1, bits.len() as int);
    let q = positions[k];
    if q < p {
        lemma_count_split(bits, 0, q, q + 1);
        lemma_count_monotonic(bits, 0, q + 1, p);
    } else if q > p {
        lemma_count_monotonic(bits, 0, p + 1, q);
    }
}

/// Collects values at chosen positions of a logical array of fixed size.
pub struct SparseArrayBuilder {
    bit_v: BitSeq,
    values: Vec<String>,
    next_pos: usize,
    positions: Ghost<Seq<int>>,
}

/// A read-only sparse array: the values, in position order, and a select
/// index over the bits that mark where values are present.
pub struct SparseArray {
    values: Vec<String>,
    select_support: SelectSupport,
    positions: Ghost<Seq<int>>,
}

impl SparseArrayBuilder {
    /// Presence bits: set exactly where a value was appended.
    pub closed spec fn bits(&self) -> Seq<bool> {
        self.bit_v@
    }

    /// The values appended, in order.
    pub closed spec fn values(&self) -> Seq<String> {
        self.values@
    }

    /// The positions appended, in order.
    pub closed spec fn positions(&self) -> Seq<int> {
        self.positions@
    }

    /// Positions were appended in strictly increasing order, within the size,
    /// and the presence bits mark exactly them.
    pub closed spec fn wf(&self) -> bool {
        let n = self.bit_v@.len();
        let ps = self.positions@;
        &&& n <= MAX_BITS
        &&& ps.len() == self.values@.len()
        &&& positions_are_ones(self.bit_v@, ps)
        &&& self.next_pos <= n
        &&& count(self.bit_v@, 0, self.next_pos as int) == ps.len()
        &&& forall|q: int| self.next_pos <= q < n ==> !self.bit_v@[q]
        &&& forall|k: int| 0 <= k < ps.len() ==> #[trigger] ps[k] < self.next_pos
        &&& ps.len() > 0 ==> ps.last() + 1 == self.next_pos
        &&& ps.len() == 0 ==> self.next_pos == 0
    }

    /// An empty array of `size` positions.
    pub fn create(size: usize) -> (r: SparseArrayBuilder)
        requires
            size <= MAX_BITS,
        ensures
            r.wf(),
            r.bits() == Seq::new(size as nat, |_i: int| false),
            r.values() == Seq::<String>::empty(),
            r.positions() == Seq::<int>::empty(),
    {
        let bit_v = BitSeq::zeroed(size);
        proof {
            lemma_count_clear(bit_v@, 0, size as int);
        }
        SparseArrayBuilder { bit_v, values: Vec::new(), next_pos: 0, positions: Ghost(Seq::empty()) }
    }

    /// Puts `elem` at position `pos`. Refused when `pos` is outside the array,
    /// or when it does not come after every position appended so far.
    pub fn append(&mut self, elem: String, pos: usize) -> (r: Result<(), BitIndexError>)
        requires
            old(self).wf(),
        ensures
            final(self).wf(),
            old(self).bits().len() <= pos ==> r == Err::<(), BitIndexError>(
                BitIndexError::InvalidPosition,
            ),
            pos < old(self).bits().len() && old(self).positions().len() > 0 && pos
                <= old(self).positions().last() ==> r == Err::<(), BitIndexError>(
                BitIndexError::PositionNotIncreasing,
            ),
            r is Ok <==> pos < old(self).bits().len() && (old(self).positions().len() == 0
                || old(self).positions().last() < pos),
            r is Ok ==> {
                &&& final(self).bits() == old(self).bits().update(pos as int, true)
                &&& final(self).values() == old(self).values().push(elem)
                &&& final(self).positions() == old(self).positions().push(pos as int)
            },
            r is Err ==> *final(self) == *old(self),
    {
        let n = self.bit_v.len();
        if pos >= n {
            return Err(BitIndexError::InvalidPosition);
        }
        if pos < self.next_pos {
            return Err(BitIndexError::PositionNotIncreasing);
        }
        let ghost old_bits = self.bit_v@;
        let ghost ps = self.positions@;
        let ghost next = self.next_pos as int;
        self.bit_v.set(pos, true);
        self.values.push(elem);
        self.positions = Ghost(ps.push(pos as int));
        self.next_pos = pos + 1;
        proof {
            let bits = self.bit_v@;
            assert forall|k: int| 0 <= k < ps.len() implies count(bits, 0, #[trigger] ps[k]) == k by {
                lemma_count_update_outside(old_bits, pos as int, true, 0, ps[k]);
            }
            lemma_count_update_outside(old_bits, pos as int, true, 0, pos as int);
            lemma_count_clear(old_bits, next, pos as int);
            lemma_count_split(old_bits, 0, next, pos as int);
            lemma_count_split(bits, 0, pos as int, pos + 1);
            lemma_count_update_outside(old_bits, pos as int, true, pos + 1, n as int);
            lemma_count_clear(old_bits, pos + 1, n as int);
            lemma_count_clear(old_bits, next, n as int);
            lemma_count_split(old_bits, 0, next, n as int);
            lemma_count_split(bits, 0, pos + 1, n as int);
            let nps = self.positions@;
            assert forall|k: int| 0 <= k < nps.len() implies {
                &&& 0 <= #[trigger] nps[k] < bits.len()
                &&& bits[nps[k]]
                &&& count(bits, 0, nps[k]) == k
            } by {
                if k < ps.len() {
                    assert(nps[k] == ps[k]);
                }
            }
        }
        Ok(())
    }

    /// Derives the select index over the presence bits and freezes the array.
    pub fn finalize(self) -> (r: SparseArray)
        requires
            self.wf(),
        ensures
            r.wf(),
            r.bits() == self.bits(),
            r.values() == self.values(),
            r.positions() == self.positions(),
    {
        SparseArray {
            values: self.values,
            select_support: SelectSupport::new(self.bit_v),
            positions: self.positions,
        }
    }
}

impl SparseArray {
    /// Presence bits over the logical array.
    pub closed spec fn bits(&self) -> Seq<bool> {
        self.select_support@
    }

    /// The values, in position order.
    pub closed spec fn values(&self) -> Seq<String> {
        self.values@
    }

    /// The positions of the values, in order.
    pub closed spec fn positions(&self) -> Seq<int> {
        self.positions@
    }

    /// The index is consistent and the `k`-th value sits at the `k`-th set bit.
    pub closed spec fn wf(&self) -> bool {
        &&& self.select_support.wf()
        &&& self.select_support@.len() <= MAX_BITS
        &&& self.positions@.len() == self.values@.len()
        &&& positions_are_ones(self.select_support@, self.positions@)
    }

    /// The value of rank `r` (counting from 0), into `elem`; false, with `elem`
    /// untouched, when there are no more than `r` values.
    pub fn get_at_rank(&self, r: usize, elem: &mut String) -> (found: bool)
        requires
            self.wf(),
        ensures
            found <==> r < self.values().len(),
            found ==> *final(elem) == self.values()[r as int],
            !found ==> *final(elem) == *old(elem),
    {
        if r < self.values.len() {
            *elem = self.values[r].clone();
            true
        } else {
            false
        }
    }

    /// The value at logical position `p`, into `elem`; false, with `elem`
    /// untouched, when no value is present there.
    pub fn get_at_index(&self, p: usize, elem: &mut String) -> (found: bool)
        requires
            self.wf(),
        ensures
            found <==> p < self.bits().len() && self.bits()[p as int],
            found ==> {
                let k = rank_of(self.bits(), p as int) as int;
                &&& k < self.values().len()
                &&& self.positions()[k] == p
                &&& *final(elem) == self.values()[k]
            },
            !found ==> *final(elem) == *old(elem),
    {
        let n = self.select_support.rank_support.len();
        if p >= n {
            return false;
        }
        let present = self.select_support.rank_support.bit_v.get(p);
        if present {
            let k = self.select_support.rank_support.rank1(p);
            proof {
                lemma_set_bit_is_listed(self.bits(), self.positions@, p as int);
            }
            *elem = self.values[k].clone();
        }
        present
    }

    /// Logical position of the `r`-th value, counting from 1; none when `r`
    /// is 0 or exceeds the number of values.
    pub fn get_index_of(&self, r: usize) -> (res: Option<usize>)
        requires
            self.wf(),
        ensures
            res is Some <==> 1 <= r <= self.values().len(),
            res matches Some(p) ==> {
                &&& p == self.positions()[r - 1]
                &&& p < self.bits().len()
                &&& self.bits()[p as int]
                &&& rank_of(self.bits(), p as int) == r - 1
            },
    {
        match self.select_support.select1(r) {
            Ok(p) => {
                proof {
                    lemma_set_bit_is_listed(self.bits(), self.positions@, p as int);
                }
                Some(p)
            },
            Err(_) => None,
        }
    }

    /// Number of values at positions `[0, p]`.
    pub fn num_elem_at(&self, p: usize) -> (r: usize)
        requires
            self.wf(),
            p < self.bits().len(),
        ensures
            r == rank_of(self.bits(), p + 1),
    {
        self.select_support.rank_support.rank1(p + 1)
    }

    /// Size in bits of the select index's tables plus the values' storage,
    /// as the heap holds them: at least a machine word per table entry, and
    /// for each value a (pointer, capacity, length) triplet of words and a
    /// byte per character, up to `usize::MAX`.
    pub fn size(&self) -> (r: usize)
        requires
            self.wf(),
        ensures
            r >= saturate(
                8 * word_bytes() * table_words_of(self.bits().len()) + 8 * (3 * word_bytes()
                    * self.values().len() + total_chars(self.values())),
            ),
    {
        let index_bits = self.select_support.overhead();
        let value_bytes = heap_bytes_of_strings(&self.values);
        proof {
            let wb = word_bytes();
            let w = table_words_of(self.bits().len());
            assert(8 * wb * w >= 0 && 8 * (3 * wb * self.values().len()) >= 0) by (nonlinear_arith);
        }
        bits_plus_bytes(index_bits, value_bytes)
    }

    /// The presence bits and the values, from which `from_parts` rebuilds
    /// the array.
    pub fn to_parts(&self) -> (r: (Vec<bool>, Vec<String>))
        requires
            self.wf(),
        ensures
            r.0@ == self.bits(),
            r.1@ == self.values(),
    {
        (self.select_support.rank_support.bit_v.to_bools(), self.values.clone())
    }

    /// The array whose presence bits are `bits` and whose values, in position
    /// order, are `values`; refused when the number of set bits differs from
    /// the number of values.
    pub fn from_parts(bits: &Vec<bool>, values: &Vec<String>) -> (r: Result<SparseArray, BitIndexError>)
        requires
            bits@.len() <= MAX_BITS,
        ensures
            r is Ok <==> count(bits@, 0, bits@.len() as int) == values@.len(),
            r matches Ok(a) ==> a.wf() && a.bits() == bits@ && a.values() == values@,
            r matches Err(e) ==> e == BitIndexError::MismatchedParts,
    {
        let n = bits.len();
        let mut builder = SparseArrayBuilder::create(n);
        let mut k: usize = 0;
        let mut q: usize = 0;
        while q < n
            invariant
                n == bits@.len(),
                q <= n,
                builder.wf(),
                builder.bits().len() == n,
                forall|x: int| 0 <= x < n ==> builder.bits()[x] == (x < q && bits@[x]),
                k == count(bits@, 0, q as int),
                k <= values@.len(),
                builder.values() == values@.take(k as int),
                forall|i: int| 0 <= i < builder.positions().len() ==> builder.positions()[i] < q,
            decreases n - q,
        {
            proof {
                lemma_count_split(bits@, 0, q as int, q + 1);
            }
            if bits[q] {
                if k >= values.len() {
                    proof {
                        lemma_count_monotonic(bits@, 0, q + 1, n as int);
                    }
                    return Err(BitIndexError::MismatchedParts);
                }
                let _ = builder.append(values[k].clone(), q);
                assert(builder.values() =~= values@.take(k + 1));
                k = k + 1;
            }
            q = q + 1;
        }
        if k != values.len() {
            return Err(BitIndexError::MismatchedParts);
        }
        assert(builder.bits() =~= bits@);
        assert(values@.take(k as int) =~= values@);
        Ok(builder.finalize())
    }

    /// Number of values present.
    pub fn num_elem(&self) -> (r: usize)
        requires
            self.wf(),
        ensures
            r == self.values().len(),
    {
        self.values.len()
    }
}


/// The values of a well-formed array sit at its set bits in order: the `k`-th
/// value's position is set and has rank `k`, so a lookup there finds that
/// value, and every set bit is the position of some value.
pub proof fn lemma_values_at_set_bits(a: &SparseArray, k: int, p: int)
    requires
        a.wf(),
    ensures
        count(a.bits(), 0, a.bits().len() as int) == a.values().len(),
        a.positions().len() == a.values().len(),
        0 <= k < a.values().len() ==> {
            &&& 0 <= a.positions()[k] < a.bits().len()
            &&& a.bits()[a.positions()[k]]
            &&& rank_of(a.bits(), a.positions()[k]) == k
        },
        0 <= p < a.bits().len() && a.bits()[p] ==> {
            let j = rank_of(a.bits(), p) as int;
            &&& 0 <= j < a.values().len()
            &&& a.positions()[j] == p
        },
        forall|i: int, j: int|
            0 <= i < j < a.positions().len() ==> a.positions()[i] < a.positions()[j],
{
    if 0 <= p < a.bits().len() && a.bits()[p] {
        lemma_set_bit_is_listed(a.bits(), a.positions(), p);
    }
    assert forall|i: int, j: int|
        0 <= i < j < a.positions().len() implies a.positions()[i] < a.positions()[j] by {
        let ps = a.positions();
        let bits = a.bits();
        if ps[j] <= ps[i] {
            lemma_count_split(bits, 0, ps[i], ps[i] + 1);
            lemma_count_monotonic(bits, 0, ps[j], ps[i]);
        }
    }
}

/// The positions appended to a builder increase strictly and lie within its
/// size; its presence bits are set exactly there, so their count is the number
/// of values, and a new position is accepted only past the last one.
pub proof fn lemma_builder_positions(b: &SparseArrayBuilder, q: int)
    requires
        b.wf(),
    ensures
        b.positions().len() == b.values().len(),
        count(b.bits(), 0, b.bits().len() as int) == b.values().len(),
        forall|i: int, j: int|
            0 <= i < j < b.positions().len() ==> b.positions()[i] < b.positions()[j],
        forall|k: int|
            0 <= k < b.positions().len() ==> 0 <= #[trigger] b.positions()[k] < b.bits().len()
                && b.bits()[b.positions()[k]],
        0 <= q < b.bits().len() ==> (b.bits()[q] <==> exists|k: int|
            0 <= k < b.positions().len() && b.positions()[k] == q),
        forall|k: int|
            0 <= k < b.positions().len() ==> #[trigger] b.positions()[k] <= b.positions().last(),
{
    let bits = b.bits();
    let ps = b.positions();
    assert forall|i: int, j: int| 0 <= i < j < ps.len() implies ps[i] < ps[j] by {
        if ps[j] <= ps[i] {
            lemma_count_split(bits, 0, ps[i], ps[i] + 1);
            lemma_count_monotonic(bits, 0, ps[j], ps[i]);
        }
    }
    if 0 <= q < bits.len() && bits[q] {
        lemma_set_bit_is_listed(bits, ps, q);
    }
    assert forall|k: int| 0 <= k < ps.len() implies #[trigger] ps[k] <= ps.last() by {
        if k < ps.len() - 1 {
            assert(ps[k] < ps[ps.len() - 1]);
        }
    }
}

/// An array rebuilt from the parts of another holds the same bits, values and
/// positions, so every query on it answers as on the array it came from.
pub proof fn lemma_parts_round_trip(a: &SparseArray, b: &SparseArray)
    requires
        a.wf(),
        b.wf(),
        b.bits() == a.bits(),
        b.values() == a.values(),
    ensures
        b.positions() == a.positions(),
{
    let ps = a.positions();
    let qs = b.positions();
    assert forall|k: int| 0 <= k < ps.len() implies qs[k] == ps[k] by {
        lemma_set_bit_is_listed(a.bits(), qs, ps[k]);
    }
    assert(qs =~= ps);
}

} // verus!
