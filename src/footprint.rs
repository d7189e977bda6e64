//! Memory accounting of the index tables.

use vstd::prelude::*;
use get_size::GetSize;

verus! {

/// Bytes in a machine word.
pub open spec fn word_bytes() -> nat {
    vstd::layout::size_of::<usize>()
}

/// `x`, or `usize::MAX` where `x` is larger.
pub open spec fn saturate(x: nat) -> nat {
    if x > usize::MAX {
        usize::MAX as nat
    } else {
        x
    }
}

/// Number of entries over all rows.
pub open spec fn total_len(rows: Seq<Vec<usize>>) -> nat
    decreases rows.len(),
{
    if rows.len() == 0 {
        0
    } else {
        total_len(rows.drop_last()) + rows.last()@.len()
    }
}

/// Number of characters over all strings.
pub open spec fn total_chars(v: Seq<String>) -> nat
    decreases v.len(),
{
    if v.len() == 0 {
        0
    } else {
        total_chars(v.drop_last()) + v.last()@.len()
    }
}

/// Rows of one length `w` hold `w` entries each.
pub proof fn lemma_total_len_uniform(rows: Seq<Vec<usize>>, w: nat)
    requires
        forall|k: int| 0 <= k < rows.len() ==> (#[trigger] rows[k])@.len() == w,
    ensures
        total_len(rows) == rows.len() * w,
    decreases rows.len(),
{
    if rows.len() > 0 {
        let front = rows.drop_last();
        assert forall|k: int| 0 <= k < front.len() implies (#[trigger] front[k])@.len() == w by {
            assert(front[k] == rows[k]);
        }
        lemma_total_len_uniform(front, w);
        assert(rows.len() * w == (rows.len() - 1) * w + w) by (nonlinear_arith);
    }
}

/// Relies on `GetSize::get_heap_size` of `Vec<usize>`: each element counts its
/// stack size, one word, and spare capacity counts too, so at least a word per
/// element. The exact value depends on the capacity the vector was given.
#[verifier::external_body]
pub(crate) fn heap_bytes_of_counts(v: &Vec<usize>) -> (r: usize)
    ensures
        r >= word_bytes() * v@.len(),
{
    v.get_heap_size()
}

/// Relies on `GetSize::get_heap_size` of `Vec<Vec<usize>>`: each row counts
/// its stack size, a (pointer, capacity, length) triplet of words, plus its
/// own heap bytes, at least a word per entry; spare capacity counts too.
#[verifier::external_body]
pub(crate) fn heap_bytes_of_rows(v: &Vec<Vec<usize>>) -> (r: usize)
    ensures
        r >= word_bytes() * (3 * v@.len() + total_len(v@)),
{
    v.get_heap_size()
}

/// Relies on `GetSize::get_heap_size` of `Vec<String>`: each string counts its
/// stack size, a (pointer, capacity, length) triplet of words, plus its
/// capacity in bytes, at least one byte per character; spare capacity counts
/// too.
#[verifier::external_body]
pub(crate) fn heap_bytes_of_strings(v: &Vec<String>) -> (r: usize)
    ensures
        r >= 3 * word_bytes() * v@.len() + total_chars(v@),
{
    v.get_heap_size()
}

/// Total size in bits of two byte counts, saturating at `usize::MAX`.
pub open spec fn bits_total(a: nat, b: nat) -> nat {
    saturate(8 * (a + b))
}

/// The number of bits in `a + b` bytes, or `usize::MAX` where that does not fit.
pub fn bits_of_bytes(a: usize, b: usize) -> (r: usize)
    ensures
        r == bits_total(a as nat, b as nat),
{
    match a.checked_add(b) {
        Some(t) => match t.checked_mul(8) {
            Some(bits) => bits,
            None => usize::MAX,
        },
        None => usize::MAX,
    }
}


/// `bits` plus `8 * bytes`, saturating at `usize::MAX`.
pub open spec fn bits_plus_bytes_total(bits: nat, bytes: nat) -> nat {
    saturate(bits + 8 * bytes)
}

/// A size in bits plus a size in bytes, in bits, or `usize::MAX` where that
/// does not fit.
pub fn bits_plus_bytes(bits: usize, bytes: usize) -> (r: usize)
    ensures
        r == bits_plus_bytes_total(bits as nat, bytes as nat),
{
    match bytes.checked_mul(8) {
        Some(b) => match bits.checked_add(b) {
            Some(t) => t,
            None => usize::MAX,
        },
        None => usize::MAX,
    }
}

} // verus!
