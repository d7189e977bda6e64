//! Constant-time rank over a bit sequence, by Jacobson's two-level table of
//! cumulative counts.

use vstd::prelude::*;
use vstd::arithmetic::div_mod::{lemma_div_is_ordered, lemma_fundamental_div_mod, lemma_mod_pos_bound};
use vstd::arithmetic::mul::{lemma_mul_inequality, lemma_mul_is_commutative};
use crate::BitVectorTools;
use crate::error::BitIndexError;
use crate::bits::{BitSeq, count, lemma_count_bound, lemma_count_monotonic, lemma_count_split};
use crate::footprint::{
    bits_of_bytes, heap_bytes_of_counts, heap_bytes_of_rows, lemma_total_len_uniform, total_len,
    word_bytes,
};

verus! {

/// Chunk and subchunk size used for sequences too short for a logarithm to
/// give a usable size: a single partial chunk, answered by popcount alone.
pub const SMALL_BLOCK: usize = 4;

/// Integer base-2 logarithm, rounded down (0 for 0 and 1).
pub open spec fn log2_floor(n: nat) -> nat
    decreases n,
{
    if n <= 1 {
        0
    } else {
        1 + log2_floor(n / 2)
    }
}

/// Chunk size for a sequence of `n` bits: `floor(log2 n)^2`, the square of
/// the integer logarithm. The floor of the real logarithm's square would need
/// floating point; the two agree where `n` is a power of two and differ by less
/// than `2 * log2 n + 1` elsewhere. `SMALL_BLOCK` for fewer than 4 bits, so
/// that no chunk is full.
pub open spec fn chunk_size(n: nat) -> nat {
    let lg = log2_floor(n);
    if lg < 2 {
        SMALL_BLOCK as nat
    } else {
        lg * lg
    }
}

/// Subchunk size for a sequence of `n` bits: half of `log2(n)` rounded down,
/// itself rounded down; `SMALL_BLOCK` for fewer than 4 bits.
pub open spec fn subchunk_size(n: nat) -> nat {
    let lg = log2_floor(n);
    if lg < 2 {
        SMALL_BLOCK as nat
    } else {
        lg / 2
    }
}

/// Number of full chunks.
pub open spec fn num_chunks(n: nat) -> nat {
    n / chunk_size(n)
}

/// Number of whole subchunks in a chunk.
pub open spec fn num_subchunks(n: nat) -> nat {
    chunk_size(n) / subchunk_size(n)
}

/// Entry `j` of the subchunk row of a chunk starting at `start`: the set bits
/// from `start` up to the start of subchunk `j`, or 0 where that subchunk
/// starts past the end of `bits`.
pub open spec fn boundary_count(bits: Seq<bool>, start: int, j: int, ss: int) -> nat {
    if start + j * ss <= bits.len() {
        count(bits, start, start + j * ss)
    } else {
        0
    }
}

/// End of the chunk of size `cs` starting at `start`, cut at the end of `bits`.
pub open spec fn chunk_end(bits: Seq<bool>, start: int, cs: int) -> int {
    if start + cs <= bits.len() {
        start + cs
    } else {
        bits.len() as int
    }
}

/// The tables hold the cumulative counts of `bits`: entry `k` of `chunks`
/// counts the set bits before chunk `k`. Row `k` of `subs` has one entry per
/// subchunk boundary of chunk `k` (see `boundary_count`), then a last entry
/// counting the set bits of the whole chunk, up to its end or the end of
/// `bits`. The last row is the partial chunk at the end.
pub open spec fn tables_match(bits: Seq<bool>, chunks: Seq<usize>, subs: Seq<Vec<usize>>) -> bool {
    let n = bits.len();
    let cs = chunk_size(n);
    let ss = subchunk_size(n);
    let nc = num_chunks(n);
    let ns = num_subchunks(n);
    &&& chunks.len() == nc + 1
    &&& subs.len() == nc + 1
    &&& forall|k: int| 0 <= k <= nc ==> chunks[k] == count(bits, 0, k * cs)
    &&& forall|k: int| 0 <= k <= nc ==> (#[trigger] subs[k])@.len() == ns + 2
    &&& forall|k: int, j: int|
        0 <= k <= nc && 0 <= j <= ns ==> (#[trigger] subs[k]@[j]) == boundary_count(
            bits,
            k * cs,
            j,
            ss as int,
        )
    &&& forall|k: int|
        0 <= k <= nc ==> (#[trigger] subs[k])@[ns + 1 as int] == count(
            bits,
            k * cs,
            chunk_end(bits, k * cs, cs as int),
        )
}

/// Number of words in the tables of a sequence of `n` bits: one chunk count
/// and one row of `num_subchunks(n) + 2` entries for each chunk, the partial
/// chunk at the end included.
pub open spec fn table_words_of(n: nat) -> nat {
    (num_chunks(n) + 1) * (num_subchunks(n) + 3)
}

/// Number of set bits before position `i`.
pub open spec fn rank_of(bits: Seq<bool>, i: int) -> nat {
    count(bits, 0, i)
}

proof fn lemma_log2_bound(n: nat, k: nat)
    requires
        n < vstd::arithmetic::power2::pow2(k),
        k >= 1,
    ensures
        log2_floor(n) < k,
    decreases n,
{
    if n > 1 {
        vstd::arithmetic::power2::lemma_pow2_unfold(k);
        if k == 1 {
            vstd::arithmetic::power2::lemma2_to64();
        } else {
            lemma_log2_bound(n / 2, (k - 1) as nat);
        }
    }
}

/// Both block sizes are positive, and a subchunk fits in a chunk.
pub proof fn lemma_block_sizes_positive(n: nat)
    ensures
        4 <= chunk_size(n),
        1 <= subchunk_size(n) <= chunk_size(n),
{
    let lg = log2_floor(n);
    if lg >= 2 {
        assert(4 <= lg * lg && lg / 2 <= lg * lg) by (nonlinear_arith)
            requires
                2 <= lg,
        ;
    }
}

/// The chunk and subchunk sizes for a sequence of `n` bits.
pub fn block_sizes(n: usize) -> (r: (usize, usize))
    ensures
        r.0 == chunk_size(n as nat),
        r.1 == subchunk_size(n as nat),
        1 <= r.1 <= r.0 <= 4096,
        4 <= r.0,
{
    proof {
        vstd::arithmetic::power2::lemma2_to64();
        lemma_log2_bound(n as nat, 64);
    }
    let mut m: usize = n;
    let mut lg: usize = 0;
    while m > 1
        invariant
            lg + log2_floor(m as nat) == log2_floor(n as nat),
            log2_floor(n as nat) < 64,
        decreases m,
    {
        m = m / 2;
        lg = lg + 1;
    }
    if lg < 2 {
        (SMALL_BLOCK, SMALL_BLOCK)
    } else {
        assert(4 <= lg * lg <= 4096 && lg / 2 <= lg * lg) by (nonlinear_arith)
            requires
                2 <= lg < 64,
        ;
        (lg * lg, lg / 2)
    }
}

/// `q * d` never passes `x` when `q` is the quotient of `x` by `d`.
proof fn lemma_quotient_times(x: int, d: int)
    requires
        0 <= x,
        0 < d,
    ensures
        (x / d) * d <= x,
        x < (x / d) * d + d,
        0 <= x / d,
{
    lemma_fundamental_div_mod(x, d);
    lemma_mod_pos_bound(x, d);
    lemma_mul_is_commutative(d, x / d);
    lemma_div_is_ordered(0, x, d);
}

/// Where position `i` falls in the tables: its chunk, its subchunk within the
/// chunk, and the start of that subchunk, which is at most `i`.
proof fn lemma_locate(i: int, n: int, cs: int, ss: int)
    requires
        0 <= i <= n,
        1 <= ss <= cs,
    ensures
        i / cs <= n / cs,
        (i % cs) / ss <= cs / ss,
        (i / cs) * cs + ((i % cs) / ss) * ss <= i,
        0 <= i / cs,
        0 <= (i % cs) / ss,
{
    lemma_div_is_ordered(i, n, cs);
    lemma_fundamental_div_mod(i, cs);
    lemma_mod_pos_bound(i, cs);
    lemma_mul_is_commutative(cs, i / cs);
    lemma_div_is_ordered(i % cs, cs, ss);
    lemma_quotient_times(i % cs, ss);
    lemma_div_is_ordered(0, i, cs);
}

/// The row of cumulative counts of the chunk of size `cs` starting at
/// `start`: one entry per subchunk boundary, 0 past the end of the sequence,
/// then the count of the whole chunk.
fn subchunk_row(b: &BitSeq, start: usize, cs: usize, ss: usize, ns: usize) -> (row: Vec<usize>)
    requires
        start <= b@.len(),
        1 <= ss,
        ns * ss <= cs <= 4096,
    ensures
        row@.len() == ns + 2,
        forall|j: int|
            0 <= j <= ns ==> #[trigger] row@[j] == boundary_count(
                b@,
                start as int,
                j,
                ss as int,
            ),
        row@[ns + 1] == count(b@, start as int, chunk_end(b@, start as int, cs as int)),
{
    let n = b.len();
    assert(ns <= 4096) by (nonlinear_arith)
        requires
            ns * ss <= 4096,
            1 <= ss,
    ;
    let mut row: Vec<usize> = Vec::with_capacity(ns + 2);
    row.push(0);
    let mut sum: usize = 0;
    let mut j: usize = 0;
    while j < ns
        invariant
            n == b@.len(),
            start <= n,
            1 <= ss,
            ns * ss <= 4096,
            j <= ns,
            row@.len() == j + 1,
            start + j * ss <= n ==> sum == count(b@, start as int, start + j * ss),
            forall|q: int|
                0 <= q <= j ==> #[trigger] row@[q] == boundary_count(
                    b@,
                    start as int,
                    q,
                    ss as int,
                ),
        decreases ns - j,
    {
        assert((j + 1) * ss <= 4096 && j * ss + ss == (j + 1) * ss) by (nonlinear_arith)
            requires
                j < ns,
                ns * ss <= 4096,
                1 <= ss,
        ;
        let off_end: usize = (j + 1) * ss;
        if off_end <= n - start {
            let lo: usize = start + (off_end - ss);
            let hi: usize = start + off_end;
            let c = b.count_ones(lo, hi);
            proof {
                lemma_count_split(b@, start as int, lo as int, hi as int);
                lemma_count_bound(b@, start as int, hi as int);
            }
            sum = sum + c;
            row.push(sum);
        } else {
            row.push(0);
        }
        j = j + 1;
    }
    let end: usize = if cs <= n - start {
        start + cs
    } else {
        n
    };
    row.push(b.count_ones(start, end));
    row
}

/// A bit sequence with its rank tables.
pub struct RankSupport {
    pub bit_v: BitSeq,
    pub rank_struct: (Vec<usize>, Vec<Vec<usize>>),
}

impl RankSupport {
    /// Builds the chunk and subchunk tables of cumulative counts for `bit_v`.
    pub fn create_rank_structure(bit_v: &BitSeq) -> (r: (Vec<usize>, Vec<Vec<usize>>))
        ensures
            tables_match(bit_v@, r.0@, r.1@),
    {
        let n = bit_v.len();
        let (cs, ss) = block_sizes(n);
        let nc: usize = n / cs;
        let ns: usize = cs / ss;
        proof {
            lemma_quotient_times(n as int, cs as int);
            lemma_quotient_times(cs as int, ss as int);
        }
        assert(nc < n || n == 0) by (nonlinear_arith)
            requires
                nc * cs <= n,
                4 <= cs,
        ;
        let mut rank_vec: Vec<usize> = Vec::with_capacity(nc + 1);
        rank_vec.push(0);
        let mut rank_array: Vec<Vec<usize>> = Vec::with_capacity(nc + 1);
        let mut sum_rank: usize = 0;
        let mut i: usize = 0;
        while i < nc
            invariant
                n == bit_v@.len(),
                cs == chunk_size(n as nat),
                ss == subchunk_size(n as nat),
                nc == num_chunks(n as nat),
                ns == num_subchunks(n as nat),
                1 <= ss <= cs <= 4096,
                nc * cs <= n,
                ns * ss <= cs,
                i <= nc,
                rank_vec@.len() == i + 1,
                rank_array@.len() == i,
                sum_rank == count(bit_v@, 0, i * cs),
                forall|k: int| 0 <= k <= i ==> #[trigger] rank_vec@[k] == count(bit_v@, 0, k * cs),
                forall|k: int| 0 <= k < i ==> (#[trigger] rank_array@[k])@.len() == ns + 2,
                forall|k: int, j: int|
                    0 <= k < i && 0 <= j <= ns ==> (#[trigger] rank_array@[k]@[j])
                        == boundary_count(bit_v@, k * cs, j, ss as int),
                forall|k: int|
                    0 <= k < i ==> (#[trigger] rank_array@[k])@[ns + 1] == count(
                        bit_v@,
                        k * cs,
                        chunk_end(bit_v@, k * cs, cs as int),
                    ),
            decreases nc - i,
        {
            proof {
                lemma_mul_inequality(i + 1, nc as int, cs as int);
            }
            assert((i + 1) * cs == i * cs + cs) by (nonlinear_arith);
            let start: usize = i * cs;
            let end: usize = start + cs;
            let c = bit_v.count_ones(start, end);
            proof {
                lemma_count_split(bit_v@, 0, start as int, end as int);
                lemma_count_bound(bit_v@, 0, end as int);
            }
            sum_rank = sum_rank + c;
            rank_vec.push(sum_rank);
            let row = subchunk_row(bit_v, start, cs, ss, ns);
            rank_array.push(row);
            i = i + 1;
        }
        let row = subchunk_row(bit_v, nc * cs, cs, ss, ns);
        rank_array.push(row);
        (rank_vec, rank_array)
    }

    /// The tables are those of the bits.
    pub open spec fn wf(&self) -> bool {
        tables_match(self.bit_v@, self.rank_struct.0@, self.rank_struct.1@)
    }

    /// The bits indexed.
    pub open spec fn view(&self) -> Seq<bool> {
        self.bit_v@
    }

    /// Number of bits indexed.
    pub fn len(&self) -> (r: usize)
        ensures
            r == self@.len(),
    {
        self.bit_v.len()
    }

    /// Number of set bits in positions `[0, i)`.
    pub fn rank1(&self, i: usize) -> (r: usize)
        requires
            self.wf(),
            i <= self@.len(),
        ensures
            r == rank_of(self@, i as int),
    {
        let n = self.bit_v.len();
        let (cs, ss) = block_sizes(n);
        let chunk_loc: usize = i / cs;
        let subchunk_loc: usize = (i % cs) / ss;
        proof {
            lemma_locate(i as int, n as int, cs as int, ss as int);
            lemma_mul_inequality(chunk_loc as int, (n / cs) as int, cs as int);
            lemma_quotient_times(n as int, cs as int);
            lemma_mul_inequality(subchunk_loc as int, (cs / ss) as int, ss as int);
            lemma_quotient_times(cs as int, ss as int);
        }
        let chunk_start: usize = chunk_loc * cs;
        let start: usize = chunk_start + subchunk_loc * ss;
        let within = self.bit_v.count_ones(start, i);
        let before_chunk = self.rank_struct.0[chunk_loc];
        let before_sub = self.rank_struct.1[chunk_loc][subchunk_loc];
        proof {
            lemma_count_split(self@, 0, chunk_start as int, start as int);
            lemma_count_split(self@, 0, start as int, i as int);
            lemma_count_bound(self@, 0, i as int);
        }
        before_chunk + before_sub + within
    }

    /// Number of set bits in positions `[0, i)`; refused when `i` lies past
    /// the end of the sequence.
    pub fn checked_rank1(&self, i: usize) -> (r: Result<usize, BitIndexError>)
        requires
            self.wf(),
        ensures
            r is Ok <==> i <= self@.len(),
            r matches Ok(v) ==> v == rank_of(self@, i as int),
            r matches Err(e) ==> e == BitIndexError::OutOfRange,
    {
        if i > self.len() {
            Err(BitIndexError::OutOfRange)
        } else {
            Ok(self.rank1(i))
        }
    }
}

impl BitVectorTools for RankSupport {
    open spec fn ready(&self) -> bool {
        self.wf()
    }

    open spec fn indexed(&self) -> Seq<bool> {
        self.bit_v@
    }

    open spec fn table_words(&self) -> nat {
        table_words_of(self@.len())
    }

    fn new(bit_v: BitSeq) -> (r: RankSupport) {
        let rank_struct = RankSupport::create_rank_structure(&bit_v);
        RankSupport { bit_v, rank_struct }
    }

    fn overhead(&self) -> (r: usize) {
        let chunk_bytes = heap_bytes_of_counts(&self.rank_struct.0);
        let row_bytes = heap_bytes_of_rows(&self.rank_struct.1);
        proof {
            lemma_table_words(self);
            let wb = word_bytes();
            let c = self.rank_struct.0@.len();
            let rows = self.rank_struct.1@.len();
            let t = total_len(self.rank_struct.1@);
            assert(wb * c + wb * (3 * rows + t) >= wb * (c + t)) by (nonlinear_arith);
            assert(8 * (chunk_bytes + row_bytes) >= 8 * wb * (c + t)) by (nonlinear_arith)
                requires
                    chunk_bytes + row_bytes >= wb * (c + t),
            ;
        }
        bits_of_bytes(chunk_bytes, row_bytes)
    }
}


/// Rank starts at 0, never decreases, and ends at the number of set bits.
pub proof fn lemma_rank_monotonic(bits: Seq<bool>, i: int, j: int)
    requires
        0 <= i <= j <= bits.len(),
    ensures
        rank_of(bits, 0) == 0,
        rank_of(bits, i) <= rank_of(bits, j),
        rank_of(bits, bits.len() as int) == count(bits, 0, bits.len() as int),
{
    lemma_count_monotonic(bits, 0, i, j);
}

/// The tables of a well-formed index hold `table_words_of(n)` words.
pub proof fn lemma_table_words(r: &RankSupport)
    requires
        r.wf(),
    ensures
        r.rank_struct.0@.len() + total_len(r.rank_struct.1@) == table_words_of(r@.len()),
{
    let n = r@.len();
    lemma_total_len_uniform(r.rank_struct.1@, num_subchunks(n) + 2);
    let nc = num_chunks(n);
    let ns = num_subchunks(n);
    assert((nc + 1) + (nc + 1) * (ns + 2) == (nc + 1) * (ns + 3)) by (nonlinear_arith);
}

proof fn lemma_pow2_log2(n: nat)
    requires
        n >= 1,
    ensures
        vstd::arithmetic::power2::pow2(log2_floor(n)) <= n,
        n < 2 * vstd::arithmetic::power2::pow2(log2_floor(n)),
    decreases n,
{
    vstd::arithmetic::power2::lemma2_to64();
    if n > 1 {
        vstd::arithmetic::power2::lemma_pow2_unfold(log2_floor(n));
        lemma_pow2_log2(n / 2);
    }
}

proof fn lemma_square_below_pow2(k: nat)
    requires
        k >= 4,
    ensures
        k * k <= vstd::arithmetic::power2::pow2(k),
    decreases k,
{
    vstd::arithmetic::power2::lemma2_to64();
    if k == 4 {
        assert(k * k == 16) by (nonlinear_arith)
            requires
                k == 4,
        ;
    }
    if k > 4 {
        let j = (k - 1) as nat;
        lemma_square_below_pow2(j);
        vstd::arithmetic::power2::lemma_pow2_unfold(k);
        assert(k * k <= 2 * (j * j)) by (nonlinear_arith)
            requires
                k > 4,
                j == k - 1,
        ;
        assert(2 * (j * j) <= 2 * vstd::arithmetic::power2::pow2(j));
    }
}

/// The tables grow slower than the sequence: with `L = log2 n` rounded down,
/// they hold at most `8 n / L` words, so the words per bit fall towards zero
/// as `n` grows.
pub proof fn lemma_table_words_sublinear(n: nat)
    requires
        n >= 16,
    ensures
        table_words_of(n) * log2_floor(n) <= 8 * n,
{
    let lg = log2_floor(n);
    lemma_pow2_log2(n);
    vstd::arithmetic::power2::lemma2_to64();
    if lg < 4 {
        vstd::arithmetic::power2::lemma_pow2_strictly_increases(lg, 4);
    }
    assert(lg >= 4);
    lemma_square_below_pow2(lg);
    let cs = chunk_size(n);
    let ss = subchunk_size(n);
    let nc = num_chunks(n);
    let ns = num_subchunks(n);
    lemma_block_sizes_positive(n);
    assert(cs == lg * lg && ss == lg / 2);
    assert(cs <= n);
    lemma_quotient_times(n as int, cs as int);
    lemma_quotient_times(cs as int, ss as int);
    assert(ns <= 3 * lg) by (nonlinear_arith)
        requires
            ns * ss <= lg * lg,
            ss == lg / 2,
            lg >= 4,
    ;
    assert((nc + 1) * cs <= 2 * n) by (nonlinear_arith)
        requires
            nc * cs <= n,
            cs <= n,
    ;
    assert((nc + 1) * (ns + 3) * lg <= 8 * n) by (nonlinear_arith)
        requires
            (nc + 1) * (lg * lg) <= 2 * n,
            ns <= 3 * lg,
            lg >= 4,
    ;
}

/// The chunk count plus the last entry of the chunk's row is the number of set
/// bits through the end of the chunk (or of the sequence, for the partial
/// chunk at the end); for a full chunk that is the next chunk count.
pub proof fn lemma_chunk_totals(bits: Seq<bool>, chunks: Seq<usize>, subs: Seq<Vec<usize>>, k: int)
    requires
        tables_match(bits, chunks, subs),
        0 <= k <= num_chunks(bits.len()),
    ensures
        chunks[k] + subs[k]@.last() == count(
            bits,
            0,
            chunk_end(bits, k * chunk_size(bits.len()), chunk_size(bits.len()) as int),
        ),
        k < num_chunks(bits.len()) ==> chunks[k] + subs[k]@.last() == chunks[k + 1],
{
    let n = bits.len();
    let cs = chunk_size(n);
    let nc = num_chunks(n);
    lemma_block_sizes_positive(n);
    lemma_quotient_times(n as int, cs as int);
    lemma_mul_inequality(k, nc as int, cs as int);
    assert((k + 1) * cs == k * cs + cs) by (nonlinear_arith);
    if k < nc {
        lemma_mul_inequality(k + 1, nc as int, cs as int);
    }
    lemma_count_split(bits, 0, k * cs, chunk_end(bits, k * cs, cs as int));
}

/// The tables are determined by the bits: any two that match the same bits
/// hold the same counts, row by row.
pub proof fn lemma_tables_determined(
    bits: Seq<bool>,
    chunks_a: Seq<usize>,
    subs_a: Seq<Vec<usize>>,
    chunks_b: Seq<usize>,
    subs_b: Seq<Vec<usize>>,
)
    requires
        tables_match(bits, chunks_a, subs_a),
        tables_match(bits, chunks_b, subs_b),
    ensures
        chunks_a == chunks_b,
        subs_a.len() == subs_b.len(),
        forall|k: int| 0 <= k < subs_a.len() ==> (#[trigger] subs_a[k])@ == subs_b[k]@,
{
    let ns = num_subchunks(bits.len());
    assert(chunks_a =~= chunks_b);
    assert forall|k: int| 0 <= k < subs_a.len() implies (#[trigger] subs_a[k])@ == subs_b[k]@ by {
        assert forall|j: int| 0 <= j < ns + 2 implies subs_a[k]@[j] == subs_b[k]@[j] by {
            if j <= ns {
                assert(subs_a[k]@[j] == subs_b[k]@[j]);
            }
        }
        assert(subs_a[k]@ =~= subs_b[k]@);
    }
}

/// Two indexes over the same bits hold the same tables and answer every rank
/// query alike: an index rebuilt from saved bits is interchangeable with the
/// one saved.
pub proof fn lemma_rank_rebuilt(a: &RankSupport, b: &RankSupport, i: int)
    requires
        a.wf(),
        b.wf(),
        b@ == a@,
        0 <= i <= a@.len(),
    ensures
        rank_of(b@, i) == rank_of(a@, i),
        b.rank_struct.0@ == a.rank_struct.0@,
        b.rank_struct.1@.len() == a.rank_struct.1@.len(),
        forall|k: int|
            0 <= k < a.rank_struct.1@.len() ==> (#[trigger] b.rank_struct.1@[k])@
                == a.rank_struct.1@[k]@,
{
    lemma_tables_determined(a@, a.rank_struct.0@, a.rank_struct.1@, b.rank_struct.0@, b.rank_struct.1@);
}

} // verus!
