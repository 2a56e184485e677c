//! Numerical rank, determinant sign and `ln|det|` by Gaussian elimination with
//! partial pivoting.
use vstd::prelude::*;
use crate::ieee::{
    self, FloatArithmetic, deterministic, logarithm_of, sum_of, product_of, difference_of, quotient_of, float_le, float_lt, is_nan, is_negative, is_valid_tolerance,
    magnitude, ZERO,
};
use crate::matrix::{
    Matrix, MatrixError, MAX_ORDER, auto_tolerance_of, lemma_auto_tolerance_unique, lemma_index_bound, lemma_index_split,
    lemma_row_col,
};
use rayon::iter::ParallelIterator;
use rayon::slice::ParallelSliceMut;

verus! {

/// From this order on, the rows below a pivot are eliminated in parallel ...
pub const PARALLEL_THRESHOLD: usize = 192;

/// ... provided that at least this many rows lie below it.
pub const PARALLEL_MIN_ROWS: usize = 8;

/// What elimination found out about a matrix.
#[derive(Debug, Clone, Copy)]
pub struct Analysis {
    /// The order of the analysed matrix.
    pub order: usize,
    /// The number of pivots whose magnitude exceeded the tolerance.
    pub rank: usize,
    /// `order - rank`.
    pub nullity: usize,
    /// `rank < order`.
    pub singular: bool,
    /// The tolerance used (bit pattern of a binary64 value).
    pub tolerance: u64,
    /// How many row exchanges partial pivoting made.
    pub row_swaps: usize,
    /// The sign of the determinant: 0 when singular, else -1 or 1.
    pub determinant_sign: i8,
    /// The sum of `ln|pivot|` over the pivots (bit pattern), when not singular.
    pub log_abs_determinant: Option<u64>,
}

/// The row that partial pivoting picks in column `col` among rows `lo..hi`:
/// rows are scanned downwards and a row replaces the current choice only when
/// its magnitude is strictly greater.
pub open spec fn pivot_scan(s: Seq<u64>, n: int, col: int, lo: int, hi: int) -> int
    decreases hi - lo,
{
    if hi <= lo + 1 {
        lo
    } else {
        let best = pivot_scan(s, n, col, lo, hi - 1);
        if float_lt(magnitude(s[best * n + col]), magnitude(s[(hi - 1) * n + col])) {
            hi - 1
        } else {
            best
        }
    }
}

/// `v` is `target - factor * pivot_entry`.
pub open spec fn reduced_value<A: FloatArithmetic>(arith: &A, target: u64, factor: u64, pivot_entry: u64, v: u64) -> bool {
    exists|product: u64|
        #[trigger] product_of(arith, factor, pivot_entry, product) && difference_of(arith, target, product, v)
}

/// The flat range `[start, start + n)` of `new` is the row of `old` reduced
/// against the pivot `pivot` in column `pc` of the row `pivot_row`: that column
/// becomes `+0.0` and the columns before it are kept; when the entry in that
/// column was already within the tolerance the columns after it are kept too,
/// and otherwise each of them is `entry - (value / pivot) * pivot_row entry`.
pub open spec fn segment_reduced<A: FloatArithmetic>(
    arith: &A,
    old: Seq<u64>,
    new: Seq<u64>,
    start: int,
    n: int,
    pc: int,
    tol: u64,
    pivot: u64,
    pivot_row: Seq<u64>,
) -> bool {
    &&& new[start + pc] == ZERO
    &&& forall|i: int| start <= i < start + pc ==> #[trigger] new[i] == old[i]
    &&& float_le(magnitude(old[start + pc]), tol) ==> forall|i: int|
        start + pc < i < start + n ==> #[trigger] new[i] == old[i]
    &&& !float_le(magnitude(old[start + pc]), tol) ==> exists|factor: u64|
        #[trigger] quotient_of(arith, old[start + pc], pivot, factor) && forall|i: int|
            start + pc < i < start + n ==> #[trigger] reduced_value(arith, old[i], factor, pivot_row[i - start], new[i])
}

/// Rows `first..n` of the order-`n` entries `new` are those of `old` reduced
/// against `pivot` in column `pc` of `pivot_row`; the rows above are unchanged.
pub open spec fn rows_reduced<A: FloatArithmetic>(
    arith: &A,
    old: Seq<u64>,
    new: Seq<u64>,
    n: int,
    first: int,
    pc: int,
    tol: u64,
    pivot: u64,
    pivot_row: Seq<u64>,
) -> bool {
    &&& new.len() == old.len()
    &&& forall|i: int| 0 <= i < first * n ==> #[trigger] new[i] == old[i]
    &&& forall|r: int|
        first <= r < n ==> #[trigger] segment_reduced(arith, old, new, r * n, n, pc, tol, pivot, pivot_row)
}

/// The entries `s` of an order-`n` matrix with rows `a` and `b` exchanged.
pub open spec fn rows_swapped(s: Seq<u64>, n: int, a: int, b: int) -> Seq<u64> {
    Seq::new(
        s.len(),
        |i: int|
            if i / n == a {
                s[b * n + i % n]
            } else if i / n == b {
                s[a * n + i % n]
            } else {
                s[i]
            },
    )
}

/// Every entry lies within the tolerance in magnitude.
pub open spec fn all_within(s: Seq<u64>, tol: u64) -> bool {
    forall|i: int| 0 <= i < s.len() ==> float_le(magnitude(#[trigger] s[i]), tol)
}

/// Upper triangular (every entry below the diagonal is a zero of either sign)
/// with every diagonal entry larger than the tolerance in magnitude.
pub open spec fn triangular_above_tolerance(s: Seq<u64>, n: int, tol: u64) -> bool {
    &&& forall|r: int, c: int| 0 <= c < r < n ==> magnitude(#[trigger] s[r * n + c]) == 0
    &&& forall|i: int| 0 <= i < n ==> float_lt(tol, magnitude(#[trigger] s[i * n + i]))
}

/// How many of the first `k` diagonal entries are negative.
pub open spec fn negative_diagonal_count(s: Seq<u64>, n: int, k: int) -> nat
    decreases k,
{
    if k <= 0 {
        0
    } else {
        negative_diagonal_count(s, n, k - 1) + if is_negative(s[(k - 1) * n + (k - 1)]) {
            1nat
        } else {
            0nat
        }
    }
}

/// `-1` raised to the number of negative diagonal entries among the first `k`.
pub open spec fn diagonal_sign(s: Seq<u64>, n: int, k: int) -> i8 {
    if negative_diagonal_count(s, n, k) % 2 == 0 {
        1i8
    } else {
        -1i8
    }
}

proof fn lemma_pivot_scan_range(s: Seq<u64>, n: int, col: int, lo: int, hi: int)
    requires
        lo < hi,
    ensures
        lo <= pivot_scan(s, n, col, lo, hi) < hi,
    decreases hi - lo,
{
    if hi > lo + 1 {
        lemma_pivot_scan_range(s, n, col, lo, hi - 1);
    }
}

/// When the rows after `lo` hold zeros in the column and row `lo` holds a
/// number there, the scan keeps row `lo`.
proof fn lemma_pivot_scan_keeps_first(s: Seq<u64>, n: int, col: int, lo: int, hi: int)
    requires
        lo < hi,
        !is_nan(magnitude(s[lo * n + col])),
        forall|r: int| lo < r < hi ==> magnitude(#[trigger] s[r * n + col]) == 0,
    ensures
        pivot_scan(s, n, col, lo, hi) == lo,
    decreases hi - lo,
{
    if hi > lo + 1 {
        lemma_pivot_scan_keeps_first(s, n, col, lo, hi - 1);
        assert(magnitude(s[(hi - 1) * n + col]) == 0);
    }
}

/// The row the scan picks is never smaller in magnitude than another row of
/// the range, when none of them holds a NaN in the column.
proof fn lemma_pivot_scan_largest(s: Seq<u64>, n: int, col: int, lo: int, hi: int, r: int)
    requires
        lo <= r < hi,
        forall|k: int| lo <= k < hi ==> !is_nan(magnitude(#[trigger] s[k * n + col])),
    ensures
        !float_lt(magnitude(s[pivot_scan(s, n, col, lo, hi) * n + col]), magnitude(s[r * n + col])),
    decreases hi - lo,
{
    if hi > lo + 1 {
        let best = pivot_scan(s, n, col, lo, hi - 1);
        lemma_pivot_scan_range(s, n, col, lo, hi - 1);
        if r < hi - 1 {
            lemma_pivot_scan_largest(s, n, col, lo, hi - 1, r);
        }
        assert(!is_nan(magnitude(s[best * n + col])));
        assert(!is_nan(magnitude(s[(hi - 1) * n + col])));
    }
}

/// No entry is a NaN.
pub open spec fn no_nan(s: Seq<u64>) -> bool {
    forall|i: int| 0 <= i < s.len() ==> !is_nan(#[trigger] s[i])
}

/// Picks the pivot row for column `col` among rows `lo..n` and returns it with
/// the magnitude of its entry in that column.
fn select_pivot(work: &Vec<u64>, n: usize, lo: usize, col: usize) -> (r: (usize, u64))
    requires
        n <= MAX_ORDER,
        work@.len() == n * n,
        lo < n,
        col < n,
    ensures
        r.0 == pivot_scan(work@, n as int, col as int, lo as int, n as int),
        lo <= r.0 < n,
        r.1 == magnitude(work@[r.0 * n + col]),
{
    proof {
        lemma_index_bound(n as int, lo as int, col as int);
    }
    let mut best_row = lo;
    let mut best_abs = ieee::abs(work[lo * n + col]);
    let mut row = lo + 1;
    while row < n
        invariant
            n <= MAX_ORDER,
            work@.len() == n * n,
            lo < row <= n,
            col < n,
            best_row == pivot_scan(work@, n as int, col as int, lo as int, row as int),
            lo <= best_row < row,
            best_abs == magnitude(work@[best_row * n + col]),
        decreases n - row,
    {
        proof {
            lemma_index_bound(n as int, row as int, col as int);
            lemma_index_bound(n as int, best_row as int, col as int);
        }
        let candidate = ieee::abs(work[row * n + col]);
        if ieee::lt(best_abs, candidate) {
            best_abs = candidate;
            best_row = row;
        }
        row = row + 1;
    }
    (best_row, best_abs)
}

/// Exchanges rows `a` and `b` of the order-`n` entries `data`.
fn swap_rows(data: &mut Vec<u64>, n: usize, a: usize, b: usize)
    requires
        n <= MAX_ORDER,
        old(data)@.len() == n * n,
        a < n,
        b < n,
    ensures
        final(data)@ == rows_swapped(old(data)@, n as int, a as int, b as int),
{
    let ghost before = data@;
    let ghost ni = n as int;
    if a == b {
        assert forall|i: int| 0 <= i < before.len() implies #[trigger] rows_swapped(
            before,
            ni,
            a as int,
            b as int,
        )[i] == before[i] by {
            lemma_index_split(ni, i);
        }
        assert(data@ =~= rows_swapped(before, ni, a as int, b as int));
        return;
    }
    let mut col: usize = 0;
    while col < n
        invariant
            ni == n,
            n <= MAX_ORDER,
            a < n,
            b < n,
            a != b,
            col <= n,
            before.len() == ni * ni,
            data@.len() == ni * ni,
            forall|i: int|
                0 <= i < ni * ni ==> #[trigger] data@[i] == if i % ni < col {
                    rows_swapped(before, ni, a as int, b as int)[i]
                } else {
                    before[i]
                },
        decreases n - col,
    {
        proof {
            lemma_index_bound(ni, a as int, col as int);
            lemma_index_bound(ni, b as int, col as int);
            lemma_row_col(ni, a as int, col as int);
            lemma_row_col(ni, b as int, col as int);
        }
        let ia = a * n + col;
        let ib = b * n + col;
        let va = data[ia];
        let vb = data[ib];
        data.set(ia, vb);
        data.set(ib, va);
        proof {
            assert forall|i: int| 0 <= i < ni * ni implies #[trigger] data@[i] == if i % ni < col
                + 1 {
                rows_swapped(before, ni, a as int, b as int)[i]
            } else {
                before[i]
            } by {
                lemma_index_split(ni, i);
                if i == ia {
                    assert(i % ni == col);
                } else if i == ib {
                    assert(i % ni == col);
                } else if i % ni == col {
                    assert(i / ni != a && i / ni != b);
                }
            }
        }
        col = col + 1;
    }
    assert forall|i: int| 0 <= i < ni * ni implies #[trigger] data@[i] == rows_swapped(
        before,
        ni,
        a as int,
        b as int,
    )[i] by {
        lemma_index_split(ni, i);
    }
    assert(data@ =~= rows_swapped(before, ni, a as int, b as int));
}

/// Reduces the row stored at `buf[start..start + n]` (with `n` the length of
/// `pivot_row`) against the pivot `pivot` in column `pivot_col`: an entry in that
/// column within the tolerance is replaced by `+0.0` and the row is otherwise
/// left alone; else the row minus `value / pivot` times the pivot row, with the
/// pivot column set to `+0.0` and the columns before it untouched.
fn reduce_segment<A: FloatArithmetic>(
    buf: &mut [u64],
    start: usize,
    pivot_col: usize,
    pivot: u64,
    pivot_row: &[u64],
    tolerance: u64,
    arith: &A,
)
    requires
        start + pivot_row@.len() <= old(buf)@.len(),
        pivot_col < pivot_row@.len(),
    ensures
        final(buf)@.len() == old(buf)@.len(),
        forall|i: int|
            0 <= i < old(buf)@.len() && !(start <= i < start + pivot_row@.len()) ==> #[trigger] final(buf)@[i]
                == old(buf)@[i],
        segment_reduced(
            arith,
            old(buf)@,
            final(buf)@,
            start as int,
            pivot_row@.len() as int,
            pivot_col as int,
            tolerance,
            pivot,
            pivot_row@,
        ),
{
    let n = pivot_row.len();
    let total = buf.len();
    assert(start + n <= total);
    let value = buf[start + pivot_col];
    if ieee::le(ieee::abs(value), tolerance) {
        buf[start + pivot_col] = ZERO;
        return;
    }
    let factor = arith.div(value, pivot);
    let ghost original = buf@;
    buf[start + pivot_col] = ZERO;
    let ghost zeroed = buf@;
    let mut col = pivot_col + 1;
    while col < n
        invariant
            n == pivot_row@.len(),
            start + n <= buf@.len(),
            start + n <= usize::MAX,
            pivot_col < col <= n,
            buf@.len() == zeroed.len(),
            forall|i: int| 0 <= i < buf@.len() && !(start + pivot_col < i < start + col) ==> #[trigger] buf@[i] == zeroed[i],
            forall|i: int| 0 <= i < buf@.len() && !(start + pivot_col <= i < start + pivot_col + 1) ==> #[trigger] zeroed[i] == original[i],
            forall|i: int|
                start + pivot_col < i < start + col ==> #[trigger] reduced_value(
                    arith,
                    original[i],
                    factor,
                    pivot_row@[i - start],
                    buf@[i],
                ),
        decreases n - col,
    {
        let product = arith.mul(factor, pivot_row[col]);
        let updated = arith.sub(buf[start + col], product);
        assert(reduced_value(arith, original[start + col], factor, pivot_row@[col as int], updated)) by {
            assert(product_of(arith, factor, pivot_row@[col as int], product));
        }
        buf[start + col] = updated;
        col = col + 1;
    }
    assert(quotient_of(arith, original[start + pivot_col], pivot, factor));
}

/// Reduces rows `first..n` of the order-`n` entries `data` against the pivot row
/// in column `pivot_col`, one row after another.
fn reduce_rows<A: FloatArithmetic>(
    data: &mut Vec<u64>,
    n: usize,
    first: usize,
    pivot_col: usize,
    pivot: u64,
    pivot_row: &Vec<u64>,
    tolerance: u64,
    arith: &A,
)
    requires
        n <= MAX_ORDER,
        old(data)@.len() == n * n,
        first <= n,
        pivot_row@.len() == n,
        pivot_col < n,
    ensures
        rows_reduced(arith, old(data)@, final(data)@, n as int, first as int, pivot_col as int, tolerance, pivot, pivot_row@),
{
    let ghost before = data@;
    let buf = data.as_mut_slice();
    let mut row = first;
    while row < n
        invariant
            n <= MAX_ORDER,
            before.len() == n * n,
            buf@.len() == n * n,
            pivot_row@.len() == n,
            pivot_col < n,
            first <= row <= n,
            forall|i: int| 0 <= i < first * n ==> #[trigger] buf@[i] == before[i],
            forall|i: int| row * n <= i < n * n ==> #[trigger] buf@[i] == before[i],
            forall|r: int| first <= r < row ==> #[trigger] segment_reduced(arith, before, buf@, r * n, n as int, pivot_col as int, tolerance, pivot, pivot_row@),
        decreases n - row,
    {
        proof {
            lemma_index_bound(n as int, row as int, 0);
        }
        let ghost prev = buf@;
        reduce_segment(buf, row * n, pivot_col, pivot, pivot_row.as_slice(), tolerance, arith);
        proof {
            assert forall|r: int| first <= r < row + 1 implies #[trigger] segment_reduced(arith, before, buf@, r * n, n as int, pivot_col as int, tolerance, pivot, pivot_row@) by {
                if r < row {
                    lemma_index_bound(n as int, r, 0);
                    assert(r * n + n <= row * n) by (nonlinear_arith) requires r < row, 0 <= n;
                    assert(segment_reduced(arith, before, prev, r * n, n as int, pivot_col as int, tolerance, pivot, pivot_row@));
                    assert forall|i: int| r * n <= i < r * n + n implies buf@[i] == prev[i] by {}
                } else {
                    assert forall|i: int| row * n <= i < row * n + n implies prev[i] == before[i] by {}
                }
            }
            assert forall|i: int| (row + 1) * n <= i < n * n implies #[trigger] buf@[i] == before[i] by {
                assert((row + 1) * n == row * n + n) by (nonlinear_arith);
            }
            assert forall|i: int| 0 <= i < first * n implies #[trigger] buf@[i] == before[i] by {
                assert(first * n <= row * n) by (nonlinear_arith) requires first <= row, 0 <= n;
            }
        }
        row = row + 1;
    }
}

/// Reduces rows `first..n` like [`reduce_rows`], handing the rows to Rayon's
/// thread pool.
///
/// Trusted: `rayon::slice::ParallelSliceMut::par_chunks_mut(n)` on the entries
/// from flat index `start` (which is `first * n`) on yields non-overlapping chunks of exactly `n`
/// entries (the length is a multiple of `n`), one per row, and
/// `rayon::iter::ParallelIterator::for_each` runs the closure on every chunk
/// before it returns.  The closure calls the verified `reduce_segment` on the
/// chunk, so each of those rows ends as `reduce_segment` promises and the rows
/// above are not touched: the contract that `reduce_rows` proves.
#[verifier::external_body]
fn reduce_rows_parallel<A: FloatArithmetic>(
    data: &mut Vec<u64>,
    n: usize,
    first: usize,
    start: usize,
    pivot_col: usize,
    pivot: u64,
    pivot_row: &Vec<u64>,
    tolerance: u64,
    arith: &A,
)
    requires
        n <= MAX_ORDER,
        old(data)@.len() == n * n,
        first <= n,
        start == first * n,
        pivot_row@.len() == n,
        pivot_col < n,
    ensures
        rows_reduced(arith, old(data)@, final(data)@, n as int, first as int, pivot_col as int, tolerance, pivot, pivot_row@),
{
    let row = pivot_row.as_slice();
    data[start..].par_chunks_mut(n).for_each(
        |chunk| reduce_segment(chunk, 0, pivot_col, pivot, row, tolerance, arith),
    );
}

impl Analysis {
    /// The fields agree with one another for a matrix of order `n`.
    pub open spec fn consistent(&self, n: nat) -> bool {
        &&& self.order == n
        &&& self.rank <= n
        &&& self.nullity == n - self.rank
        &&& self.singular == (self.rank < n)
        &&& self.row_swaps <= self.rank
        &&& self.row_swaps < n
        &&& self.singular ==> self.determinant_sign == 0 && self.log_abs_determinant is None
        &&& !self.singular ==> (self.determinant_sign == 1 || self.determinant_sign == -1)
            && self.log_abs_determinant is Some
    }
}

/// Below the diagonal of `work` only zeros; on and above it the entries of `s`.
pub open spec fn triangle_kept(work: Seq<u64>, s: Seq<u64>, n: int) -> bool {
    &&& forall|r: int, c: int| 0 <= r <= c < n ==> #[trigger] work[r * n + c] == s[r * n + c]
    &&& forall|r: int, c: int| 0 <= c < r < n ==> magnitude(#[trigger] work[r * n + c]) == 0
}

proof fn lemma_diagonal_sign_step(s: Seq<u64>, n: int, k: int)
    requires
        0 <= k,
    ensures
        diagonal_sign(s, n, k + 1) == if is_negative(s[k * n + k]) {
            -diagonal_sign(s, n, k)
        } else {
            diagonal_sign(s, n, k) as int
        },
{
    let c = negative_diagonal_count(s, n, k);
    assert(negative_diagonal_count(s, n, k + 1) == c + if is_negative(s[k * n + k]) {
        1nat
    } else {
        0nat
    });
    assert((c + 1) % 2 == 0 <==> c % 2 != 0) by (nonlinear_arith);
}

/// A copy of the entries.
fn copy_entries(src: &[u64]) -> (r: Vec<u64>)
    ensures
        r@ == src@,
{
    let len = src.len();
    let mut out: Vec<u64> = Vec::with_capacity(len);
    let mut i: usize = 0;
    while i < len
        invariant
            len == src@.len(),
            i <= len,
            out@ == src@.subrange(0, i as int),
        decreases len - i,
    {
        out.push(src[i]);
        i = i + 1;
    }
    assert(out@ =~= src@);
    out
}

/// A copy of row `row` of the order-`n` entries `data`.
fn copy_row(data: &Vec<u64>, n: usize, row: usize) -> (r: Vec<u64>)
    requires
        n <= MAX_ORDER,
        data@.len() == n * n,
        row < n,
    ensures
        r@ == data@.subrange(row * n, row * n + n),
{
    proof {
        lemma_index_bound(n as int, row as int, 0);
    }
    let start = row * n;
    let mut out: Vec<u64> = Vec::with_capacity(n);
    let mut col: usize = 0;
    while col < n
        invariant
            start == row * n,
            start + n <= data@.len(),
            data@.len() <= MAX_ORDER * MAX_ORDER,
            col <= n,
            out@ == data@.subrange(start as int, start + col),
        decreases n - col,
    {
        out.push(data[start + col]);
        col = col + 1;
    }
    out
}


/// A point of the elimination: the working entries, the next pivot row (the
/// pivots found so far), the row exchanges made and the sign carried so far.
pub type EliminationState = (Seq<u64>, nat, nat, int);

/// `(r, r)` exchanged with itself leaves the entries alone.
proof fn lemma_rows_swapped_same(s: Seq<u64>, n: int, a: int)
    requires
        0 < n,
        s.len() == n * n,
    ensures
        rows_swapped(s, n, a, a) == s,
{
    assert forall|i: int| 0 <= i < s.len() implies #[trigger] rows_swapped(s, n, a, a)[i] == s[i] by {
        lemma_index_split(n, i);
    }
    assert(rows_swapped(s, n, a, a) =~= s);
}

/// What elimination does in column `col`, from `pre` to `post`.  The row picked
/// by partial pivoting ([`pivot_scan`] from the next pivot row down) is refused
/// when its magnitude is within the tolerance, and nothing changes.  Otherwise
/// it is exchanged with the next pivot row ([`rows_swapped`]; an exchange with a
/// different row counts and flips the sign), a negative pivot flips the sign
/// again, the rows below are reduced against it ([`rows_reduced`]: the pivot
/// column becomes `+0.0`, the values to its right are those the arithmetic
/// gives), and the pivot count grows by one.
#[verifier::opaque]
pub open spec fn pivot_step<A: FloatArithmetic>(arith: &A, pre: EliminationState, post: EliminationState, n: int, tol: u64, col: int) -> bool {
    let work = pre.0;
    let pr = pre.1 as int;
    let best = pivot_scan(work, n, col, pr, n);
    if float_le(magnitude(work[best * n + col]), tol) {
        post == pre
    } else {
        let swapped = rows_swapped(work, n, pr, best);
        let exchanged = best != pr;
        let sign = if exchanged {
            -pre.3
        } else {
            pre.3
        };
        &&& post.1 == pre.1 + 1
        &&& post.2 == if exchanged {
            pre.2 + 1
        } else {
            pre.2
        }
        &&& post.3 == if is_negative(swapped[pr * n + col]) {
            -sign
        } else {
            sign
        }
        &&& rows_reduced(arith, swapped, post.0, n, pr + 1, col, tol, swapped[pr * n + col], swapped.subrange(pr * n, pr * n + n))
    }
}

/// `trace` is a run of elimination on the order-`n` entries `s`: it starts from
/// `s` with no pivot, no exchange and sign `+1`; step `k` treats column `k` while
/// fewer than `n` pivots have been found; and it stops after the last column or
/// once `n` pivots are found.
#[verifier::opaque]
pub open spec fn elimination_trace<A: FloatArithmetic>(arith: &A, s: Seq<u64>, n: int, tol: u64, trace: Seq<EliminationState>) -> bool {
    &&& 1 <= trace.len() <= n + 1
    &&& trace[0] == (s, 0nat, 0nat, 1int)
    &&& forall|k: int|
        0 <= k < trace.len() - 1 ==> (#[trigger] trace[k]).1 < n && pivot_step(arith, trace[k], trace[k + 1], n, tol, k)
    &&& (trace.len() - 1 == n || trace.last().1 == n)
}


/// A column whose pivot candidate lies within the tolerance changes nothing.
proof fn lemma_step_refused<A: FloatArithmetic>(arith: &A, pre: EliminationState, n: int, tol: u64, col: int)
    requires
        float_le(magnitude(pre.0[pivot_scan(pre.0, n, col, pre.1 as int, n) * n + col]), tol),
    ensures
        pivot_step(arith, pre, pre, n, tol, col),
{
    reveal(pivot_step);
}

/// A column whose pivot candidate exceeds the tolerance makes one pivot.
proof fn lemma_step_taken<A: FloatArithmetic>(
    arith: &A,
    pre: EliminationState,
    post: EliminationState,
    n: int,
    tol: u64,
    col: int,
    best: int,
    sign: int,
)
    requires
        best == pivot_scan(pre.0, n, col, pre.1 as int, n),
        !float_le(magnitude(pre.0[best * n + col]), tol),
        sign == if best != pre.1 { -pre.3 } else { pre.3 },
        post.1 == pre.1 + 1,
        post.2 == if best != pre.1 { pre.2 + 1 } else { pre.2 },
        post.3 == if is_negative(rows_swapped(pre.0, n, pre.1 as int, best)[pre.1 * n + col]) {
            -sign
        } else {
            sign
        },
        rows_reduced(
            arith,
            rows_swapped(pre.0, n, pre.1 as int, best),
            post.0,
            n,
            pre.1 as int + 1,
            col,
            tol,
            rows_swapped(pre.0, n, pre.1 as int, best)[pre.1 * n + col],
            rows_swapped(pre.0, n, pre.1 as int, best).subrange(pre.1 * n, pre.1 * n + n),
        ),
    ensures
        pivot_step(arith, pre, post, n, tol, col),
{
    reveal(pivot_step);
}

/// The states recorded by the loop of `analyze` form a run of elimination.
proof fn lemma_trace_complete<A: FloatArithmetic>(arith: &A, s: Seq<u64>, n: int, tol: u64, trace: Seq<EliminationState>)
    requires
        1 <= trace.len() <= n + 1,
        trace[0] == (s, 0nat, 0nat, 1int),
        forall|k: int|
            0 <= k < trace.len() - 1 ==> (#[trigger] trace[k]).1 < n && pivot_step(arith, trace[k], trace[k + 1], n, tol, k),
        trace.len() - 1 == n || trace.last().1 == n,
    ensures
        elimination_trace(arith, s, n, tol, trace),
{
    reveal(elimination_trace);
}

/// The analysis reports the end of `trace`: its pivot count as the rank, its
/// exchange count, and, when the rank is full, its sign.
pub open spec fn reports(a: Analysis, trace: Seq<EliminationState>, n: int) -> bool {
    &&& a.rank == trace.last().1
    &&& a.row_swaps == trace.last().2
    &&& trace.last().1 == n ==> a.determinant_sign == trace.last().3
}

/// The pivot that column `col` takes from the state `pre`: once partial
/// pivoting has exchanged rows, the entry of the next pivot row in that column.
pub open spec fn step_pivot(pre: EliminationState, n: int, col: int) -> u64 {
    let pr = pre.1 as int;
    rows_swapped(pre.0, n, pr, pivot_scan(pre.0, n, col, pr, n))[pr * n + col]
}

/// Step `k` of the running sum `partial` of `ln|pivot|` along `trace`: a
/// column that makes a pivot adds the logarithm of its pivot's magnitude, a
/// refused column adds nothing.
pub open spec fn log_step<A: FloatArithmetic>(arith: &A, trace: Seq<EliminationState>, n: int, partial: Seq<u64>, k: int) -> bool {
    if trace[k + 1].1 == trace[k].1 {
        partial[k + 1] == partial[k]
    } else {
        exists|l: u64|
            #[trigger] logarithm_of(arith, magnitude(step_pivot(trace[k], n, k)), l) && sum_of(
                arith,
                partial[k],
                l,
                partial[k + 1],
            )
    }
}

/// `partial` is the running sum, from `+0.0`, of `ln|pivot|` over the pivots of
/// `trace`, added in the order the pivots are found.
pub open spec fn log_sums<A: FloatArithmetic>(arith: &A, trace: Seq<EliminationState>, n: int, partial: Seq<u64>) -> bool {
    &&& partial.len() == trace.len()
    &&& partial[0] == ZERO
    &&& forall|k: int| 0 <= k < trace.len() - 1 ==> #[trigger] log_step(arith, trace, n, partial, k)
}

/// When `trace` ends with `n` pivots, the analysis reports as `ln|det|` the
/// sum of `ln|pivot|` over all of them.
pub open spec fn reports_logarithm<A: FloatArithmetic>(arith: &A, a: Analysis, trace: Seq<EliminationState>, n: int) -> bool {
    trace.last().1 == n ==> exists|partial: Seq<u64>|
        #[trigger] log_sums(arith, trace, n, partial) && a.log_abs_determinant == Some(partial.last())
}

/// The tolerance that analysis uses: the one given, or else the automatic one.
pub open spec fn tolerance_used<A: FloatArithmetic>(arith: &A, s: Seq<u64>, n: int, tolerance: Option<u64>, t: u64) -> bool {
    match tolerance {
        Some(given) => t == given,
        None => auto_tolerance_of(arith, s, n, t),
    }
}

/// `a` is what analysis reports of the order-`n` entries `s` under the
/// tolerance request `tolerance`: it is consistent, its tolerance is the one
/// used, and it reports the end of a run of elimination with that tolerance.
pub open spec fn analysis_found<A: FloatArithmetic>(arith: &A, s: Seq<u64>, n: int, tolerance: Option<u64>, a: Analysis) -> bool {
    &&& a.consistent(n as nat)
    &&& tolerance_used(arith, s, n, tolerance, a.tolerance)
    &&& exists|trace: Seq<EliminationState>|
        #[trigger] elimination_trace(arith, s, n, a.tolerance, trace) && reports(a, trace, n) && reports_logarithm(
            arith,
            a,
            trace,
            n,
        )
}

/// `b` says whether a run of elimination on the order-`n` entries `s`, with the
/// tolerance used for `tolerance`, ends with fewer than `n` pivots.
pub open spec fn singularity_found<A: FloatArithmetic>(arith: &A, s: Seq<u64>, n: int, tolerance: Option<u64>, b: bool) -> bool {
    exists|t: u64, trace: Seq<EliminationState>|
        tolerance_used(arith, s, n, tolerance, t) && #[trigger] elimination_trace(arith, s, n, t, trace) && b == (
        trace.last().1 < n)
}

/// `i >= first * n` with `i == r * n + c`, `c < n`, puts `i` in row `first` or below.
proof fn lemma_row_at_least(n: int, first: int, i: int, r: int, c: int)
    requires
        0 < n,
        i >= first * n,
        i == r * n + c,
        0 <= c < n,
    ensures
        r >= first,
{
    assert(r >= first) by (nonlinear_arith)
        requires
            0 < n,
            i >= first * n,
            i == r * n + c,
            0 <= c < n,
    ;
}

/// Two reductions of one row against the same pivot agree at `i`.
proof fn lemma_segment_unique<A: FloatArithmetic>(
    arith: &A,
    old: Seq<u64>,
    new1: Seq<u64>,
    new2: Seq<u64>,
    start: int,
    n: int,
    pc: int,
    tol: u64,
    pivot: u64,
    pivot_row: Seq<u64>,
    i: int,
)
    requires
        deterministic(arith),
        segment_reduced(arith, old, new1, start, n, pc, tol, pivot, pivot_row),
        segment_reduced(arith, old, new2, start, n, pc, tol, pivot, pivot_row),
        0 <= pc < n,
        start <= i < start + n,
    ensures
        new1[i] == new2[i],
{
    if i < start + pc {
        assert(new1[i] == old[i] && new2[i] == old[i]);
    } else if i == start + pc {
    } else if float_le(magnitude(old[start + pc]), tol) {
        assert(new1[i] == old[i] && new2[i] == old[i]);
    } else {
        let f1 = choose|factor: u64|
            #[trigger] quotient_of(arith, old[start + pc], pivot, factor) && forall|j: int|
                start + pc < j < start + n ==> #[trigger] reduced_value(arith, old[j], factor, pivot_row[j - start], new1[j]);
        let f2 = choose|factor: u64|
            #[trigger] quotient_of(arith, old[start + pc], pivot, factor) && forall|j: int|
                start + pc < j < start + n ==> #[trigger] reduced_value(arith, old[j], factor, pivot_row[j - start], new2[j]);
        assert(f1 == f2);
        assert(reduced_value(arith, old[i], f1, pivot_row[i - start], new1[i]));
        assert(reduced_value(arith, old[i], f1, pivot_row[i - start], new2[i]));
        let p1 = choose|product: u64|
            #[trigger] product_of(arith, f1, pivot_row[i - start], product) && difference_of(arith, old[i], product, new1[i]);
        let p2 = choose|product: u64|
            #[trigger] product_of(arith, f1, pivot_row[i - start], product) && difference_of(arith, old[i], product, new2[i]);
        assert(p1 == p2);
    }
}

/// Two reductions of the rows below a pivot agree.
proof fn lemma_rows_reduced_unique<A: FloatArithmetic>(
    arith: &A,
    old: Seq<u64>,
    new1: Seq<u64>,
    new2: Seq<u64>,
    n: int,
    first: int,
    pc: int,
    tol: u64,
    pivot: u64,
    pivot_row: Seq<u64>,
)
    requires
        deterministic(arith),
        1 <= n,
        old.len() == n * n,
        0 <= first,
        0 <= pc < n,
        rows_reduced(arith, old, new1, n, first, pc, tol, pivot, pivot_row),
        rows_reduced(arith, old, new2, n, first, pc, tol, pivot, pivot_row),
    ensures
        new1 == new2,
{
    assert forall|i: int| 0 <= i < new1.len() implies new1[i] == new2[i] by {
        if i >= first * n {
            lemma_index_split(n, i);
            let r = i / n;
            lemma_row_at_least(n, first, i, r, i % n);
            assert(segment_reduced(arith, old, new1, r * n, n, pc, tol, pivot, pivot_row));
            assert(segment_reduced(arith, old, new2, r * n, n, pc, tol, pivot, pivot_row));
            lemma_segment_unique(arith, old, new1, new2, r * n, n, pc, tol, pivot, pivot_row, i);
        }
    }
    assert(new1 =~= new2);
}

/// One column of elimination leads from a state to a single next state.
proof fn lemma_step_unique<A: FloatArithmetic>(
    arith: &A,
    pre: EliminationState,
    post1: EliminationState,
    post2: EliminationState,
    n: int,
    tol: u64,
    col: int,
)
    requires
        deterministic(arith),
        1 <= n,
        pre.0.len() == n * n,
        pre.1 < n,
        0 <= col < n,
        pivot_step(arith, pre, post1, n, tol, col),
        pivot_step(arith, pre, post2, n, tol, col),
    ensures
        post1 == post2,
        post1.0.len() == n * n,
{
    reveal(pivot_step);
    let work = pre.0;
    let pr = pre.1 as int;
    let best = pivot_scan(work, n, col, pr, n);
    if !float_le(magnitude(work[best * n + col]), tol) {
        let swapped = rows_swapped(work, n, pr, best);
        lemma_rows_reduced_unique(
            arith,
            swapped,
            post1.0,
            post2.0,
            n,
            pr + 1,
            col,
            tol,
            swapped[pr * n + col],
            swapped.subrange(pr * n, pr * n + n),
        );
    }
}

/// Two runs of elimination agree on their first `k + 1` states.
proof fn lemma_trace_prefix<A: FloatArithmetic>(
    arith: &A,
    s: Seq<u64>,
    n: int,
    tol: u64,
    t1: Seq<EliminationState>,
    t2: Seq<EliminationState>,
    k: int,
)
    requires
        deterministic(arith),
        1 <= n,
        s.len() == n * n,
        elimination_trace(arith, s, n, tol, t1),
        elimination_trace(arith, s, n, tol, t2),
        0 <= k < t1.len(),
        k < t2.len(),
    ensures
        t1[k] == t2[k],
        t1[k].0.len() == n * n,
    decreases k,
{
    reveal(elimination_trace);
    if k > 0 {
        let j = k - 1;
        lemma_trace_prefix(arith, s, n, tol, t1, t2, j);
        assert(t1[j].1 < n && pivot_step(arith, t1[j], t1[j + 1], n, tol, j));
        assert(t2[j].1 < n && pivot_step(arith, t2[j], t2[j + 1], n, tol, j));
        lemma_step_unique(arith, t1[j], t1[k], t2[k], n, tol, j);
    }
}

/// With arithmetic that gives one result per arguments, elimination is a
/// function of the entries and the tolerance: two runs are the same run.
pub proof fn lemma_elimination_deterministic<A: FloatArithmetic>(
    arith: &A,
    s: Seq<u64>,
    n: int,
    tol: u64,
    t1: Seq<EliminationState>,
    t2: Seq<EliminationState>,
)
    requires
        deterministic(arith),
        1 <= n,
        s.len() == n * n,
        elimination_trace(arith, s, n, tol, t1),
        elimination_trace(arith, s, n, tol, t2),
    ensures
        t1 == t2,
{
    reveal(elimination_trace);
    let l1 = t1.len() as int;
    let l2 = t2.len() as int;
    if l1 < l2 {
        lemma_trace_prefix(arith, s, n, tol, t1, t2, l1 - 1);
        assert(t2[l1 - 1].1 < n && pivot_step(arith, t2[l1 - 1], t2[l1], n, tol, l1 - 1));
    } else if l2 < l1 {
        lemma_trace_prefix(arith, s, n, tol, t1, t2, l2 - 1);
        assert(t1[l2 - 1].1 < n && pivot_step(arith, t1[l2 - 1], t1[l2], n, tol, l2 - 1));
    }
    assert forall|k: int| 0 <= k < l1 implies t1[k] == t2[k] by {
        lemma_trace_prefix(arith, s, n, tol, t1, t2, k);
    }
    assert(t1 =~= t2);
}

/// Under a tolerance request, the tolerance used is one value.
proof fn lemma_tolerance_used_unique<A: FloatArithmetic>(arith: &A, s: Seq<u64>, n: int, tolerance: Option<u64>, t1: u64, t2: u64)
    requires
        deterministic(arith),
        1 <= n,
        tolerance_used(arith, s, n, tolerance, t1),
        tolerance_used(arith, s, n, tolerance, t2),
    ensures
        t1 == t2,
{
    if tolerance is None {
        lemma_auto_tolerance_unique(arith, s, n, t1, t2);
    }
}

/// `r * n + c` lies in row `r` of an order-`n` square.
proof fn lemma_flat_index(n: int, r: int, c: int)
    requires
        0 <= r < n,
        0 <= c < n,
    ensures
        r * n <= r * n + c < r * n + n <= n * n,
        0 <= r * n,
{
    assert(r * n + n <= n * n && 0 <= r * n) by (nonlinear_arith)
        requires
            0 <= r < n,
    ;
}

/// A column of elimination on entries that are still upper triangular with
/// the diagonal of `s` above the tolerance takes the diagonal entry as pivot,
/// without exchange, and keeps the entries upper triangular with those of `s`
/// on and above the diagonal.
proof fn lemma_triangular_step<A: FloatArithmetic>(
    arith: &A,
    s: Seq<u64>,
    n: int,
    tol: u64,
    pre: EliminationState,
    post: EliminationState,
    k: int,
)
    requires
        0 <= k < n,
        s.len() == n * n,
        is_valid_tolerance(tol),
        triangular_above_tolerance(s, n, tol),
        pre.0.len() == n * n,
        pre.1 == k,
        triangle_kept(pre.0, s, n),
        pivot_step(arith, pre, post, n, tol, k),
    ensures
        post.1 == k + 1,
        post.0.len() == n * n,
        triangle_kept(post.0, s, n),
        step_pivot(pre, n, k) == s[k * n + k],
{
    reveal(pivot_step);
    let work = pre.0;
    lemma_flat_index(n, k, k);
    assert(work[k * n + k] == s[k * n + k]);
    assert(float_lt(tol, magnitude(s[k * n + k])));
    assert forall|r: int| k < r < n implies magnitude(#[trigger] work[r * n + k]) == 0 by {
        assert(magnitude(work[r * n + k]) == 0);
    }
    lemma_pivot_scan_keeps_first(work, n, k, k, n);
    lemma_rows_swapped_same(work, n, k);
    let pivot = work[k * n + k];
    let prow = work.subrange(k * n, k * n + n);
    assert(rows_reduced(arith, work, post.0, n, k + 1, k, tol, pivot, prow));
    assert forall|r: int, c: int| 0 <= r <= c < n implies #[trigger] post.0[r * n + c] == s[r * n + c] by {
        lemma_flat_index(n, r, c);
        if r <= k {
            assert(r * n + c < (k + 1) * n) by (nonlinear_arith)
                requires
                    0 <= r <= k,
                    0 <= c < n,
            ;
        } else {
            assert(segment_reduced(arith, work, post.0, r * n, n, k, tol, pivot, prow));
            assert(magnitude(work[r * n + k]) == 0);
            assert(float_le(magnitude(work[r * n + k]), tol));
            assert(r * n + k < r * n + c);
        }
    }
    assert forall|r: int, c: int| 0 <= c < r < n implies magnitude(#[trigger] post.0[r * n + c]) == 0 by {
        lemma_flat_index(n, r, c);
        if r <= k {
            assert(r * n + c < (k + 1) * n) by (nonlinear_arith)
                requires
                    0 <= r <= k,
                    0 <= c < n,
            ;
        } else {
            assert(segment_reduced(arith, work, post.0, r * n, n, k, tol, pivot, prow));
            assert(magnitude(work[r * n + k]) == 0);
            if c > k {
                assert(float_le(magnitude(work[r * n + k]), tol));
            }
        }
    }
}

/// Along a run of elimination on upper triangular entries whose diagonal
/// exceeds the tolerance, state `k` has found `k` pivots and the entries are
/// still upper triangular with those of `s` on and above the diagonal.
proof fn lemma_triangular_trace<A: FloatArithmetic>(
    arith: &A,
    s: Seq<u64>,
    n: int,
    tol: u64,
    trace: Seq<EliminationState>,
    k: int,
)
    requires
        s.len() == n * n,
        is_valid_tolerance(tol),
        triangular_above_tolerance(s, n, tol),
        elimination_trace(arith, s, n, tol, trace),
        0 <= k < trace.len(),
    ensures
        trace[k].1 == k,
        trace[k].0.len() == n * n,
        triangle_kept(trace[k].0, s, n),
    decreases k,
{
    reveal(elimination_trace);
    if k > 0 {
        let j = k - 1;
        lemma_triangular_trace(arith, s, n, tol, trace, j);
        assert(trace[j].1 < n && pivot_step(arith, trace[j], trace[j + 1], n, tol, j));
        lemma_triangular_step(arith, s, n, tol, trace[j], trace[k], j);
    }
}

/// Step `i` of `partial` adds the logarithm of the magnitude of the diagonal
/// entry in row `i` of `s`.
pub open spec fn diagonal_log_step<A: FloatArithmetic>(arith: &A, s: Seq<u64>, n: int, partial: Seq<u64>, i: int) -> bool {
    exists|l: u64| #[trigger] logarithm_of(arith, magnitude(s[i * n + i]), l) && sum_of(arith, partial[i], l, partial[i + 1])
}

/// `partial` is the running sum, from `+0.0` and down the diagonal, of the
/// logarithms of the magnitudes of the diagonal entries of `s`.
pub open spec fn diagonal_log_sums<A: FloatArithmetic>(arith: &A, s: Seq<u64>, n: int, partial: Seq<u64>) -> bool {
    &&& partial.len() == n + 1
    &&& partial[0] == ZERO
    &&& forall|i: int| 0 <= i < n ==> #[trigger] diagonal_log_step(arith, s, n, partial, i)
}

/// On upper triangular entries whose diagonal exceeds the tolerance in
/// magnitude, analysis finds full rank and reports as `ln|det|` the sum, from
/// `+0.0` and down the diagonal, of the logarithm of every diagonal magnitude,
/// the last one included.
pub proof fn lemma_triangular_log_determinant<A: FloatArithmetic>(
    arith: &A,
    s: Seq<u64>,
    n: int,
    tolerance: Option<u64>,
    a: Analysis,
)
    requires
        1 <= n,
        s.len() == n * n,
        analysis_found(arith, s, n, tolerance, a),
        is_valid_tolerance(a.tolerance),
        triangular_above_tolerance(s, n, a.tolerance),
    ensures
        a.rank == n,
        !a.singular,
        exists|partial: Seq<u64>|
            #[trigger] diagonal_log_sums(arith, s, n, partial) && a.log_abs_determinant == Some(partial[n]),
{
    let tol = a.tolerance;
    let trace = choose|trace: Seq<EliminationState>|
        #[trigger] elimination_trace(arith, s, n, a.tolerance, trace) && reports(a, trace, n) && reports_logarithm(
            arith,
            a,
            trace,
            n,
        );
    let last = trace.len() - 1;
    assert(1 <= trace.len() <= n + 1) by {
        reveal(elimination_trace);
    }
    lemma_triangular_trace(arith, s, n, tol, trace, last);
    assert(last == n) by {
        reveal(elimination_trace);
    }
    let partial = choose|partial: Seq<u64>|
        #[trigger] log_sums(arith, trace, n, partial) && a.log_abs_determinant == Some(partial.last());
    assert forall|i: int| 0 <= i < n implies #[trigger] diagonal_log_step(arith, s, n, partial, i) by {
        lemma_triangular_trace(arith, s, n, tol, trace, i);
        lemma_triangular_trace(arith, s, n, tol, trace, i + 1);
        assert(trace[i].1 < n && pivot_step(arith, trace[i], trace[i + 1], n, tol, i)) by {
            reveal(elimination_trace);
        }
        lemma_triangular_step(arith, s, n, tol, trace[i], trace[i + 1], i);
        assert(log_step(arith, trace, n, partial, i));
    }
    assert(diagonal_log_sums(arith, s, n, partial));
}

/// With arithmetic that gives one result per arguments, `is_singular` answers
/// what `analyze` reports as `singular` for the same entries, tolerance request
/// and arithmetic.
pub proof fn lemma_is_singular_agrees<A: FloatArithmetic>(
    arith: &A,
    s: Seq<u64>,
    n: int,
    tolerance: Option<u64>,
    a: Analysis,
    b: bool,
)
    requires
        deterministic(arith),
        1 <= n,
        s.len() == n * n,
        analysis_found(arith, s, n, tolerance, a),
        singularity_found(arith, s, n, tolerance, b),
    ensures
        b == a.singular,
{
    let trace1 = choose|trace: Seq<EliminationState>|
        #[trigger] elimination_trace(arith, s, n, a.tolerance, trace) && reports(a, trace, n) && reports_logarithm(
            arith,
            a,
            trace,
            n,
        );
    let (t2, trace2) = choose|t: u64, trace: Seq<EliminationState>|
        tolerance_used(arith, s, n, tolerance, t) && #[trigger] elimination_trace(arith, s, n, t, trace) && b == (
        trace.last().1 < n);
    lemma_tolerance_used_unique(arith, s, n, tolerance, a.tolerance, t2);
    lemma_elimination_deterministic(arith, s, n, a.tolerance, trace1, trace2);
}

/// With arithmetic that gives one result per arguments, two analyses of the
/// same entries under the same tolerance request agree in everything but the
/// value of `ln|det|` (the logarithm is not assumed to give one result).
pub proof fn lemma_analysis_reproducible<A: FloatArithmetic>(
    arith: &A,
    s: Seq<u64>,
    n: int,
    tolerance: Option<u64>,
    a1: Analysis,
    a2: Analysis,
)
    requires
        deterministic(arith),
        1 <= n,
        s.len() == n * n,
        analysis_found(arith, s, n, tolerance, a1),
        analysis_found(arith, s, n, tolerance, a2),
    ensures
        a1.order == a2.order,
        a1.rank == a2.rank,
        a1.nullity == a2.nullity,
        a1.singular == a2.singular,
        a1.tolerance == a2.tolerance,
        a1.row_swaps == a2.row_swaps,
        a1.determinant_sign == a2.determinant_sign,
        a1.log_abs_determinant is Some <==> a2.log_abs_determinant is Some,
{
    let trace1 = choose|trace: Seq<EliminationState>|
        #[trigger] elimination_trace(arith, s, n, a1.tolerance, trace) && reports(a1, trace, n) && reports_logarithm(
            arith,
            a1,
            trace,
            n,
        );
    let trace2 = choose|trace: Seq<EliminationState>|
        #[trigger] elimination_trace(arith, s, n, a2.tolerance, trace) && reports(a2, trace, n) && reports_logarithm(
            arith,
            a2,
            trace,
            n,
        );
    lemma_tolerance_used_unique(arith, s, n, tolerance, a1.tolerance, a2.tolerance);
    lemma_elimination_deterministic(arith, s, n, a1.tolerance, trace1, trace2);
}

impl Matrix {
    /// Computes the numerical rank by Gaussian elimination with partial pivoting.
    ///
    /// `tolerance` is the bit pattern of a binary64 value, finite and not below
    /// zero; when it is `None`, [`Matrix::auto_tolerance`] is used.  A column
    /// contributes a pivot when the largest magnitude among its remaining rows
    /// exceeds the tolerance; the first row of largest magnitude becomes the pivot
    /// row.  The elimination runs on a copy, so the matrix itself is unchanged.
    /// For orders of at least 192 with at least 8 rows below the pivot, those
    /// rows are eliminated in parallel; the result does not depend on it.
    ///
    /// The result is an [`analysis_found`]: the tolerance is the one given or
    /// else the automatic one, and the reported rank, exchange count and
    /// (full-rank) sign are those at the end of a run of [`elimination_trace`]
    /// on the entries with that tolerance, every computed value being one that
    /// `arith` returns for its operands.
    #[verifier::rlimit(60)]
    pub fn analyze<A: FloatArithmetic>(&self, tolerance: Option<u64>, arith: &A) -> (r: Result<Analysis, MatrixError>)
        ensures
            match tolerance {
                Some(t) => r is Err <==> !is_valid_tolerance(t),
                None => r is Ok,
            },
            r matches Err(e) ==> tolerance matches Some(t) && e == (MatrixError::InvalidTolerance { value: t }),
            r matches Ok(a) ==> analysis_found(arith, self@, self.dim() as int, tolerance, a) && 1 <= a.order <= MAX_ORDER,
            r matches Ok(a) ==> (all_within(self@, a.tolerance) ==> a.rank == 0 && a.row_swaps == 0),
            r matches Ok(a) ==> (no_nan(self@) ==> (a.rank == 0 <==> all_within(self@, a.tolerance))),
            r matches Ok(a) ==> (is_valid_tolerance(a.tolerance) && triangular_above_tolerance(
                self@,
                self.dim() as int,
                a.tolerance,
            ) ==> {
                &&& a.rank == self.dim()
                &&& a.row_swaps == 0
                &&& a.determinant_sign == diagonal_sign(self@, self.dim() as int, self.dim() as int)
            }),
    {
        let tol = match tolerance {
            Some(value) => {
                if !ieee::finite(value) || ieee::lt(value, ZERO) {
                    return Err(MatrixError::InvalidTolerance { value });
                }
                value
            },
            None => self.auto_tolerance(arith),
        };
        let n = self.order();
        let mut work = copy_entries(self.as_slice());
        let ghost s = self@;
        let ghost ni = n as int;
        let ghost small = all_within(s, tol);
        let ghost tri = is_valid_tolerance(tol) && triangular_above_tolerance(s, ni, tol);
        let mut pivot_row: usize = 0;
        let mut pivot_col: usize = 0;
        let mut row_swaps: usize = 0;
        let mut determinant_sign: i8 = 1;
        let mut log_abs_determinant: u64 = ZERO;
        let ghost mut trace: Seq<EliminationState> = seq![(s, 0nat, 0nat, 1int)];
        let ghost mut partial: Seq<u64> = seq![ZERO];
        while pivot_col < n && pivot_row < n
            invariant
                ni == n,
                1 <= ni,
                row_swaps < ni,
                trace.len() == pivot_col + 1,
                trace[0] == (s, 0nat, 0nat, 1int),
                trace.last() == (work@, pivot_row as nat, row_swaps as nat, determinant_sign as int),
                partial.len() == trace.len(),
                partial[0] == ZERO,
                partial.last() == log_abs_determinant,
                forall|k: int| 0 <= k < trace.len() - 1 ==> #[trigger] log_step(arith, trace, ni, partial, k),
                forall|k: int|
                    0 <= k < trace.len() - 1 ==> (#[trigger] trace[k]).1 < ni && pivot_step(
                        arith,
                        trace[k],
                        trace[k + 1],
                        ni,
                        tol,
                        k,
                    ),
                n <= MAX_ORDER,
                s.len() == ni * ni,
                work@.len() == ni * ni,
                pivot_row <= pivot_col <= n,
                row_swaps <= pivot_row,
                determinant_sign == 1 || determinant_sign == -1,
                small == all_within(s, tol),
                tri == (is_valid_tolerance(tol) && triangular_above_tolerance(s, ni, tol)),
                small ==> pivot_row == 0 && row_swaps == 0,
                pivot_row == 0 ==> work@ == s,
                no_nan(s) && pivot_row == 0 ==> forall|r: int, c: int|
                    0 <= r < ni && 0 <= c < pivot_col ==> float_le(magnitude(#[trigger] s[r * ni + c]), tol),
                tri ==> {
                    &&& pivot_row == pivot_col
                    &&& row_swaps == 0
                    &&& determinant_sign == diagonal_sign(s, ni, pivot_col as int)
                    &&& triangle_kept(work@, s, ni)
                },
            decreases n - pivot_col,
        {
            let ghost pre: EliminationState = (work@, pivot_row as nat, row_swaps as nat, determinant_sign as int);
            let ghost mut sign_taken: int = 0;
            let (best_row, best_abs) = select_pivot(&work, n, pivot_row, pivot_col);
            proof {
                lemma_index_bound(ni, best_row as int, pivot_col as int);
                if small {
                    assert(float_le(magnitude(s[best_row * ni + pivot_col]), tol));
                }
                if tri {
                    let k = pivot_col as int;
                    assert(work@[k * ni + k] == s[k * ni + k]);
                    assert forall|r: int| k < r < ni implies magnitude(#[trigger] work@[r * ni + k]) == 0 by {
                        assert(magnitude(work@[r * ni + k]) == 0);
                    }
                    assert(float_lt(tol, magnitude(s[k * ni + k])));
                    lemma_pivot_scan_keeps_first(work@, ni, k, k, ni);
                }
            }
            proof {
                if no_nan(s) && pivot_row == 0 && float_le(best_abs, tol) {
                    let c = pivot_col as int;
                    assert forall|k: int| 0 <= k < ni implies !is_nan(magnitude(#[trigger] s[k * ni + c])) by {
                        lemma_index_bound(ni, k, c);
                        assert(!is_nan(s[k * ni + c]));
                    }
                    assert forall|r: int| 0 <= r < ni implies float_le(magnitude(#[trigger] s[r * ni + c]), tol) by {
                        lemma_pivot_scan_largest(s, ni, c, 0, ni, r);
                    }
                }
            }
            if !ieee::le(best_abs, tol) {
                if best_row != pivot_row {
                    swap_rows(&mut work, n, pivot_row, best_row);
                    row_swaps = row_swaps + 1;
                    determinant_sign = -determinant_sign;
                } else {
                    proof {
                        lemma_rows_swapped_same(pre.0, ni, pivot_row as int);
                    }
                }
                let ghost swapped = work@;
                proof {
                    sign_taken = determinant_sign as int;
                }
                assert(swapped == rows_swapped(pre.0, ni, pivot_row as int, best_row as int));
                proof {
                    lemma_index_bound(ni, pivot_row as int, pivot_col as int);
                }
                let pivot = work[pivot_row * n + pivot_col];
                if ieee::lt(pivot, ZERO) {
                    determinant_sign = -determinant_sign;
                }
                proof {
                    if tri {
                        lemma_diagonal_sign_step(s, ni, pivot_col as int);
                    }
                }
                let ghost log_before = log_abs_determinant;
                log_abs_determinant = arith.add(log_abs_determinant, arith.ln(ieee::abs(pivot)));
                proof {
                    assert(pivot == step_pivot(pre, ni, pivot_col as int));
                    assert(exists|l: u64|
                        #[trigger] logarithm_of(arith, magnitude(step_pivot(pre, ni, pivot_col as int)), l) && sum_of(
                            arith,
                            log_before,
                            l,
                            log_abs_determinant,
                        ));
                }
                let first_row_below = pivot_row + 1;
                if first_row_below < n {
                    let pivot_entries = copy_row(&work, n, pivot_row);
                    let ghost before = work@;
                    if n >= PARALLEL_THRESHOLD && n - first_row_below >= PARALLEL_MIN_ROWS {
                        proof {
                            lemma_index_bound(ni, first_row_below as int, 0);
                        }
                        let start = first_row_below * n;
                        reduce_rows_parallel(
                            &mut work,
                            n,
                            first_row_below,
                            start,
                            pivot_col,
                            pivot,
                            &pivot_entries,
                            tol,
                            arith,
                        );
                    } else {
                        reduce_rows(&mut work, n, first_row_below, pivot_col, pivot, &pivot_entries, tol, arith);
                    }
                    proof {
                        if tri {
                            let k = pivot_col as int;
                            assert forall|r: int, c: int| 0 <= r <= c < ni implies #[trigger] work@[r * ni + c] == s[r * ni + c] by {
                                lemma_index_bound(ni, r, c);
                                if r <= k {
                                    assert(r * ni + c < (k + 1) * ni) by (nonlinear_arith)
                                        requires
                                            0 <= r <= k,
                                            0 <= c < ni,
                                    ;
                                } else {
                                    assert(segment_reduced(arith, before, work@, r * ni, ni, k, tol, pivot, pivot_entries@));
                                    assert(magnitude(before[r * ni + k]) == 0);
                                    assert(float_le(magnitude(before[r * ni + k]), tol));
                                    assert(r * ni + k < r * ni + c);
                                }
                            }
                            assert forall|r: int, c: int| 0 <= c < r < ni implies magnitude(#[trigger] work@[r * ni + c]) == 0 by {
                                lemma_index_bound(ni, r, c);
                                if r <= k {
                                    assert(r * ni + c < (k + 1) * ni) by (nonlinear_arith)
                                        requires
                                            0 <= r <= k,
                                            0 <= c < ni,
                                    ;
                                } else {
                                    assert(segment_reduced(arith, before, work@, r * ni, ni, k, tol, pivot, pivot_entries@));
                                    assert(magnitude(before[r * ni + k]) == 0);
                                    if c > k {
                                        assert(float_le(magnitude(before[r * ni + k]), tol));
                                    }
                                }
                            }
                        }
                    }
                }
                assert(rows_reduced(
                    arith,
                    swapped,
                    work@,
                    ni,
                    first_row_below as int,
                    pivot_col as int,
                    tol,
                    swapped[pivot_row * ni + pivot_col],
                    swapped.subrange(pivot_row * ni, pivot_row * ni + ni),
                ));
                pivot_row = pivot_row + 1;
            }
            proof {
                let post: EliminationState = (work@, pivot_row as nat, row_swaps as nat, determinant_sign as int);
                if float_le(best_abs, tol) {
                    lemma_step_refused(arith, pre, ni, tol, pivot_col as int);
                } else {
                    lemma_step_taken(arith, pre, post, ni, tol, pivot_col as int, best_row as int, sign_taken);
                }
                let old_trace = trace;
                let old_partial = partial;
                trace = trace.push(post);
                partial = partial.push(log_abs_determinant);
                assert forall|k: int| 0 <= k < trace.len() - 1 implies #[trigger] log_step(arith, trace, ni, partial, k) by {
                    if k < old_trace.len() - 1 {
                        assert(log_step(arith, old_trace, ni, old_partial, k));
                        assert(trace[k] == old_trace[k] && trace[k + 1] == old_trace[k + 1]);
                        assert(partial[k] == old_partial[k] && partial[k + 1] == old_partial[k + 1]);
                    } else {
                        assert(trace[k] == pre && trace[k + 1] == post);
                    }
                }
            }
            pivot_col = pivot_col + 1;
        }
        proof {
            lemma_trace_complete(arith, s, ni, tol, trace);
        }
        proof {
            if no_nan(s) && pivot_row == 0 {
                assert forall|i: int| 0 <= i < s.len() implies float_le(magnitude(#[trigger] s[i]), tol) by {
                    lemma_index_split(ni, i);
                    assert(s[(i / ni) * ni + i % ni] == s[i]);
                }
            }
        }
        let rank = pivot_row;
        let singular = rank < n;
        let analysis = Analysis {
            order: n,
            rank,
            nullity: n - rank,
            singular,
            tolerance: tol,
            row_swaps,
            determinant_sign: if singular { 0 } else { determinant_sign },
            log_abs_determinant: if singular { None } else { Some(log_abs_determinant) },
        };
        assert(elimination_trace(arith, self@, self.dim() as int, analysis.tolerance, trace) && reports(
            analysis,
            trace,
            self.dim() as int,
        ));
        assert(tolerance_used(arith, self@, self.dim() as int, tolerance, analysis.tolerance));
        assert(reports_logarithm(arith, analysis, trace, self.dim() as int)) by {
            if trace.last().1 == n {
                assert(log_sums(arith, trace, ni, partial));
            }
        }
        Ok(analysis)
    }

    /// Whether elimination finds fewer pivots than the order: the `singular`
    /// field of [`Matrix::analyze`] for the same arguments (see
    /// [`lemma_is_singular_agrees`]).
    pub fn is_singular<A: FloatArithmetic>(&self, tolerance: Option<u64>, arith: &A) -> (r: Result<bool, MatrixError>)
        ensures
            match tolerance {
                Some(t) => r is Err <==> !is_valid_tolerance(t),
                None => r is Ok,
            },
            r matches Err(e) ==> tolerance matches Some(t) && e == (MatrixError::InvalidTolerance { value: t }),
            r matches Ok(b) ==> singularity_found(arith, self@, self.dim() as int, tolerance, b),
            forall|t: u64|
                tolerance == Some(t) && is_valid_tolerance(t) && #[trigger] all_within(self@, t) ==> r
                    == Ok::<bool, MatrixError>(true),
            forall|t: u64|
                tolerance == Some(t) && is_valid_tolerance(t) && #[trigger] triangular_above_tolerance(
                    self@,
                    self.dim() as int,
                    t,
                ) ==> r == Ok::<bool, MatrixError>(false),
    {
        match self.analyze(tolerance, arith) {
            Ok(analysis) => {
                proof {
                    let n = self.dim() as int;
                    let trace = choose|trace: Seq<EliminationState>|
                        #[trigger] elimination_trace(arith, self@, n, analysis.tolerance, trace) && reports(analysis, trace, n)
                            && reports_logarithm(arith, analysis, trace, n);
                    assert(tolerance_used(arith, self@, n, tolerance, analysis.tolerance) && elimination_trace(
                        arith,
                        self@,
                        n,
                        analysis.tolerance,
                        trace,
                    ) && analysis.singular == (trace.last().1 < n));
                }
                Ok(analysis.singular)
            },
            Err(e) => Err(e),
        }
    }
}

} // verus!
