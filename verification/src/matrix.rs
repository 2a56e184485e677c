//! Dense square matrices of binary64 entries, stored row by row.
use vstd::prelude::*;
use crate::ieee::{self, FloatArithmetic, deterministic, sum_of, product_of, conversion_of, is_finite, is_nan, float_lt, float_max, magnitude, ZERO, ONE, EPSILON, SIXTY_FOUR};
use crate::decimal::{decimal_text, decimal_text_of};

verus! {

/// The largest order a matrix may have.
pub const MAX_ORDER: usize = 1000;

/// Bytes taken by one entry (a binary64 value).
pub const ENTRY_BYTES: usize = 8;

/// Why a matrix could not be built or analysed.
#[derive(Debug, Clone, Copy, PartialEq, Eq, Structural)]
pub enum MatrixError {
    /// The order is outside `1..=MAX_ORDER`.
    InvalidOrder { order: usize },
    /// The data does not hold `order * order` entries.
    InvalidDataLength { expected: usize, actual: usize },
    /// The entry at this flat index is NaN or infinite.
    NonFiniteValue { index: usize },
    /// The tolerance (its bit pattern) is NaN, infinite or below zero.
    InvalidTolerance { value: u64 },
}

/// The message of an error; `tolerance_text` is how the refused tolerance is
/// written as a number.
pub open spec fn error_text(e: MatrixError, tolerance_text: Seq<char>) -> Seq<char> {
    match e {
        MatrixError::InvalidOrder { order } => "matrix order must be between 1 and 1000; received "@
            + decimal_text_of(order as nat),
        MatrixError::InvalidDataLength { expected, actual } => "invalid data length: expected "@
            + decimal_text_of(expected as nat) + " elements, received "@ + decimal_text_of(actual as nat),
        MatrixError::NonFiniteValue { index } => "matrix contains NaN or infinity at flat index "@
            + decimal_text_of(index as nat),
        MatrixError::InvalidTolerance { .. } => "tolerance must be finite and non-negative; received "@
            + tolerance_text,
    }
}

impl MatrixError {
    /// The message of the error.  Writing a binary64 number in decimal is the
    /// caller's part: `tolerance_text` is the refused tolerance so written, and is
    /// used by `InvalidTolerance` only.
    pub fn message(&self, tolerance_text: &str) -> (r: String)
        ensures
            r@ == error_text(*self, tolerance_text@),
    {
        match self {
            MatrixError::InvalidOrder { order } => {
                let mut text = String::from_str("matrix order must be between 1 and 1000; received ");
                text.append(decimal_text(*order as u64).as_str());
                text
            },
            MatrixError::InvalidDataLength { expected, actual } => {
                let mut text = String::from_str("invalid data length: expected ");
                text.append(decimal_text(*expected as u64).as_str());
                text.append(" elements, received ");
                text.append(decimal_text(*actual as u64).as_str());
                text
            },
            MatrixError::NonFiniteValue { index } => {
                let mut text = String::from_str("matrix contains NaN or infinity at flat index ");
                text.append(decimal_text(*index as u64).as_str());
                text
            },
            MatrixError::InvalidTolerance { .. } => {
                let mut text = String::from_str("tolerance must be finite and non-negative; received ");
                text.append(tolerance_text);
                text
            },
        }
    }
}

/// Whether `order` is a size the library accepts.
pub open spec fn valid_order(order: int) -> bool {
    1 <= order <= MAX_ORDER
}

/// Every entry of `s` is finite.
pub open spec fn all_finite(s: Seq<u64>) -> bool {
    forall|i: int| 0 <= i < s.len() ==> is_finite(#[trigger] s[i])
}

/// The `n * n` entries of the identity matrix of order `n`, row by row.
pub open spec fn identity_entries(n: nat) -> Seq<u64> {
    Seq::new(n * n, |i: int| if i / (n as int) == i % (n as int) { ONE } else { ZERO })
}

/// Checks that `order` lies in `1..=MAX_ORDER`.
pub fn validate_order(order: usize) -> (r: Result<(), MatrixError>)
    ensures
        r is Ok <==> valid_order(order as int),
        r is Err ==> r == Err::<(), MatrixError>(MatrixError::InvalidOrder { order }),
{
    if !(1 <= order && order <= MAX_ORDER) {
        return Err(MatrixError::InvalidOrder { order });
    }
    Ok(())
}

/// `(r * n + c) / n == r` and `(r * n + c) % n == c` for `c < n`.
pub proof fn lemma_row_col(n: int, r: int, c: int)
    requires
        0 < n,
        0 <= r,
        0 <= c < n,
    ensures
        (r * n + c) / n == r,
        (r * n + c) % n == c,
{
    vstd::arithmetic::div_mod::lemma_fundamental_div_mod_converse(r * n + c, n, r, c);
}

/// A flat index below `n * n` splits into a row and a column below `n`.
pub proof fn lemma_index_split(n: int, i: int)
    requires
        0 < n,
        0 <= i < n * n,
    ensures
        0 <= i / n < n,
        0 <= i % n < n,
        (i / n) * n + i % n == i,
{
    vstd::arithmetic::div_mod::lemma_fundamental_div_mod(i, n);
    vstd::arithmetic::div_mod::lemma_mod_pos_bound(i, n);
    vstd::arithmetic::div_mod::lemma_div_pos_is_pos(i, n);
    let q = i / n;
    let r = i % n;
    assert(q < n && q * n + r == i) by (nonlinear_arith)
        requires
            i == n * q + r,
            0 <= r,
            i < n * n,
            0 < n,
    ;
}

/// The square of a valid order fits easily in a `usize`.
pub proof fn lemma_square_fits(n: int)
    requires
        0 <= n <= MAX_ORDER,
    ensures
        n * n <= MAX_ORDER * MAX_ORDER,
{
    assert(n * n <= MAX_ORDER * MAX_ORDER) by (nonlinear_arith)
        requires
            0 <= n <= MAX_ORDER,
    ;
}

/// A row index below `n` and a column below `n` give a flat index below `n * n`.
pub proof fn lemma_index_bound(n: int, r: int, c: int)
    requires
        n <= MAX_ORDER,
        0 <= r < n,
        0 <= c < n,
    ensures
        0 <= r * n + c < n * n,
        r * n + n <= n * n,
        n * n <= MAX_ORDER * MAX_ORDER,
{
    assert(r * n + n <= n * n) by (nonlinear_arith)
        requires
            0 <= r < n,
    ;
    assert(0 <= r * n) by (nonlinear_arith)
        requires
            0 <= r,
            0 <= n,
    ;
    lemma_square_fits(n);
}

/// Step `j` of the running sum `p` of the absolute values along row `r`.
pub open spec fn row_sum_step<A: FloatArithmetic>(arith: &A, s: Seq<u64>, n: int, r: int, p: Seq<u64>, j: int) -> bool {
    sum_of(arith, p[j - 1], magnitude(s[r * n + j]), p[j])
}

/// `p` holds the running sums of the absolute values along row `r`: it starts
/// from the first entry's absolute value and adds the others left to right.
pub open spec fn row_sums<A: FloatArithmetic>(arith: &A, s: Seq<u64>, n: int, r: int, p: Seq<u64>) -> bool {
    &&& p.len() == n
    &&& p[0] == magnitude(s[r * n])
    &&& forall|j: int| 1 <= j < n ==> #[trigger] row_sum_step(arith, s, n, r, p, j)
}

/// `v` is the sum of the absolute values along row `r`.
pub open spec fn row_sum<A: FloatArithmetic>(arith: &A, s: Seq<u64>, n: int, r: int, v: u64) -> bool {
    exists|p: Seq<u64>| #[trigger] row_sums(arith, s, n, r, p) && v == p[n - 1]
}

/// `q` folds the row sums `sums` with `max` from `+0.0`.
pub open spec fn norm_fold<A: FloatArithmetic>(arith: &A, s: Seq<u64>, n: int, q: Seq<u64>, sums: Seq<u64>) -> bool {
    &&& q.len() == n + 1
    &&& sums.len() == n
    &&& q[0] == ZERO
    &&& forall|r: int|
        0 <= r < n ==> #[trigger] row_sum(arith, s, n, r, sums[r]) && q[r + 1] == float_max(q[r], sums[r])
}

/// `v` is the infinity norm of the order-`n` entries `s`: the `max` from `+0.0`
/// of the row sums.
pub open spec fn norm_of<A: FloatArithmetic>(arith: &A, s: Seq<u64>, n: int, v: u64) -> bool {
    exists|q: Seq<u64>, sums: Seq<u64>| #[trigger] norm_fold(arith, s, n, q, sums) && v == q[n]
}

/// `v` is the automatic tolerance: `EPSILON * order * max(norm, 1.0) * 64.0`,
/// multiplied left to right.
pub open spec fn auto_tolerance_of<A: FloatArithmetic>(arith: &A, s: Seq<u64>, n: int, v: u64) -> bool {
    exists|norm: u64, x: u64, a: u64, b: u64|
        #[trigger] norm_of(arith, s, n, norm) && #[trigger] conversion_of(arith, n as u64, x) && #[trigger] product_of(
            arith,
            EPSILON,
            x,
            a,
        ) && #[trigger] product_of(arith, a, float_max(norm, ONE), b) && product_of(arith, b, SIXTY_FOUR, v)
}

/// Two runs of running sums along a row agree up to column `j`.
proof fn lemma_row_prefix_equal<A: FloatArithmetic>(arith: &A, s: Seq<u64>, n: int, r: int, p1: Seq<u64>, p2: Seq<u64>, j: int)
    requires
        deterministic(arith),
        row_sums(arith, s, n, r, p1),
        row_sums(arith, s, n, r, p2),
        0 <= j < n,
    ensures
        p1[j] == p2[j],
    decreases j,
{
    if j > 0 {
        lemma_row_prefix_equal(arith, s, n, r, p1, p2, j - 1);
        assert(row_sum_step(arith, s, n, r, p1, j));
        assert(row_sum_step(arith, s, n, r, p2, j));
    }
}

/// Two folds of the row sums agree up to step `k`.
proof fn lemma_fold_prefix_equal<A: FloatArithmetic>(
    arith: &A,
    s: Seq<u64>,
    n: int,
    q1: Seq<u64>,
    sums1: Seq<u64>,
    q2: Seq<u64>,
    sums2: Seq<u64>,
    k: int,
)
    requires
        deterministic(arith),
        norm_fold(arith, s, n, q1, sums1),
        norm_fold(arith, s, n, q2, sums2),
        0 <= k <= n,
    ensures
        q1[k] == q2[k],
    decreases k,
{
    if k > 0 {
        let r = k - 1;
        lemma_fold_prefix_equal(arith, s, n, q1, sums1, q2, sums2, r);
        assert(row_sum(arith, s, n, r, sums1[r]));
        assert(row_sum(arith, s, n, r, sums2[r]));
        let p1 = choose|p: Seq<u64>| #[trigger] row_sums(arith, s, n, r, p) && sums1[r] == p[n - 1];
        let p2 = choose|p: Seq<u64>| #[trigger] row_sums(arith, s, n, r, p) && sums2[r] == p[n - 1];
        lemma_row_prefix_equal(arith, s, n, r, p1, p2, n - 1);
    }
}

/// Step `k` of a fold of the row sums is not NaN, is not below any row sum
/// folded in so far, and is `+0.0` or one of them.
proof fn lemma_fold_bounds<A: FloatArithmetic>(arith: &A, s: Seq<u64>, n: int, q: Seq<u64>, sums: Seq<u64>, k: int)
    requires
        norm_fold(arith, s, n, q, sums),
        0 <= k <= n,
    ensures
        !is_nan(q[k]),
        forall|r: int| 0 <= r < k ==> !float_lt(q[k], #[trigger] sums[r]),
        q[k] == ZERO || exists|r: int| 0 <= r < k && #[trigger] sums[r] == q[k],
    decreases k,
{
    if k > 0 {
        let j = k - 1;
        lemma_fold_bounds(arith, s, n, q, sums, j);
        assert(0 <= j < n);
        assert(row_sum(arith, s, n, j, sums[j]));
        assert(q[k] == float_max(q[j], sums[j]));
        assert forall|r: int| 0 <= r < k implies !float_lt(q[k], #[trigger] sums[r]) by {
            if r < j {
                assert(!float_lt(q[j], sums[r]));
            }
        }
        if q[k] != ZERO && q[k] != sums[j] {
            assert(q[k] == q[j]);
        }
    }
}

/// The infinity norm is `+0.0` or the sum of absolute values of one of the
/// rows.
pub proof fn lemma_norm_is_a_row_sum<A: FloatArithmetic>(arith: &A, s: Seq<u64>, n: int, v: u64)
    requires
        norm_of(arith, s, n, v),
    ensures
        v == ZERO || exists|r: int, x: u64| 0 <= r < n && #[trigger] row_sum(arith, s, n, r, x) && v == x,
{
    let (q, sums) = choose|q: Seq<u64>, sums: Seq<u64>| #[trigger] norm_fold(arith, s, n, q, sums) && v == q[n];
    lemma_fold_bounds(arith, s, n, q, sums, n);
    if v != ZERO {
        let r = choose|r: int| 0 <= r < n && #[trigger] sums[r] == q[n];
        assert(row_sum(arith, s, n, r, sums[r]));
    }
}

/// With arithmetic that gives one result per arguments, the infinity norm is
/// not below the sum of absolute values of any row (added left to right from
/// the first entry's absolute value): it is the largest of them.
pub proof fn lemma_norm_bounds_every_row<A: FloatArithmetic>(arith: &A, s: Seq<u64>, n: int, v: u64)
    requires
        deterministic(arith),
        norm_of(arith, s, n, v),
    ensures
        forall|r: int, x: u64| 0 <= r < n && #[trigger] row_sum(arith, s, n, r, x) ==> !float_lt(v, x),
{
    let (q, sums) = choose|q: Seq<u64>, sums: Seq<u64>| #[trigger] norm_fold(arith, s, n, q, sums) && v == q[n];
    lemma_fold_bounds(arith, s, n, q, sums, n);
    assert forall|r: int, x: u64| 0 <= r < n && #[trigger] row_sum(arith, s, n, r, x) implies !float_lt(v, x) by {
        assert(row_sum(arith, s, n, r, sums[r]));
        let p1 = choose|p: Seq<u64>| #[trigger] row_sums(arith, s, n, r, p) && x == p[n - 1];
        let p2 = choose|p: Seq<u64>| #[trigger] row_sums(arith, s, n, r, p) && sums[r] == p[n - 1];
        lemma_row_prefix_equal(arith, s, n, r, p1, p2, n - 1);
        assert(!float_lt(q[n], sums[r]));
    }
}

/// With arithmetic that gives one result per arguments, the infinity norm is a
/// function of the entries.
pub proof fn lemma_norm_unique<A: FloatArithmetic>(arith: &A, s: Seq<u64>, n: int, v1: u64, v2: u64)
    requires
        deterministic(arith),
        1 <= n,
        norm_of(arith, s, n, v1),
        norm_of(arith, s, n, v2),
    ensures
        v1 == v2,
{
    let (q1, sums1) = choose|q: Seq<u64>, sums: Seq<u64>| #[trigger] norm_fold(arith, s, n, q, sums) && v1 == q[n];
    let (q2, sums2) = choose|q: Seq<u64>, sums: Seq<u64>| #[trigger] norm_fold(arith, s, n, q, sums) && v2 == q[n];
    lemma_fold_prefix_equal(arith, s, n, q1, sums1, q2, sums2, n);
}

/// With arithmetic that gives one result per arguments, the automatic
/// tolerance is a function of the entries.
pub proof fn lemma_auto_tolerance_unique<A: FloatArithmetic>(arith: &A, s: Seq<u64>, n: int, v1: u64, v2: u64)
    requires
        deterministic(arith),
        1 <= n,
        auto_tolerance_of(arith, s, n, v1),
        auto_tolerance_of(arith, s, n, v2),
    ensures
        v1 == v2,
{
    let (norm1, x1, a1, b1) = choose|norm: u64, x: u64, a: u64, b: u64|
        #[trigger] norm_of(arith, s, n, norm) && #[trigger] conversion_of(arith, n as u64, x) && #[trigger] product_of(
            arith,
            EPSILON,
            x,
            a,
        ) && #[trigger] product_of(arith, a, float_max(norm, ONE), b) && product_of(arith, b, SIXTY_FOUR, v1);
    let (norm2, x2, a2, b2) = choose|norm: u64, x: u64, a: u64, b: u64|
        #[trigger] norm_of(arith, s, n, norm) && #[trigger] conversion_of(arith, n as u64, x) && #[trigger] product_of(
            arith,
            EPSILON,
            x,
            a,
        ) && #[trigger] product_of(arith, a, float_max(norm, ONE), b) && product_of(arith, b, SIXTY_FOUR, v2);
    lemma_norm_unique(arith, s, n, norm1, norm2);
    assert(x1 == x2);
    assert(a1 == a2);
    assert(b1 == b2);
}

/// A dense square matrix.
///
/// The entries are IEEE-754 binary64 values held by their bit patterns, row by
/// row: the entry in row `r` and column `c` is at flat index `r * order + c`.
#[derive(Debug)]
pub struct Matrix {
    order: usize,
    data: Vec<u64>,
}

impl Clone for Matrix {
    /// A matrix of the same order with the same entries.
    fn clone(&self) -> (r: Self)
        ensures
            r.dim() == self.dim(),
            r@ == self@,
    {
        proof {
            use_type_invariant(self);
        }
        let len = self.data.len();
        let mut data: Vec<u64> = Vec::with_capacity(len);
        let mut i: usize = 0;
        while i < len
            invariant
                len == self.data@.len(),
                i <= len,
                data@ == self.data@.subrange(0, i as int),
            decreases len - i,
        {
            data.push(self.data[i]);
            i = i + 1;
        }
        assert(data@ =~= self.data@);
        Matrix { order: self.order, data }
    }
}

impl View for Matrix {
    type V = Seq<u64>;

    /// The entries, row by row.
    closed spec fn view(&self) -> Seq<u64> {
        self.data@
    }
}

impl Matrix {
    #[verifier::type_invariant]
    spec fn well_formed(&self) -> bool {
        &&& valid_order(self.order as int)
        &&& self.data@.len() == self.order * self.order
    }

    /// The order of the matrix.
    pub closed spec fn dim(&self) -> nat {
        self.order as nat
    }

    /// The order is valid and the entries fill the square.
    pub open spec fn shaped(&self) -> bool {
        &&& valid_order(self.dim() as int)
        &&& self@.len() == self.dim() * self.dim()
    }

    /// Builds a matrix of order `order` from its `order * order` entries, row by
    /// row.  Every entry must be finite.
    pub fn from_vec(order: usize, data: Vec<u64>) -> (r: Result<Self, MatrixError>)
        ensures
            match r {
                Ok(m) => {
                    &&& valid_order(order as int)
                    &&& data@.len() == order * order
                    &&& all_finite(data@)
                    &&& m.dim() == order
                    &&& m@ == data@
                    &&& m.shaped()
                },
                Err(MatrixError::InvalidOrder { order: o }) => o == order && !valid_order(order as int),
                Err(MatrixError::InvalidDataLength { expected, actual }) => {
                    &&& valid_order(order as int)
                    &&& expected == order * order
                    &&& actual == data@.len()
                    &&& actual != expected
                },
                Err(MatrixError::NonFiniteValue { index }) => {
                    &&& valid_order(order as int)
                    &&& data@.len() == order * order
                    &&& index < data@.len()
                    &&& !is_finite(data@[index as int])
                    &&& forall|j: int| 0 <= j < index ==> is_finite(#[trigger] data@[j])
                },
                Err(MatrixError::InvalidTolerance { .. }) => false,
            },
    {
        if let Err(e) = validate_order(order) {
            return Err(e);
        }
        assert(order * order <= MAX_ORDER * MAX_ORDER) by (nonlinear_arith)
            requires
                order <= MAX_ORDER,
        ;
        let expected = order * order;
        if data.len() != expected {
            return Err(MatrixError::InvalidDataLength { expected, actual: data.len() });
        }
        let mut i: usize = 0;
        while i < data.len()
            invariant
                valid_order(order as int),
                data@.len() == order * order,
                i <= data@.len(),
                forall|j: int| 0 <= j < i ==> is_finite(#[trigger] data@[j]),
            decreases data@.len() - i,
        {
            if !ieee::finite(data[i]) {
                return Err(MatrixError::NonFiniteValue { index: i });
            }
            i = i + 1;
        }
        Ok(Matrix { order, data })
    }

    /// The matrix of order `order` whose entries are all `+0.0`.
    pub fn zeros(order: usize) -> (r: Result<Self, MatrixError>)
        ensures
            r is Ok <==> valid_order(order as int),
            r is Err ==> r == Err::<Matrix, MatrixError>(MatrixError::InvalidOrder { order }),
            r matches Ok(m) ==> m.dim() == order && m@ == Seq::new((order * order) as nat, |i: int| ZERO)
                && m.shaped(),
    {
        if let Err(e) = validate_order(order) {
            return Err(e);
        }
        assert(order * order <= MAX_ORDER * MAX_ORDER) by (nonlinear_arith)
            requires
                order <= MAX_ORDER,
        ;
        let len = order * order;
        let mut data: Vec<u64> = Vec::with_capacity(len);
        let mut i: usize = 0;
        while i < len
            invariant
                i <= len,
                data@ == Seq::new(i as nat, |k: int| ZERO),
            decreases len - i,
        {
            data.push(ZERO);
            i = i + 1;
        }
        assert(data@ =~= Seq::new((order * order) as nat, |k: int| ZERO));
        Ok(Matrix { order, data })
    }

    /// The identity matrix of order `order`.
    pub fn identity(order: usize) -> (r: Result<Self, MatrixError>)
        ensures
            r is Ok <==> valid_order(order as int),
            r is Err ==> r == Err::<Matrix, MatrixError>(MatrixError::InvalidOrder { order }),
            r matches Ok(m) ==> m.dim() == order && m@ == identity_entries(order as nat) && m.shaped(),
    {
        let mut matrix = match Self::zeros(order) {
            Ok(m) => m,
            Err(e) => return Err(e),
        };
        let ghost n = order as int;
        let mut i: usize = 0;
        while i < order
            invariant
                n == order,
                i <= order,
                valid_order(n),
                matrix.dim() == order,
                matrix.shaped(),
                forall|k: int|
                    0 <= k < n * n ==> #[trigger] matrix@[k] == if k / n == k % n && k / n < i {
                        ONE
                    } else {
                        ZERO
                    },
            decreases order - i,
        {
            proof {
                lemma_index_bound(n, i as int, i as int);
                lemma_row_col(n, i as int, i as int);
            }
            matrix.set(i, i, ONE);
            proof {
                assert forall|k: int| 0 <= k < n * n implies #[trigger] matrix@[k] == if k / n == k
                    % n && k / n < i + 1 {
                    ONE
                } else {
                    ZERO
                } by {
                    lemma_index_split(n, k);
                    if k / n == k % n && k / n == i {
                        assert(k == i * n + i);
                    }
                }
            }
            i = i + 1;
        }
        assert forall|k: int| 0 <= k < n * n implies #[trigger] matrix@[k] == identity_entries(
            order as nat,
        )[k] by {
            lemma_index_split(n, k);
        }
        assert(matrix@ =~= identity_entries(order as nat));
        Ok(matrix)
    }

    /// The order of the matrix.
    pub fn order(&self) -> (r: usize)
        ensures
            r == self.dim(),
            self.shaped(),
    {
        proof {
            use_type_invariant(self);
        }
        self.order
    }

    /// The number of entries, `order * order`.
    pub fn len(&self) -> (r: usize)
        ensures
            r == self@.len(),
            r == self.dim() * self.dim(),
            self.shaped(),
    {
        proof {
            use_type_invariant(self);
        }
        self.data.len()
    }

    /// Whether the matrix has no entries (never, since the order is at least 1).
    pub fn is_empty(&self) -> (r: bool)
        ensures
            r == (self@.len() == 0),
            !r,
    {
        proof {
            use_type_invariant(self);
            assert(self.order * self.order >= 1) by (nonlinear_arith)
                requires
                    self.order >= 1,
            ;
        }
        self.data.len() == 0
    }

    /// The entry at flat index `row * order + col`.
    pub fn get(&self, row: usize, col: usize) -> (r: u64)
        requires
            row * self.dim() + col < self@.len(),
        ensures
            r == self@[row * self.dim() + col],
    {
        proof {
            use_type_invariant(self);
            lemma_square_fits(self.order as int);
        }
        self.data[row * self.order + col]
    }

    /// Replaces the entry at flat index `row * order + col`.
    pub(crate) fn set(&mut self, row: usize, col: usize, value: u64)
        requires
            row * old(self).dim() + col < old(self)@.len(),
        ensures
            final(self).dim() == old(self).dim(),
            final(self)@ == old(self)@.update(row * old(self).dim() + col, value),
            final(self).shaped(),
    {
        proof {
            use_type_invariant(&*self);
            lemma_square_fits(self.order as int);
        }
        let index = row * self.order + col;
        self.data[index] = value;
    }

    /// The entries, row by row.
    pub fn as_slice(&self) -> (r: &[u64])
        ensures
            r@ == self@,
    {
        self.data.as_slice()
    }

    /// The bytes that the entries occupy: eight per entry.
    pub fn memory_bytes(&self) -> (r: usize)
        ensures
            r == self@.len() * ENTRY_BYTES,
    {
        proof {
            use_type_invariant(self);
            assert(self.order * self.order <= MAX_ORDER * MAX_ORDER) by (nonlinear_arith)
                requires
                    self.order <= MAX_ORDER,
            ;
        }
        self.data.len() * ENTRY_BYTES
    }

    /// The infinity norm: the largest sum of absolute values along a row.
    ///
    /// Each row sum starts from its first entry's absolute value and adds the
    /// others in order; the rows are folded with `max`, starting from `+0.0`.
    /// Only the sums of two or more entries go through `arith`, so a matrix of
    /// order 1 has the norm `max(+0.0, |entry|)`.
    pub fn infinity_norm<A: FloatArithmetic>(&self, arith: &A) -> (r: u64)
        ensures
            norm_of(arith, self@, self.dim() as int, r),
            !is_nan(r),
            !float_lt(r, ZERO),
            self.dim() == 1 ==> r == float_max(ZERO, magnitude(self@[0])),
    {
        proof {
            use_type_invariant(self);
        }
        let n = self.order;
        let ghost ni = n as int;
        let ghost s = self.data@;
        let mut norm: u64 = ZERO;
        let ghost mut q: Seq<u64> = seq![ZERO];
        let ghost mut sums: Seq<u64> = Seq::empty();
        let mut row: usize = 0;
        while row < n
            invariant
                n == self.order,
                ni == n,
                s == self.data@,
                valid_order(n as int),
                self.data@.len() == n * n,
                row <= n,
                !is_nan(norm),
                !float_lt(norm, ZERO),
                n == 1 ==> norm == if row == 0 { ZERO } else { float_max(ZERO, magnitude(self.data@[0])) },
                q.len() == row + 1,
                sums.len() == row,
                q[0] == ZERO,
                q[row as int] == norm,
                forall|r: int|
                    0 <= r < row ==> #[trigger] row_sum(arith, s, ni, r, sums[r]) && q[r + 1] == float_max(q[r], sums[r]),
            decreases n - row,
        {
            proof {
                lemma_index_bound(n as int, row as int, 0);
            }
            let start = row * n;
            let mut sum = ieee::abs(self.data[start]);
            let ghost mut p: Seq<u64> = seq![sum];
            let mut col: usize = 1;
            while col < n
                invariant
                    n == self.order,
                    ni == n,
                    s == self.data@,
                    valid_order(n as int),
                    self.data@.len() == n * n,
                    row < n,
                    start == row * n,
                    1 <= col <= n,
                    n == 1 ==> sum == magnitude(self.data@[start as int]),
                    p.len() == col,
                    p[0] == magnitude(s[row * ni]),
                    p[col - 1] == sum,
                    forall|j: int| 1 <= j < col ==> #[trigger] row_sum_step(arith, s, ni, row as int, p, j),
                decreases n - col,
            {
                proof {
                    lemma_index_bound(n as int, row as int, col as int);
                }
                let next = arith.add(sum, ieee::abs(self.data[start + col]));
                proof {
                    let np = p.push(next);
                    assert(row_sum_step(arith, s, ni, row as int, np, col as int));
                    assert forall|j: int| 1 <= j < col + 1 implies #[trigger] row_sum_step(arith, s, ni, row as int, np, j) by {
                        if j < col {
                            assert(row_sum_step(arith, s, ni, row as int, p, j));
                        }
                    }
                    p = np;
                }
                sum = next;
                col = col + 1;
            }
            assert(row_sums(arith, s, ni, row as int, p));
            assert(row_sum(arith, s, ni, row as int, sum));
            norm = ieee::max(norm, sum);
            proof {
                let nq = q.push(norm);
                let ns = sums.push(sum);
                assert forall|r: int|
                    0 <= r < row + 1 implies #[trigger] row_sum(arith, s, ni, r, ns[r]) && nq[r + 1] == float_max(nq[r], ns[r]) by {
                    if r < row {
                        assert(row_sum(arith, s, ni, r, sums[r]));
                    }
                }
                q = nq;
                sums = ns;
            }
            row = row + 1;
        }
        assert(norm_fold(arith, s, ni, q, sums));
        norm
    }

    /// The tolerance used when none is given:
    /// `EPSILON * order * max(infinity_norm, 1.0) * 64.0`, multiplied left to right.
    pub fn auto_tolerance<A: FloatArithmetic>(&self, arith: &A) -> (r: u64)
        ensures
            auto_tolerance_of(arith, self@, self.dim() as int, r),
    {
        let norm = self.infinity_norm(arith);
        let scale = ieee::max(norm, ONE);
        let order = self.order() as u64;
        let n = arith.from_u64(order);
        let a = arith.mul(EPSILON, n);
        let b = arith.mul(a, scale);
        let r = arith.mul(b, SIXTY_FOUR);
        assert(norm_of(arith, self@, self.dim() as int, norm) && conversion_of(arith, self.dim() as u64, n)
            && product_of(arith, EPSILON, n, a) && product_of(arith, a, float_max(norm, ONE), b));
        r
    }
}

} // verus!
