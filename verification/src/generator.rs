//! Reproducible generators of singular, invertible and random matrices.
use vstd::prelude::*;
use crate::ieee::{self, FloatArithmetic, magnitude, sum_of, difference_of, product_of, quotient_of, conversion_of, deterministic, FIVE_QUARTERS, ONE, QUARTER, THREE_QUARTERS, TWO, TWO_POW_53, ZERO};
use crate::matrix::{Matrix, MatrixError, valid_order, MAX_ORDER, lemma_index_bound, lemma_index_split};

verus! {

/// The kind of matrix to generate.
#[derive(Debug, Clone, Copy, PartialEq, Eq, Structural)]
pub enum MatrixKind {
    /// The last row is a combination of the first two (or the matrix is `[0]`).
    Singular,
    /// Strictly diagonally dominant by rows.
    Invertible,
    /// Entries drawn uniformly from `[-1, 1)`.
    Random,
}

/// `c` with `A..=Z` mapped to `a..=z`.
pub open spec fn ascii_lower(c: char) -> char {
    if 'A' <= c && c <= 'Z' {
        ((c as u32) + 32) as char
    } else {
        c
    }
}

/// The text with every ASCII capital replaced by its small letter.
pub open spec fn ascii_lowercase(s: Seq<char>) -> Seq<char> {
    Seq::new(s.len(), |i: int| ascii_lower(s[i]))
}

/// `str::to_ascii_lowercase`: a copy in which `A..=Z` become `a..=z` and every
/// other character is kept, as the standard library documents.
#[verifier::external_body]
pub(crate) fn to_ascii_lowercase(s: &str) -> (r: String)
    ensures
        r@ == ascii_lowercase(s@),
{
    s.to_ascii_lowercase()
}

/// The name of a kind, as `parse` reads it.
pub open spec fn kind_name(kind: MatrixKind) -> Seq<char> {
    match kind {
        MatrixKind::Singular => "singular"@,
        MatrixKind::Invertible => "invertible"@,
        MatrixKind::Random => "random"@,
    }
}

/// What `parse` answers for a text whose ASCII-lowercased form is `lower`.
pub open spec fn parsed_kind(lower: Seq<char>) -> Result<MatrixKind, Seq<char>> {
    if lower == "singular"@ {
        Ok(MatrixKind::Singular)
    } else if lower == "invertible"@ {
        Ok(MatrixKind::Invertible)
    } else if lower == "random"@ {
        Ok(MatrixKind::Random)
    } else {
        Err("invalid matrix kind '"@ + lower + "'; expected singular, invertible, or random"@)
    }
}

impl MatrixKind {
    /// The lower-case name of the kind.
    pub fn name(&self) -> (r: &'static str)
        ensures
            r@ == kind_name(*self),
    {
        match self {
            MatrixKind::Singular => "singular",
            MatrixKind::Invertible => "invertible",
            MatrixKind::Random => "random",
        }
    }

    /// Reads a kind from its name, ignoring ASCII case.
    pub fn parse(value: &str) -> (r: Result<MatrixKind, String>)
        ensures
            match (r, parsed_kind(ascii_lowercase(value@))) {
                (Ok(k), Ok(expected)) => k == expected,
                (Err(m), Err(expected)) => m@ == expected,
                _ => false,
            },
    {
        let lower = to_ascii_lowercase(value);
        let singular = String::from_str("singular");
        let invertible = String::from_str("invertible");
        let random = String::from_str("random");
        proof {
            reveal_strlit("singular");
            reveal_strlit("invertible");
            reveal_strlit("random");
        }
        if lower == singular {
            Ok(MatrixKind::Singular)
        } else if lower == invertible {
            Ok(MatrixKind::Invertible)
        } else if lower == random {
            Ok(MatrixKind::Random)
        } else {
            let mut message = String::from_str("invalid matrix kind '");
            message.append(lower.as_str());
            message.append("'; expected singular, invertible, or random");
            Err(message)
        }
    }
}

/// Reading a kind's name, in any ASCII case, gives the kind back.
pub proof fn lemma_name_parses_back(kind: MatrixKind, text: Seq<char>)
    requires
        ascii_lowercase(text) == kind_name(kind),
    ensures
        parsed_kind(ascii_lowercase(text)) == Ok::<MatrixKind, Seq<char>>(kind),
{
    reveal_strlit("singular");
    reveal_strlit("invertible");
    reveal_strlit("random");
    assert("singular"@.len() == 8);
    assert("invertible"@.len() == 10);
    assert("random"@.len() == 6);
    assert("singular"@[0] == 's');
    assert("random"@[0] == 'r');
}

impl core::str::FromStr for MatrixKind {
    type Err = String;

    fn from_str(value: &str) -> (r: Result<Self, Self::Err>)
        ensures
            match (r, parsed_kind(ascii_lowercase(value@))) {
                (Ok(k), Ok(expected)) => k == expected,
                (Err(m), Err(expected)) => m@ == expected,
                _ => false,
            },
    {
        MatrixKind::parse(value)
    }
}

/// The increment of the SplitMix64 state.
pub const GOLDEN_GAMMA: u64 = 0x9e37_79b9_7f4a_7c15;

/// First multiplier of the SplitMix64 output mix.
pub const MIX_MULTIPLIER_1: u64 = 0xbf58_476d_1ce4_e5b9;

/// Second multiplier of the SplitMix64 output mix.
pub const MIX_MULTIPLIER_2: u64 = 0x94d0_49bb_1331_11eb;

/// The SplitMix64 output function applied to a state.
pub open spec fn mix(state: u64) -> u64 {
    let a = vstd::wrapping::u64_specs::wrapping_mul(state ^ (state >> 30u64), MIX_MULTIPLIER_1);
    let b = vstd::wrapping::u64_specs::wrapping_mul(a ^ (a >> 27u64), MIX_MULTIPLIER_2);
    b ^ (b >> 31u64)
}

/// The state after `k` steps from `seed`: `seed + k * GOLDEN_GAMMA` modulo `2^64`.
pub open spec fn state_after(seed: u64, k: nat) -> u64 {
    ((seed as int + k * (GOLDEN_GAMMA as int)) % 0x1_0000_0000_0000_0000) as u64
}

/// The `k`-th number (counting from 0) drawn from a generator seeded with `seed`.
pub open spec fn draw(seed: u64, k: nat) -> u64 {
    mix(state_after(seed, k + 1))
}

/// `r` is what `unit_interval` gives when the generator steps to `state`: the
/// top 53 bits of `mix(state)`, converted, divided by `2^53`.
pub open spec fn unit_value<A: FloatArithmetic>(arith: &A, state: u64, r: u64) -> bool {
    exists|x: u64|
        #[trigger] conversion_of(arith, mix(state) >> 11u64, x) && quotient_of(arith, x, TWO_POW_53, r)
}

/// `r` is what `signed_unit` gives when the generator steps to `state`:
/// `2 * u - 1` for the unit value `u`.
pub open spec fn signed_value<A: FloatArithmetic>(arith: &A, state: u64, r: u64) -> bool {
    exists|u: u64, d: u64|
        #[trigger] unit_value(arith, state, u) && #[trigger] product_of(arith, TWO, u, d) && difference_of(
            arith,
            d,
            ONE,
            r,
        )
}

/// The SplitMix64 pseudo-random number generator.
#[derive(Debug, Clone, Copy)]
pub struct SplitMix64 {
    state: u64,
}

impl View for SplitMix64 {
    type V = u64;

    /// The current state.
    closed spec fn view(&self) -> u64 {
        self.state
    }
}

impl SplitMix64 {
    /// A generator whose state is `seed`.
    pub fn new(seed: u64) -> (r: Self)
        ensures
            r@ == seed,
    {
        Self { state: seed }
    }

    /// Advances the state by `GOLDEN_GAMMA` and returns the mixed new state.
    pub fn next_u64(&mut self) -> (r: u64)
        ensures
            final(self)@ == vstd::wrapping::u64_specs::wrapping_add(old(self)@, GOLDEN_GAMMA),
            r == mix(final(self)@),
    {
        self.state = self.state.wrapping_add(GOLDEN_GAMMA);
        let mut z = self.state;
        z = (z ^ (z >> 30)).wrapping_mul(MIX_MULTIPLIER_1);
        z = (z ^ (z >> 27)).wrapping_mul(MIX_MULTIPLIER_2);
        z ^ (z >> 31)
    }

    /// A number in `[0, 1)`: the top 53 bits of the next draw divided by `2^53`.
    pub fn unit_interval<A: FloatArithmetic>(&mut self, arith: &A) -> (r: u64)
        ensures
            final(self)@ == vstd::wrapping::u64_specs::wrapping_add(old(self)@, GOLDEN_GAMMA),
            unit_value(arith, final(self)@, r),
    {
        let numerator = self.next_u64() >> 11;
        let x = arith.from_u64(numerator);
        let r = arith.div(x, TWO_POW_53);
        assert(conversion_of(arith, mix(self@) >> 11u64, x));
        r
    }

    /// A number in `[-1, 1)`: `2 * unit_interval() - 1`.
    pub fn signed_unit<A: FloatArithmetic>(&mut self, arith: &A) -> (r: u64)
        ensures
            final(self)@ == vstd::wrapping::u64_specs::wrapping_add(old(self)@, GOLDEN_GAMMA),
            signed_value(arith, final(self)@, r),
    {
        let u = self.unit_interval(arith);
        let d = arith.mul(TWO, u);
        let r = arith.sub(d, ONE);
        assert(unit_value(arith, self@, u) && product_of(arith, TWO, u, d));
        r
    }
}

/// `wrapping_add` of `GOLDEN_GAMMA` takes the state `k` steps from `seed` to
/// the state `k + 1` steps from it.
pub proof fn lemma_state_step(seed: u64, k: nat)
    ensures
        vstd::wrapping::u64_specs::wrapping_add(state_after(seed, k), GOLDEN_GAMMA) == state_after(
            seed,
            k + 1,
        ),
{
    let m: int = 0x1_0000_0000_0000_0000;
    let x = seed as int + k * (GOLDEN_GAMMA as int);
    vstd::arithmetic::div_mod::lemma_add_mod_noop(x, GOLDEN_GAMMA as int, m);
    vstd::arithmetic::div_mod::lemma_mod_pos_bound(x, m);
    vstd::arithmetic::div_mod::lemma_mod_pos_bound(GOLDEN_GAMMA as int, m);
    vstd::arithmetic::div_mod::lemma_small_mod(GOLDEN_GAMMA as nat, m as nat);
    let y = x % m + GOLDEN_GAMMA as int;
    if y >= m {
        vstd::arithmetic::div_mod::lemma_fundamental_div_mod_converse(y, m, 1, y - m);
    } else {
        vstd::arithmetic::div_mod::lemma_small_mod(y as nat, m as nat);
    }
    assert(x + GOLDEN_GAMMA as int == seed as int + (k + 1) * (GOLDEN_GAMMA as int)) by (nonlinear_arith)
        requires
            x == seed as int + k * (GOLDEN_GAMMA as int),
    ;
}

/// Reproducibility: a generator seeded with `seed` hands out `draw(seed, 0)`,
/// `draw(seed, 1)`, ... in this order, whatever happened before.
pub proof fn lemma_draws_follow_seed(seed: u64, k: nat, before: u64, after: u64, out: u64)
    requires
        before == state_after(seed, k),
        after == vstd::wrapping::u64_specs::wrapping_add(before, GOLDEN_GAMMA),
        out == mix(after),
    ensures
        after == state_after(seed, k + 1),
        out == draw(seed, k),
{
    lemma_state_step(seed, k);
}

/// Entry `k` as `fill_signed_units` writes it from a generator in state
/// `start`: the signed value of the `k`-th draw.
pub open spec fn drawn_entry<A: FloatArithmetic>(arith: &A, start: u64, k: int, v: u64) -> bool {
    signed_value(arith, state_after(start, (k + 1) as nat), v)
}

/// The entries of the random matrix of order `n` from `seed`: draw after draw,
/// row by row.
pub open spec fn random_entries<A: FloatArithmetic>(arith: &A, seed: u64, n: int, s: Seq<u64>) -> bool {
    &&& s.len() == n * n
    &&& forall|k: int| 0 <= k < n * n ==> #[trigger] drawn_entry(arith, seed, k, s[k])
}

/// `v` is `1.25 * a - 0.75 * b`.
pub open spec fn dependent_entry<A: FloatArithmetic>(arith: &A, a: u64, b: u64, v: u64) -> bool {
    exists|x: u64, y: u64|
        #[trigger] product_of(arith, FIVE_QUARTERS, a, x) && #[trigger] product_of(arith, THREE_QUARTERS, b, y)
            && difference_of(arith, x, y, v)
}

/// The entries of the singular matrix of order `n` from `seed`: the random
/// entries, except that for order 1 the entry is `+0.0`, for order 2 the second
/// row is twice the first, and from order 3 on the last row is `1.25` times the
/// first minus `0.75` times the second.
pub open spec fn singular_entries<A: FloatArithmetic>(arith: &A, seed: u64, n: int, s: Seq<u64>) -> bool {
    &&& s.len() == n * n
    &&& n == 1 ==> s[0] == ZERO
    &&& n == 2 ==> forall|c: int|
        0 <= c < 2 ==> #[trigger] drawn_entry(arith, seed, c, s[c]) && product_of(arith, TWO, s[c], s[2 + c])
    &&& n >= 3 ==> forall|k: int| 0 <= k < (n - 1) * n ==> #[trigger] drawn_entry(arith, seed, k, s[k])
    &&& n >= 3 ==> forall|c: int|
        0 <= c < n ==> #[trigger] dependent_entry(arith, s[c], s[n + c], s[(n - 1) * n + c])
}

/// The draw (counting from 0) that the off-diagonal entry in row `r` and column
/// `c` of the invertible matrix of order `n` comes from.
pub open spec fn off_diagonal_draw(r: int, c: int, n: int) -> int {
    r * n + if c < r {
        c
    } else {
        c - 1
    }
}

/// `v` is `0.25` times the signed value drawn in state `state`.
pub open spec fn quarter_entry<A: FloatArithmetic>(arith: &A, state: u64, v: u64) -> bool {
    exists|u: u64| #[trigger] signed_value(arith, state, u) && product_of(arith, QUARTER, u, v)
}

/// Step `j` of the running sum of absolute values along row `r`, which skips
/// the diagonal.
pub open spec fn partial_sum_step<A: FloatArithmetic>(arith: &A, s: Seq<u64>, n: int, r: int, p: Seq<u64>, j: int) -> bool {
    if j == r {
        p[j + 1] == p[j]
    } else {
        sum_of(arith, p[j], magnitude(s[r * n + j]), p[j + 1])
    }
}

/// `p` holds the running sums, from `+0.0`, of the absolute values of the
/// off-diagonal entries of row `r`, added left to right.
pub open spec fn off_diagonal_sums<A: FloatArithmetic>(arith: &A, s: Seq<u64>, n: int, r: int, p: Seq<u64>) -> bool {
    &&& p.len() == n + 1
    &&& p[0] == ZERO
    &&& forall|j: int| 0 <= j < n ==> #[trigger] partial_sum_step(arith, s, n, r, p, j)
}

/// The diagonal entry of row `r`: the sum of the absolute values of the others
/// in the row plus `1 + unit`, where `unit` is the row's last draw.
pub open spec fn diagonal_entry<A: FloatArithmetic>(arith: &A, seed: u64, s: Seq<u64>, n: int, r: int) -> bool {
    exists|p: Seq<u64>, unit: u64, margin: u64|
        #[trigger] off_diagonal_sums(arith, s, n, r, p) && #[trigger] unit_value(
            arith,
            state_after(seed, (r * n + n) as nat),
            unit,
        ) && #[trigger] sum_of(arith, ONE, unit, margin) && sum_of(arith, p[n], margin, s[r * n + r])
}

/// The entries of the invertible matrix of order `n` from `seed`.
pub open spec fn invertible_entries<A: FloatArithmetic>(arith: &A, seed: u64, n: int, s: Seq<u64>) -> bool {
    &&& s.len() == n * n
    &&& forall|r: int, c: int|
        0 <= r < n && 0 <= c < n && c != r ==> #[trigger] quarter_entry(
            arith,
            state_after(seed, (off_diagonal_draw(r, c, n) + 1) as nat),
            s[r * n + c],
        )
    &&& forall|r: int| 0 <= r < n ==> #[trigger] diagonal_entry(arith, seed, s, n, r)
}

/// A diagonal entry depends on its row alone.
proof fn lemma_diagonal_entry_frame<A: FloatArithmetic>(arith: &A, seed: u64, s1: Seq<u64>, s2: Seq<u64>, n: int, r: int)
    requires
        0 <= r < n,
        diagonal_entry(arith, seed, s1, n, r),
        forall|c: int| 0 <= c < n ==> #[trigger] s1[r * n + c] == s2[r * n + c],
    ensures
        diagonal_entry(arith, seed, s2, n, r),
{
    let (p, unit, margin) = choose|p: Seq<u64>, unit: u64, margin: u64|
        #[trigger] off_diagonal_sums(arith, s1, n, r, p) && #[trigger] unit_value(
            arith,
            state_after(seed, (r * n + n) as nat),
            unit,
        ) && #[trigger] sum_of(arith, ONE, unit, margin) && sum_of(arith, p[n], margin, s1[r * n + r]);
    assert forall|j: int| 0 <= j < n implies #[trigger] partial_sum_step(arith, s2, n, r, p, j) by {
        assert(partial_sum_step(arith, s1, n, r, p, j));
        assert(s1[r * n + j] == s2[r * n + j]);
    }
    assert(off_diagonal_sums(arith, s2, n, r, p));
    assert(s1[r * n + r] == s2[r * n + r]);
}

/// The entries that generation of `kind` gives for order `n` and `seed`.
pub open spec fn generated_entries<A: FloatArithmetic>(arith: &A, kind: MatrixKind, seed: u64, n: int, s: Seq<u64>) -> bool {
    match kind {
        MatrixKind::Singular => singular_entries(arith, seed, n, s),
        MatrixKind::Invertible => invertible_entries(arith, seed, n, s),
        MatrixKind::Random => random_entries(arith, seed, n, s),
    }
}

/// Generates a matrix of the given order and kind from `seed`.
pub fn generate_matrix<A: FloatArithmetic>(order: usize, kind: MatrixKind, seed: u64, arith: &A) -> (r: Result<Matrix, MatrixError>)
    ensures
        r is Ok <==> valid_order(order as int),
        r is Err ==> r == Err::<Matrix, MatrixError>(MatrixError::InvalidOrder { order }),
        r matches Ok(m) ==> m.dim() == order && m.shaped(),
        r matches Ok(m) ==> generated_entries(arith, kind, seed, order as int, m@),
{
    match kind {
        MatrixKind::Singular => generate_singular(order, seed, arith),
        MatrixKind::Invertible => generate_invertible(order, seed, arith),
        MatrixKind::Random => generate_random(order, seed, arith),
    }
}

proof fn lemma_unit_value_unique<A: FloatArithmetic>(arith: &A, state: u64, r1: u64, r2: u64)
    requires
        deterministic(arith),
        unit_value(arith, state, r1),
        unit_value(arith, state, r2),
    ensures
        r1 == r2,
{
    let x1 = choose|x: u64| #[trigger] conversion_of(arith, mix(state) >> 11u64, x) && quotient_of(arith, x, TWO_POW_53, r1);
    let x2 = choose|x: u64| #[trigger] conversion_of(arith, mix(state) >> 11u64, x) && quotient_of(arith, x, TWO_POW_53, r2);
    assert(x1 == x2);
    assert(quotient_of(arith, x1, TWO_POW_53, r1) && quotient_of(arith, x1, TWO_POW_53, r2));
}

proof fn lemma_signed_value_unique<A: FloatArithmetic>(arith: &A, state: u64, r1: u64, r2: u64)
    requires
        deterministic(arith),
        signed_value(arith, state, r1),
        signed_value(arith, state, r2),
    ensures
        r1 == r2,
{
    let (u1, d1) = choose|u: u64, d: u64|
        #[trigger] unit_value(arith, state, u) && #[trigger] product_of(arith, TWO, u, d) && difference_of(arith, d, ONE, r1);
    let (u2, d2) = choose|u: u64, d: u64|
        #[trigger] unit_value(arith, state, u) && #[trigger] product_of(arith, TWO, u, d) && difference_of(arith, d, ONE, r2);
    lemma_unit_value_unique(arith, state, u1, u2);
    assert(product_of(arith, TWO, u1, d1) && product_of(arith, TWO, u1, d2));
    assert(d1 == d2);
    assert(difference_of(arith, d1, ONE, r1) && difference_of(arith, d1, ONE, r2));
}

proof fn lemma_quarter_entry_unique<A: FloatArithmetic>(arith: &A, state: u64, v1: u64, v2: u64)
    requires
        deterministic(arith),
        quarter_entry(arith, state, v1),
        quarter_entry(arith, state, v2),
    ensures
        v1 == v2,
{
    let u1 = choose|u: u64| #[trigger] signed_value(arith, state, u) && product_of(arith, QUARTER, u, v1);
    let u2 = choose|u: u64| #[trigger] signed_value(arith, state, u) && product_of(arith, QUARTER, u, v2);
    lemma_signed_value_unique(arith, state, u1, u2);
    assert(product_of(arith, QUARTER, u1, v1) && product_of(arith, QUARTER, u1, v2));
}

proof fn lemma_dependent_entry_unique<A: FloatArithmetic>(arith: &A, a: u64, b: u64, v1: u64, v2: u64)
    requires
        deterministic(arith),
        dependent_entry(arith, a, b, v1),
        dependent_entry(arith, a, b, v2),
    ensures
        v1 == v2,
{
    let (x1, y1) = choose|x: u64, y: u64|
        #[trigger] product_of(arith, FIVE_QUARTERS, a, x) && #[trigger] product_of(arith, THREE_QUARTERS, b, y)
            && difference_of(arith, x, y, v1);
    let (x2, y2) = choose|x: u64, y: u64|
        #[trigger] product_of(arith, FIVE_QUARTERS, a, x) && #[trigger] product_of(arith, THREE_QUARTERS, b, y)
            && difference_of(arith, x, y, v2);
    assert(x1 == x2 && y1 == y2);
    assert(difference_of(arith, x1, y1, v1) && difference_of(arith, x1, y1, v2));
}

/// Reproducibility: with an arithmetic whose operations give one result for
/// given arguments, the same order, kind and seed give the same entries.
pub proof fn lemma_generation_reproducible<A: FloatArithmetic>(
    arith: &A,
    kind: MatrixKind,
    seed: u64,
    n: int,
    s1: Seq<u64>,
    s2: Seq<u64>,
)
    requires
        deterministic(arith),
        1 <= n,
        generated_entries(arith, kind, seed, n, s1),
        generated_entries(arith, kind, seed, n, s2),
    ensures
        s1 == s2,
{
    assert(s1.len() == s2.len());
    match kind {
        MatrixKind::Random => {
            assert forall|k: int| 0 <= k < s1.len() implies s1[k] == s2[k] by {
                assert(drawn_entry(arith, seed, k, s1[k]) && drawn_entry(arith, seed, k, s2[k]));
                lemma_signed_value_unique(arith, state_after(seed, (k + 1) as nat), s1[k], s2[k]);
            }
        },
        MatrixKind::Singular => {
            if n == 1 {
            } else if n == 2 {
                assert forall|k: int| 0 <= k < s1.len() implies s1[k] == s2[k] by {
                    let c = if k < 2 { k } else { k - 2 };
                    assert(drawn_entry(arith, seed, c, s1[c]) && drawn_entry(arith, seed, c, s2[c]));
                    lemma_signed_value_unique(arith, state_after(seed, (c + 1) as nat), s1[c], s2[c]);
                    if k >= 2 {
                        assert(product_of(arith, TWO, s1[c], s1[2 + c]) && product_of(arith, TWO, s1[c], s2[2 + c]));
                    }
                }
            } else {
                assert forall|k: int| 0 <= k < (n - 1) * n implies s1[k] == s2[k] by {
                    assert(drawn_entry(arith, seed, k, s1[k]) && drawn_entry(arith, seed, k, s2[k]));
                    lemma_signed_value_unique(arith, state_after(seed, (k + 1) as nat), s1[k], s2[k]);
                }
                assert forall|k: int| 0 <= k < s1.len() implies s1[k] == s2[k] by {
                    lemma_index_split(n, k);
                    let r = k / n;
                    let c = k % n;
                    if r < n - 1 {
                        assert(k < (n - 1) * n) by (nonlinear_arith)
                            requires
                                k == r * n + c,
                                0 <= r < n - 1,
                                0 <= c < n,
                        ;
                    } else {
                        assert(k == (n - 1) * n + c);
                        assert(c < (n - 1) * n && n + c < (n - 1) * n) by (nonlinear_arith)
                            requires
                                n >= 3,
                                0 <= c < n,
                        ;
                        assert(dependent_entry(arith, s1[c], s1[n + c], s1[(n - 1) * n + c]));
                        assert(dependent_entry(arith, s2[c], s2[n + c], s2[(n - 1) * n + c]));
                        lemma_dependent_entry_unique(arith, s1[c], s1[n + c], s1[k], s2[k]);
                    }
                }
            }
        },
        MatrixKind::Invertible => {
            assert forall|r: int, c: int| 0 <= r < n && 0 <= c < n && c != r implies #[trigger] s1[r * n + c] == s2[r * n + c] by {
                let st = state_after(seed, (off_diagonal_draw(r, c, n) + 1) as nat);
                assert(quarter_entry(arith, st, s1[r * n + c]) && quarter_entry(arith, st, s2[r * n + c]));
                lemma_quarter_entry_unique(arith, st, s1[r * n + c], s2[r * n + c]);
            }
            assert forall|r: int| 0 <= r < n implies #[trigger] s1[r * n + r] == s2[r * n + r] by {
                lemma_diagonal_unique(arith, seed, s1, s2, n, r);
            }
            assert forall|k: int| 0 <= k < s1.len() implies s1[k] == s2[k] by {
                lemma_index_split(n, k);
                let r = k / n;
                let c = k % n;
                assert(s1[r * n + c] == s2[r * n + c]);
            }
        },
    }
    assert(s1 =~= s2);
}

/// With the off-diagonal entries of row `r` equal, the diagonal entries are too.
/// `v` is `2 * ((word >> 11) / 2^53) - 1` as `arith` computes it: the top 53
/// bits of `word` converted, divided by `2^53`, doubled, and reduced by `1.0`.
pub open spec fn twice_unit_less_one<A: FloatArithmetic>(arith: &A, word: u64, v: u64) -> bool {
    exists|x: u64, u: u64, d: u64|
        #[trigger] conversion_of(arith, word >> 11u64, x) && #[trigger] quotient_of(arith, x, TWO_POW_53, u)
            && #[trigger] product_of(arith, TWO, u, d) && difference_of(arith, d, ONE, v)
}

/// The signed value of a draw is `2 * ((d >> 11) / 2^53) - 1` of the word `d`
/// that the generator hands out at that state.
proof fn lemma_signed_value_from_word<A: FloatArithmetic>(arith: &A, state: u64, v: u64)
    requires
        signed_value(arith, state, v),
    ensures
        twice_unit_less_one(arith, mix(state), v),
{
    let (u, d) = choose|u: u64, d: u64|
        #[trigger] unit_value(arith, state, u) && #[trigger] product_of(arith, TWO, u, d) && difference_of(arith, d, ONE, v);
    let x = choose|x: u64| #[trigger] conversion_of(arith, mix(state) >> 11u64, x) && quotient_of(arith, x, TWO_POW_53, u);
    assert(conversion_of(arith, mix(state) >> 11u64, x) && quotient_of(arith, x, TWO_POW_53, u) && product_of(arith, TWO, u, d));
}

/// Entry `k` of a random matrix is `2 * ((d >> 11) / 2^53) - 1` for the `k`-th
/// draw `d` from the seed, row by row.
pub proof fn lemma_random_entries_from_draws<A: FloatArithmetic>(arith: &A, seed: u64, n: int, s: Seq<u64>)
    requires
        random_entries(arith, seed, n, s),
    ensures
        s.len() == n * n,
        forall|k: int| 0 <= k < n * n ==> #[trigger] twice_unit_less_one(arith, draw(seed, k as nat), s[k]),
{
    assert forall|k: int| 0 <= k < n * n implies #[trigger] twice_unit_less_one(arith, draw(seed, k as nat), s[k]) by {
        assert(drawn_entry(arith, seed, k, s[k]));
        lemma_signed_value_from_word(arith, state_after(seed, (k + 1) as nat), s[k]);
    }
}

/// `v` is `0.25 * w` as `arith` computes it, for `w = 2 * ((word >> 11) / 2^53) - 1`.
pub open spec fn quarter_of_twice_unit_less_one<A: FloatArithmetic>(arith: &A, word: u64, v: u64) -> bool {
    exists|w: u64| #[trigger] twice_unit_less_one(arith, word, w) && product_of(arith, QUARTER, w, v)
}

/// Each off-diagonal entry of an invertible matrix is `0.25 * w`, where `w` is
/// `2 * ((d >> 11) / 2^53) - 1` for the draw `d` the entry comes from.
pub proof fn lemma_invertible_off_diagonal_from_draws<A: FloatArithmetic>(arith: &A, seed: u64, n: int, s: Seq<u64>)
    requires
        invertible_entries(arith, seed, n, s),
    ensures
        s.len() == n * n,
        forall|r: int, c: int|
            0 <= r < n && 0 <= c < n && c != r ==> #[trigger] quarter_of_twice_unit_less_one(
                arith,
                draw(seed, off_diagonal_draw(r, c, n) as nat),
                s[r * n + c],
            ),
{
    assert forall|r: int, c: int| 0 <= r < n && 0 <= c < n && c != r implies #[trigger] quarter_of_twice_unit_less_one(
        arith,
        draw(seed, off_diagonal_draw(r, c, n) as nat),
        s[r * n + c],
    ) by {
        let k = off_diagonal_draw(r, c, n);
        assert(0 <= r * n) by (nonlinear_arith)
            requires
                0 <= r,
                0 <= n,
        ;
        let state = state_after(seed, (k + 1) as nat);
        assert(quarter_entry(arith, state, s[r * n + c]));
        let w = choose|u: u64| #[trigger] signed_value(arith, state, u) && product_of(arith, QUARTER, u, s[r * n + c]);
        lemma_signed_value_from_word(arith, state, w);
        assert(twice_unit_less_one(arith, draw(seed, k as nat), w));
    }
}

/// `v` is `1.25 * a - 0.75 * b` as `arith` computes it: both products first,
/// then their difference.
pub open spec fn five_quarters_less_three_quarters<A: FloatArithmetic>(arith: &A, a: u64, b: u64, v: u64) -> bool {
    exists|x: u64, y: u64|
        #[trigger] product_of(arith, FIVE_QUARTERS, a, x) && #[trigger] product_of(arith, THREE_QUARTERS, b, y)
            && difference_of(arith, x, y, v)
}

/// The rows of a singular matrix: of order 1 it is `[+0.0]`; of order 2 its
/// first row comes from the first two draws and its second row is twice the
/// first; from order 3 on, every row but the last comes from the draws, row by
/// row, and the last row is `1.25` times the first minus `0.75` times the second.
pub proof fn lemma_singular_rows<A: FloatArithmetic>(arith: &A, seed: u64, n: int, s: Seq<u64>)
    requires
        singular_entries(arith, seed, n, s),
    ensures
        s.len() == n * n,
        n == 1 ==> s[0] == ZERO,
        n == 2 ==> forall|c: int|
            0 <= c < 2 ==> #[trigger] twice_unit_less_one(arith, draw(seed, c as nat), s[c]) && product_of(
                arith,
                TWO,
                s[c],
                s[2 + c],
            ),
        n >= 3 ==> forall|k: int|
            0 <= k < (n - 1) * n ==> #[trigger] twice_unit_less_one(arith, draw(seed, k as nat), s[k]),
        n >= 3 ==> forall|c: int|
            0 <= c < n ==> #[trigger] five_quarters_less_three_quarters(arith, s[c], s[n + c], s[(n - 1) * n + c]),
{
    if n == 2 {
        assert forall|c: int| 0 <= c < 2 implies #[trigger] twice_unit_less_one(arith, draw(seed, c as nat), s[c])
            && product_of(arith, TWO, s[c], s[2 + c]) by {
            assert(drawn_entry(arith, seed, c, s[c]));
            lemma_signed_value_from_word(arith, state_after(seed, (c + 1) as nat), s[c]);
        }
    }
    if n >= 3 {
        assert forall|k: int| 0 <= k < (n - 1) * n implies #[trigger] twice_unit_less_one(arith, draw(seed, k as nat), s[k]) by {
            assert(drawn_entry(arith, seed, k, s[k]));
            lemma_signed_value_from_word(arith, state_after(seed, (k + 1) as nat), s[k]);
        }
        assert forall|c: int| 0 <= c < n implies #[trigger] five_quarters_less_three_quarters(
            arith,
            s[c],
            s[n + c],
            s[(n - 1) * n + c],
        ) by {
            assert(dependent_entry(arith, s[c], s[n + c], s[(n - 1) * n + c]));
        }
    }
}

/// With arithmetic that gives one result per arguments, the singular matrix of
/// order `n >= 2` from a seed differs from the random one from the same seed
/// in its last row only.
pub proof fn lemma_singular_keeps_random_rows<A: FloatArithmetic>(
    arith: &A,
    seed: u64,
    n: int,
    singular: Seq<u64>,
    random: Seq<u64>,
)
    requires
        deterministic(arith),
        2 <= n,
        singular_entries(arith, seed, n, singular),
        random_entries(arith, seed, n, random),
    ensures
        forall|k: int| 0 <= k < (n - 1) * n ==> #[trigger] singular[k] == random[k],
{
    assert forall|k: int| 0 <= k < (n - 1) * n implies #[trigger] singular[k] == random[k] by {
        assert(k < n * n) by (nonlinear_arith)
            requires
                0 <= k < (n - 1) * n,
                2 <= n,
        ;
        assert(drawn_entry(arith, seed, k, random[k]));
        assert(drawn_entry(arith, seed, k, singular[k]));
        lemma_signed_value_unique(arith, state_after(seed, (k + 1) as nat), singular[k], random[k]);
    }
}

proof fn lemma_diagonal_unique<A: FloatArithmetic>(arith: &A, seed: u64, s1: Seq<u64>, s2: Seq<u64>, n: int, r: int)
    requires
        deterministic(arith),
        0 <= r < n,
        diagonal_entry(arith, seed, s1, n, r),
        diagonal_entry(arith, seed, s2, n, r),
        forall|c: int| 0 <= c < n && c != r ==> #[trigger] s1[r * n + c] == s2[r * n + c],
    ensures
        s1[r * n + r] == s2[r * n + r],
{
    let (p1, u1, m1) = choose|p: Seq<u64>, unit: u64, margin: u64|
        #[trigger] off_diagonal_sums(arith, s1, n, r, p) && #[trigger] unit_value(
            arith,
            state_after(seed, (r * n + n) as nat),
            unit,
        ) && #[trigger] sum_of(arith, ONE, unit, margin) && sum_of(arith, p[n], margin, s1[r * n + r]);
    let (p2, u2, m2) = choose|p: Seq<u64>, unit: u64, margin: u64|
        #[trigger] off_diagonal_sums(arith, s2, n, r, p) && #[trigger] unit_value(
            arith,
            state_after(seed, (r * n + n) as nat),
            unit,
        ) && #[trigger] sum_of(arith, ONE, unit, margin) && sum_of(arith, p[n], margin, s2[r * n + r]);
    lemma_unit_value_unique(arith, state_after(seed, (r * n + n) as nat), u1, u2);
    assert(sum_of(arith, ONE, u1, m1) && sum_of(arith, ONE, u1, m2));
    assert(m1 == m2);
    lemma_sums_unique(arith, s1, s2, n, r, p1, p2, n);
    assert(sum_of(arith, p1[n], m1, s1[r * n + r]) && sum_of(arith, p1[n], m1, s2[r * n + r]));
}

proof fn lemma_sums_unique<A: FloatArithmetic>(arith: &A, s1: Seq<u64>, s2: Seq<u64>, n: int, r: int, p1: Seq<u64>, p2: Seq<u64>, j: int)
    requires
        deterministic(arith),
        0 <= r < n,
        0 <= j <= n,
        off_diagonal_sums(arith, s1, n, r, p1),
        off_diagonal_sums(arith, s2, n, r, p2),
        forall|c: int| 0 <= c < n && c != r ==> #[trigger] s1[r * n + c] == s2[r * n + c],
    ensures
        p1[j] == p2[j],
    decreases j,
{
    if j > 0 {
        lemma_sums_unique(arith, s1, s2, n, r, p1, p2, j - 1);
        assert(partial_sum_step(arith, s1, n, r, p1, j - 1));
        assert(partial_sum_step(arith, s2, n, r, p2, j - 1));
        if j - 1 != r {
            assert(s1[r * n + (j - 1)] == s2[r * n + (j - 1)]);
            assert(sum_of(arith, p1[j - 1], magnitude(s1[r * n + j - 1]), p1[j]));
            assert(sum_of(arith, p1[j - 1], magnitude(s1[r * n + j - 1]), p2[j]));
        }
    }
}

/// Fills every entry, row by row, with `signed_unit` draws: one draw per entry,
/// so the generator ends `order * order` steps further on.
fn fill_signed_units<A: FloatArithmetic>(matrix: &mut Matrix, rng: &mut SplitMix64, arith: &A)
    requires
        old(matrix).shaped(),
    ensures
        final(matrix).dim() == old(matrix).dim(),
        final(matrix).shaped(),
        final(rng)@ == state_after(old(rng)@, old(matrix).dim() * old(matrix).dim()),
        forall|k: int|
            0 <= k < old(matrix).dim() * old(matrix).dim() ==> #[trigger] drawn_entry(
                arith,
                old(rng)@,
                k,
                final(matrix)@[k],
            ),
{
    let ghost start = rng@;
    proof {
        assert(state_after(start, 0) == start) by {
            vstd::arithmetic::div_mod::lemma_small_mod(start as nat, 0x1_0000_0000_0000_0000nat);
        }
    }
    let order = matrix.order();
    let ghost n = order as int;
    let mut row: usize = 0;
    while row < order
        invariant
            n == order,
            order == matrix.dim(),
            matrix.shaped(),
            row <= order,
            rng@ == state_after(start, (row * order) as nat),
            forall|k: int| 0 <= k < row * n ==> #[trigger] drawn_entry(arith, start, k, matrix@[k]),
        decreases order - row,
    {
        let mut col: usize = 0;
        while col < order
            invariant
                n == order,
                order == matrix.dim(),
                matrix.shaped(),
                row < order,
                col <= order,
                rng@ == state_after(start, (row * order + col) as nat),
                forall|k: int| 0 <= k < row * n + col ==> #[trigger] drawn_entry(arith, start, k, matrix@[k]),
            decreases order - col,
        {
            proof {
                lemma_index_bound(order as int, row as int, col as int);
                lemma_state_step(start, (row * order + col) as nat);
            }
            let value = rng.signed_unit(arith);
            matrix.set(row, col, value);
            assert(drawn_entry(arith, start, row * n + col, matrix@[row * n + col]));
            col = col + 1;
        }
        assert(row * order + order == (row + 1) * order) by (nonlinear_arith);
        row = row + 1;
    }
}

/// Random entries whose last row is `1.25` times the first minus `0.75` times
/// the second; for order 2 the second row is twice the first; for order 1 the
/// only entry is `+0.0`.
fn generate_singular<A: FloatArithmetic>(order: usize, seed: u64, arith: &A) -> (r: Result<Matrix, MatrixError>)
    ensures
        r is Ok <==> valid_order(order as int),
        r is Err ==> r == Err::<Matrix, MatrixError>(MatrixError::InvalidOrder { order }),
        r matches Ok(m) ==> m.dim() == order && m.shaped(),
        r matches Ok(m) ==> singular_entries(arith, seed, order as int, m@),
{
    let mut rng = SplitMix64::new(seed);
    let mut matrix = match Matrix::zeros(order) {
        Ok(m) => m,
        Err(e) => return Err(e),
    };
    fill_signed_units(&mut matrix, &mut rng, arith);
    let ghost n = order as int;
    let ghost filled = matrix@;
    if order == 1 {
        assert(matrix.dim() == 1);
        assert(matrix.dim() * matrix.dim() == 1) by (nonlinear_arith)
            requires
                matrix.dim() == 1,
        ;
        assert(matrix@.len() == 1);
        matrix.set(0, 0, ZERO);
    } else if order == 2 {
        assert(n * n == 4) by (nonlinear_arith)
            requires
                n == 2,
        ;
        let mut col: usize = 0;
        while col < order
            invariant
                order == 2,
                n == 2,
                matrix.dim() == order,
                matrix.shaped(),
                filled.len() == 4,
                col <= order,
                forall|k: int| 0 <= k < 4 ==> #[trigger] drawn_entry(arith, seed, k, filled[k]),
                forall|k: int| 0 <= k < 2 ==> matrix@[k] == filled[k],
                forall|c: int| 0 <= c < col ==> product_of(arith, TWO, matrix@[c], #[trigger] matrix@[2 + c]),
            decreases order - col,
        {
            let entry = matrix.get(0, col);
            let doubled = arith.mul(TWO, entry);
            matrix.set(1, col, doubled);
            col = col + 1;
        }
        assert forall|c: int| 0 <= c < 2 implies #[trigger] drawn_entry(arith, seed, c, matrix@[c]) && product_of(
            arith,
            TWO,
            matrix@[c],
            matrix@[2 + c],
        ) by {
            assert(matrix@[c] == filled[c]);
        }
    } else {
        let last = order - 1;
        proof {
            lemma_index_bound(n, last as int, 0);
            assert(last * n == (n - 1) * n);
            assert(last * n + n == n * n) by (nonlinear_arith)
                requires
                    last == n - 1,
            ;
        }
        let mut col: usize = 0;
        while col < order
            invariant
                3 <= order <= MAX_ORDER,
                n == order,
                last == order - 1,
                matrix.dim() == order,
                matrix.shaped(),
                filled.len() == n * n,
                col <= order,
                last * n + n == n * n,
                forall|k: int| 0 <= k < n * n ==> #[trigger] drawn_entry(arith, seed, k, filled[k]),
                forall|k: int| 0 <= k < last * n ==> matrix@[k] == filled[k],
                forall|c: int|
                    0 <= c < col ==> #[trigger] dependent_entry(arith, matrix@[c], matrix@[n + c], matrix@[last * n + c]),
            decreases order - col,
        {
            proof {
                lemma_index_bound(order as int, 0, col as int);
                lemma_index_bound(order as int, 1, col as int);
                lemma_index_bound(order as int, last as int, col as int);
                assert(2 * n <= last * n) by (nonlinear_arith)
                    requires
                        last >= 2,
                        n >= 0,
                ;
            }
            let a = matrix.get(0, col);
            let b = matrix.get(1, col);
            let first = arith.mul(FIVE_QUARTERS, a);
            let second = arith.mul(THREE_QUARTERS, b);
            let dependent = arith.sub(first, second);
            let ghost before = matrix@;
            matrix.set(last, col, dependent);
            assert(product_of(arith, FIVE_QUARTERS, a, first) && product_of(arith, THREE_QUARTERS, b, second)
                && difference_of(arith, first, second, dependent));
            assert(dependent_entry(arith, a, b, dependent));
            assert forall|c: int| 0 <= c < col + 1 implies #[trigger] dependent_entry(
                arith,
                matrix@[c],
                matrix@[n + c],
                matrix@[last * n + c],
            ) by {
                assert(matrix@[c] == before[c]);
                assert(matrix@[n + c] == before[n + c]);
                if c < col {
                    assert(matrix@[last * n + c] == before[last * n + c]);
                }
            }
            col = col + 1;
        }
        assert(last * n == (n - 1) * n);
        assert forall|k: int| 0 <= k < (n - 1) * n implies #[trigger] drawn_entry(arith, seed, k, matrix@[k]) by {
            assert(matrix@[k] == filled[k]);
        }
    }
    Ok(matrix)
}

/// Off-diagonal entries `0.25 * signed_unit()`; each diagonal entry is the sum
/// of the absolute values of the others in its row plus `1 + unit_interval()`.
fn generate_invertible<A: FloatArithmetic>(order: usize, seed: u64, arith: &A) -> (r: Result<Matrix, MatrixError>)
    ensures
        r is Ok <==> valid_order(order as int),
        r is Err ==> r == Err::<Matrix, MatrixError>(MatrixError::InvalidOrder { order }),
        r matches Ok(m) ==> m.dim() == order && m.shaped(),
        r matches Ok(m) ==> invertible_entries(arith, seed, order as int, m@),
{
    let mut rng = SplitMix64::new(seed);
    let mut matrix = match Matrix::zeros(order) {
        Ok(m) => m,
        Err(e) => return Err(e),
    };
    let ghost n = order as int;
    proof {
        assert(state_after(seed, 0) == seed) by {
            vstd::arithmetic::div_mod::lemma_small_mod(seed as nat, 0x1_0000_0000_0000_0000nat);
        }
    }
    let mut row: usize = 0;
    while row < order
        invariant
            n == order,
            order == matrix.dim(),
            matrix.shaped(),
            row <= order,
            rng@ == state_after(seed, (row * order) as nat),
            forall|r: int, c: int|
                0 <= r < row && 0 <= c < n && c != r ==> #[trigger] quarter_entry(
                    arith,
                    state_after(seed, (off_diagonal_draw(r, c, n) + 1) as nat),
                    matrix@[r * n + c],
                ),
            forall|r: int| 0 <= r < row ==> #[trigger] diagonal_entry(arith, seed, matrix@, n, r),
        decreases order - row,
    {
        let mut off_diagonal_sum: u64 = ZERO;
        let ghost mut sums: Seq<u64> = seq![ZERO];
        let mut col: usize = 0;
        while col < order
            invariant
                n == order,
                order == matrix.dim(),
                matrix.shaped(),
                row < order,
                col <= order,
                rng@ == state_after(seed, (row * order + if col <= row { col } else { (col - 1) as usize }) as nat),
                sums.len() == col + 1,
                sums[0] == ZERO,
                sums[col as int] == off_diagonal_sum,
                forall|j: int| 0 <= j < col ==> #[trigger] partial_sum_step(arith, matrix@, n, row as int, sums, j),
                forall|r: int, c: int|
                    (0 <= r < row && 0 <= c < n || r == row && 0 <= c < col) && c != r ==> #[trigger] quarter_entry(
                        arith,
                        state_after(seed, (off_diagonal_draw(r, c, n) + 1) as nat),
                        matrix@[r * n + c],
                    ),
                forall|r: int| 0 <= r < row ==> #[trigger] diagonal_entry(arith, seed, matrix@, n, r),
            decreases order - col,
        {
            if row != col {
                proof {
                    lemma_index_bound(order as int, row as int, col as int);
                    lemma_state_step(seed, (off_diagonal_draw(row as int, col as int, n)) as nat);
                }
                let ghost before = matrix@;
                let drawn = rng.signed_unit(arith);
                let value = arith.mul(QUARTER, drawn);
                matrix.set(row, col, value);
                let next = arith.add(off_diagonal_sum, ieee::abs(value));
                proof {
                    let idx = row * n + col;
                    assert(signed_value(arith, state_after(seed, (off_diagonal_draw(row as int, col as int, n) + 1) as nat), drawn));
                    assert(quarter_entry(arith, state_after(seed, (off_diagonal_draw(row as int, col as int, n) + 1) as nat), value));
                    let new_sums = sums.push(next);
                    assert(partial_sum_step(arith, matrix@, n, row as int, new_sums, col as int));
                    assert forall|j: int| 0 <= j < col implies #[trigger] partial_sum_step(arith, matrix@, n, row as int, new_sums, j) by {
                        assert(partial_sum_step(arith, before, n, row as int, sums, j));
                        if j != row {
                            assert(row * n + j != idx);
                        }
                    }
                    assert forall|r: int| 0 <= r < row implies #[trigger] diagonal_entry(arith, seed, matrix@, n, r) by {
                        assert forall|c: int| 0 <= c < n implies #[trigger] before[r * n + c] == matrix@[r * n + c] by {
                            lemma_index_bound(n, r, c);
                            assert(r * n + c < row * n) by (nonlinear_arith)
                                requires
                                    0 <= r,
                                    0 <= c,
                                    r < row,
                                    c < n,
                            ;
                        }
                        lemma_diagonal_entry_frame(arith, seed, before, matrix@, n, r);
                    }
                    assert forall|r: int, c: int|
                        (0 <= r < row && 0 <= c < n || r == row && 0 <= c < col + 1) && c != r implies #[trigger] quarter_entry(
                        arith,
                        state_after(seed, (off_diagonal_draw(r, c, n) + 1) as nat),
                        matrix@[r * n + c],
                    ) by {
                        if !(r == row && c == col) {
                            lemma_index_bound(n, r, c);
                            if r < row {
                                assert(r * n + c < row * n) by (nonlinear_arith)
                                    requires
                                        0 <= r,
                                        0 <= c,
                                        r < row,
                                        c < n,
                                ;
                            }
                            assert(matrix@[r * n + c] == before[r * n + c]);
                        }
                    }
                    sums = new_sums;
                }
                off_diagonal_sum = next;
            } else {
                proof {
                    let new_sums = sums.push(off_diagonal_sum);
                    assert(partial_sum_step(arith, matrix@, n, row as int, new_sums, col as int));
                    assert forall|j: int| 0 <= j < col implies #[trigger] partial_sum_step(arith, matrix@, n, row as int, new_sums, j) by {
                        assert(partial_sum_step(arith, matrix@, n, row as int, sums, j));
                    }
                    sums = new_sums;
                }
            }
            col = col + 1;
        }
        proof {
            lemma_index_bound(order as int, row as int, row as int);
            lemma_state_step(seed, (row * n + n - 1) as nat);
        }
        let unit = rng.unit_interval(arith);
        let margin = arith.add(ONE, unit);
        let diagonal = arith.add(off_diagonal_sum, margin);
        let ghost before = matrix@;
        matrix.set(row, row, diagonal);
        proof {
            let r0 = row as int;
            assert(off_diagonal_sums(arith, before, n, r0, sums));
            assert forall|j: int| 0 <= j < n implies #[trigger] partial_sum_step(arith, matrix@, n, r0, sums, j) by {
                assert(partial_sum_step(arith, before, n, r0, sums, j));
            }
            assert(off_diagonal_sums(arith, matrix@, n, r0, sums));
            assert(unit_value(arith, state_after(seed, (r0 * n + n) as nat), unit));
            assert(sum_of(arith, ONE, unit, margin) && sum_of(arith, sums[n], margin, matrix@[r0 * n + r0]));
            assert(diagonal_entry(arith, seed, matrix@, n, r0));
            assert forall|r: int| 0 <= r < row implies #[trigger] diagonal_entry(arith, seed, matrix@, n, r) by {
                assert forall|c: int| 0 <= c < n implies #[trigger] before[r * n + c] == matrix@[r * n + c] by {
                    lemma_index_bound(n, r, c);
                    assert(r * n + c < r0 * n) by (nonlinear_arith)
                        requires
                            0 <= r,
                            0 <= c,
                            r < r0,
                            c < n,
                    ;
                }
                lemma_diagonal_entry_frame(arith, seed, before, matrix@, n, r);
            }
            assert forall|r: int, c: int|
                0 <= r < row + 1 && 0 <= c < n && c != r implies #[trigger] quarter_entry(
                arith,
                state_after(seed, (off_diagonal_draw(r, c, n) + 1) as nat),
                matrix@[r * n + c],
            ) by {
                lemma_index_bound(n, r, c);
                if r < r0 {
                    assert(r * n + c < r0 * n) by (nonlinear_arith)
                        requires
                            0 <= r,
                            0 <= c,
                            r < r0,
                            c < n,
                    ;
                }
                assert(matrix@[r * n + c] == before[r * n + c]);
            }
            assert(r0 * n + n == (r0 + 1) * n) by (nonlinear_arith);
        }
        row = row + 1;
    }
    Ok(matrix)
}

/// Every entry a `signed_unit` draw, row by row.
fn generate_random<A: FloatArithmetic>(order: usize, seed: u64, arith: &A) -> (r: Result<Matrix, MatrixError>)
    ensures
        r is Ok <==> valid_order(order as int),
        r is Err ==> r == Err::<Matrix, MatrixError>(MatrixError::InvalidOrder { order }),
        r matches Ok(m) ==> m.dim() == order && m.shaped(),
        r matches Ok(m) ==> random_entries(arith, seed, order as int, m@),
{
    let mut rng = SplitMix64::new(seed);
    let mut matrix = match Matrix::zeros(order) {
        Ok(m) => m,
        Err(e) => return Err(e),
    };
    fill_signed_units(&mut matrix, &mut rng, arith);
    Ok(matrix)
}

} // verus!
