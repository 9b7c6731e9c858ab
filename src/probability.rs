//! Exact binomial coefficients and match probabilities in 128-bit arithmetic.

use vstd::prelude::*;
use crate::error::LottoError;

verus! {

/// The binomial coefficient C(n, k), by Pascal's rule.
pub open spec fn binom(n: nat, k: nat) -> nat
    decreases n,
{
    if k == 0 {
        1
    } else if n == 0 {
        0
    } else {
        binom((n - 1) as nat, (k - 1) as nat) + binom((n - 1) as nat, k)
    }
}

/// `min(k, n - k)`: how many multiply-then-divide steps C(n, k) takes when `k <= n`.
pub open spec fn reduced(n: nat, k: nat) -> nat {
    if k <= n - k {
        k
    } else {
        (n - k) as nat
    }
}

/// The product formed at step `i` of computing C(n, k): `C(n, i) * (n - i)`.
pub open spec fn step_product(n: nat, i: nat) -> int {
    binom(n, i) * (n - i)
}

/// Every intermediate product `C(n, i) * (n - i)`, for `i < min(k, n - k)`,
/// fits in a `u128`.
pub open spec fn combination_fits(n: nat, k: nat) -> bool {
    k > n || forall|i: nat| i < reduced(n, k) ==> #[trigger] step_product(n, i) <= u128::MAX
}

/// Every quantity that `calculate_probability` computes fits in a `u128`.
pub open spec fn probability_fits(total: nat, pick: nat, matched: nat) -> bool {
    &&& combination_fits(total, pick)
    &&& combination_fits(pick, matched)
    &&& combination_fits((total - pick) as nat, (pick - matched) as nat)
    &&& binom(pick, matched) * binom((total - pick) as nat, (pick - matched) as nat) <= u128::MAX
}

/// C(n, k) is zero when `k > n`.
pub proof fn lemma_binom_above(n: nat, k: nat)
    requires
        k > n,
    ensures
        binom(n, k) == 0,
    decreases n,
{
    if n > 0 {
        lemma_binom_above((n - 1) as nat, (k - 1) as nat);
        lemma_binom_above((n - 1) as nat, k);
    }
}

/// C(n, n) is one.
pub proof fn lemma_binom_full(n: nat)
    ensures
        binom(n, n) == 1,
    decreases n,
{
    if n > 0 {
        lemma_binom_full((n - 1) as nat);
        lemma_binom_above((n - 1) as nat, n);
    }
}

/// C(n, 1) is n.
proof fn lemma_binom_one(n: nat)
    ensures
        binom(n, 1) == n,
    decreases n,
{
    if n > 0 {
        let n1 = (n - 1) as nat;
        lemma_binom_one(n1);
        assert(binom(n1, 0) == 1);
        assert(binom(n, 1) == binom(n1, 0) + binom(n1, 1));
    }
}

/// Absorption: `k * C(n, k) == n * C(n - 1, k - 1)`.
proof fn lemma_binom_absorb(n: nat, k: nat)
    requires
        n >= 1,
        k >= 1,
    ensures
        k * binom(n, k) == n * binom((n - 1) as nat, (k - 1) as nat),
    decreases n,
{
    let n1 = (n - 1) as nat;
    let k1 = (k - 1) as nat;
    if n == 1 {
        assert(binom(0, 0) == 1);
        if k > 1 {
            lemma_binom_above(0, k1);
            lemma_binom_above(1, k);
        } else {
            lemma_binom_one(1);
        }
    } else if k == 1 {
        lemma_binom_one(n);
        assert(binom(n1, 0) == 1);
    } else {
        let n2 = (n - 2) as nat;
        let k2 = (k - 2) as nat;
        lemma_binom_absorb(n1, k);
        lemma_binom_absorb(n1, k1);
        let a = binom(n1, k1);
        let b = binom(n1, k);
        let c = binom(n2, k2);
        let d = binom(n2, k1);
        assert(binom(n, k) == a + b);
        assert(a == c + d);
        assert(k * b == n1 * d);
        assert(k1 * a == n1 * c);
        assert(k * (a + b) == n * a) by (nonlinear_arith)
            requires
                a == c + d,
                k * b == n1 * d,
                k1 * a == n1 * c,
                k == k1 + 1,
                n == n1 + 1,
        ;
    }
}

/// One multiply-then-divide step: `C(n, i) * (n - i) == C(n, i + 1) * (i + 1)`.
proof fn lemma_binom_step(n: nat, i: nat)
    requires
        i < n,
    ensures
        binom(n, i) * (n - i) == binom(n, i + 1) * (i + 1),
{
    let n1 = (n - 1) as nat;
    lemma_binom_absorb(n, i + 1);
    let x = binom(n, i);
    let y = binom(n, i + 1);
    let e = binom(n1, i);
    assert((i + 1) * y == n * e);
    if i == 0 {
        assert(x == 1);
        assert(e == 1);
        assert(x * (n - i) == y * (i + 1)) by (nonlinear_arith)
            requires
                (i + 1) * y == n * e,
                x == 1,
                e == 1,
                i == 0,
        ;
    } else {
        lemma_binom_absorb(n, i);
        let f = binom(n1, (i - 1) as nat);
        assert(x == f + e);
        assert(i * x == n * f);
        assert(x * (n - i) == y * (i + 1)) by (nonlinear_arith)
            requires
                (i + 1) * y == n * e,
                x == f + e,
                i * x == n * f,
                i < n,
        ;
    }
}

/// Symmetry: `C(n, k) == C(n, n - k)` for `k <= n`.
pub proof fn lemma_binom_symmetric(n: nat, k: nat)
    requires
        k <= n,
    ensures
        binom(n, k) == binom(n, (n - k) as nat),
    decreases n,
{
    lemma_binom_full(n);
    if 0 < k < n {
        let n1 = (n - 1) as nat;
        lemma_binom_symmetric(n1, (k - 1) as nat);
        lemma_binom_symmetric(n1, k);
    }
}

/// `combination(n, k)` and `combination(n, n - k)` agree for `k <= n`: both
/// succeed with the same coefficient, or both overflow.
pub proof fn lemma_combination_symmetric(n: nat, k: nat)
    requires
        k <= n,
    ensures
        combination_fits(n, k) == combination_fits(n, (n - k) as nat),
        binom(n, k) == binom(n, (n - k) as nat),
{
    lemma_binom_symmetric(n, k);
    assert(reduced(n, k) == reduced(n, (n - k) as nat));
}

/// Relies on `format!`: names the coefficient and the step whose product overflowed.
#[verifier::external_body]
fn combination_overflow_text(n: usize, k: usize, step: usize) -> String {
    format!("combination C({},{}) multiplication overflow at iteration {}", n, k, step)
}

/// Relies on `format!`: names the two factors whose product overflowed.
#[verifier::external_body]
fn favorable_overflow_text(ways_to_match: u128, ways_to_miss: u128) -> String {
    format!("favorable outcomes: {} * {}", ways_to_match, ways_to_miss)
}

/// The binomial coefficient C(n, k), computed as `result = result * (n - i) / (i + 1)`
/// for `i < min(k, n - k)`; it is zero when `k > n`.
///
/// Fails with `CalculationOverflow` exactly when one of the products does
/// not fit in a `u128`.
pub fn combination(n: usize, k: usize) -> (r: Result<u128, LottoError>)
    ensures
        r is Ok <==> combination_fits(n as nat, k as nat),
        r is Ok ==> r->Ok_0 == binom(n as nat, k as nat),
        r is Err ==> r->Err_0 is CalculationOverflow,
{
    if k > n {
        proof {
            lemma_binom_above(n as nat, k as nat);
        }
        return Ok(0);
    }
    if k == 0 || k == n {
        proof {
            lemma_binom_full(n as nat);
        }
        return Ok(1);
    }
    let kk: usize = if k <= n - k {
        k
    } else {
        n - k
    };
    proof {
        lemma_binom_symmetric(n as nat, k as nat);
    }
    let mut result: u128 = 1;
    let mut i: usize = 0;
    while i < kk
        invariant
            0 <= i <= kk,
            kk == reduced(n as nat, k as nat),
            kk <= n,
            k <= n,
            result == binom(n as nat, i as nat),
            forall|j: nat| j < i ==> #[trigger] step_product(n as nat, j) <= u128::MAX,
        decreases kk - i,
    {
        match result.checked_mul((n - i) as u128) {
            None => {
                proof {
                    let j = i as nat;
                    assert(step_product(n as nat, j) > u128::MAX);

                    assert(!combination_fits(n as nat, k as nat));
                }
                return Err(
                    LottoError::CalculationOverflow {
                        operation: combination_overflow_text(n, kk, i),
                    },
                );
            },
            Some(product) => {
                proof {
                    lemma_binom_step(n as nat, i as nat);
                    assert(product == binom(n as nat, (i + 1) as nat) * (i + 1));
                    assert((product as int) / ((i + 1) as int) == binom(n as nat, (i + 1) as nat))
                        by (nonlinear_arith)
                        requires
                            product == binom(n as nat, (i + 1) as nat) * (i + 1),
                    ;
                }
                result = product / ((i + 1) as u128);
            },
        }
        i = i + 1;
    }
    proof {
        assert(binom(n as nat, kk as nat) == binom(n as nat, k as nat));
    }
    Ok(result)
}

/// Probability of matching exactly `match_count` of `pick_count` balls drawn
/// from `total_balls`, as `(favorable, total)` where
/// `favorable = C(pick, match) * C(total - pick, pick - match)` and
/// `total = C(total, pick)`.
///
/// Fails with `InvalidMatchCount` when `match_count > pick_count`, with
/// `PickExceedsRange` when `pick_count > total_balls`, and with
/// `CalculationOverflow` exactly when a quantity does not fit in a `u128`.
pub fn calculate_probability(total_balls: usize, pick_count: usize, match_count: usize) -> (r:
    Result<(u128, u128), LottoError>)
    ensures
        match_count > pick_count ==> r == Err::<(u128, u128), LottoError>(
            LottoError::InvalidMatchCount { match_count, pick_count },
        ),
        match_count <= pick_count && pick_count > total_balls ==> r == Err::<
            (u128, u128),
            LottoError,
        >(LottoError::PickExceedsRange { pick: pick_count, available: total_balls }),
        match_count <= pick_count <= total_balls ==> {
            &&& r is Ok <==> probability_fits(
                total_balls as nat,
                pick_count as nat,
                match_count as nat,
            )
            &&& r is Ok ==> r->Ok_0 == (
                (binom(pick_count as nat, match_count as nat) * binom(
                    (total_balls - pick_count) as nat,
                    (pick_count - match_count) as nat,
                )) as u128,
                binom(total_balls as nat, pick_count as nat) as u128,
            )
            &&& r is Err ==> r->Err_0 is CalculationOverflow
        },
{
    if match_count > pick_count {
        return Err(LottoError::InvalidMatchCount { match_count, pick_count });
    }
    if pick_count > total_balls {
        return Err(LottoError::PickExceedsRange { pick: pick_count, available: total_balls });
    }
    let total_outcomes = combination(total_balls, pick_count)?;
    let ways_to_match = combination(pick_count, match_count)?;
    let ways_to_miss = combination(total_balls - pick_count, pick_count - match_count)?;
    match ways_to_match.checked_mul(ways_to_miss) {
        None => Err(
            LottoError::CalculationOverflow {
                operation: favorable_overflow_text(ways_to_match, ways_to_miss),
            },
        ),
        Some(favorable_outcomes) => Ok((favorable_outcomes, total_outcomes)),
    }
}

} // verus!
