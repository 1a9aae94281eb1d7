//! Closed-form counting: factorials, k-permutation and k-combination
//! counts, and range totals, all exact over 128-bit integers with
//! explicit overflow reporting.

use crate::ErrorKind;
use vstd::prelude::*;

verus! {

/// `n!` as a mathematical integer.
pub open spec fn fact(n: nat) -> nat
    decreases n,
{
    if n == 0 {
        1
    } else {
        n * fact((n - 1) as nat)
    }
}

/// Number of ordered arrangements of `k` positions drawn from `n`
/// positions: `n * (n-1) * ... * (n-k+1)`, and `0` when `k > n`.
pub open spec fn perm_count(n: nat, k: nat) -> nat
    decreases k,
{
    if k > n {
        0
    } else if k == 0 {
        1
    } else {
        n * perm_count((n - 1) as nat, (k - 1) as nat)
    }
}

/// Number of unordered selections of `k` positions drawn from `n`
/// positions, by Pascal's rule.
pub open spec fn comb_count(n: nat, k: nat) -> nat
    decreases n,
{
    if k > n {
        0
    } else if k == 0 {
        1
    } else {
        comb_count((n - 1) as nat, (k - 1) as nat) + comb_count((n - 1) as nat, k)
    }
}

/// Exact factorial, or `None` when `n!` does not fit in a `u128`.
pub fn factorial(n: usize) -> (r: Option<u128>)
    ensures
        r is Some <==> fact(n as nat) <= u128::MAX,
        r is Some ==> r->0 == fact(n as nat),
{
    let mut acc: u128 = 1;
    let mut i: usize = 0;
    while i < n
        invariant
            i <= n,
            acc == fact(i as nat),
        decreases n - i,
    {
        let next = i + 1;
        proof {
            assert(fact(next as nat) == next * fact(i as nat));
            assert(next * fact(i as nat) == fact(i as nat) * next) by (nonlinear_arith);
        }
        match acc.checked_mul(next as u128) {
            Some(v) => {
                acc = v;
                i = next;
            }
            None => {
                proof {
                    lemma_fact_ge_step(next as nat, n as nat);
                }
                return None;
            }
        }
    }
    Some(acc)
}

/// Exact `n!/(n-k)!`, or `None` when that count does not fit in a `u128`.
pub fn permutation_count(n: usize, k: usize) -> (r: Option<u128>)
    ensures
        r is Some <==> perm_count(n as nat, k as nat) <= u128::MAX,
        r is Some ==> r->0 == perm_count(n as nat, k as nat),
{
    if k > n {
        return Some(0);
    }
    let mut acc: u128 = 1;
    let mut j: usize = 0;
    while j < k
        invariant
            j <= k <= n,
            acc == perm_count(n as nat, j as nat),
        decreases k - j,
    {
        let f = (n - j) as u128;
        proof {
            lemma_perm_step(n as nat, (j + 1) as nat);
        }
        match acc.checked_mul(f) {
            Some(v) => {
                acc = v;
                j = j + 1;
            }
            None => {
                proof {
                    lemma_perm_ge(n as nat, (j + 1) as nat, k as nat);
                }
                return None;
            }
        }
    }
    Some(acc)
}

/// Peeling the last factor: `P(n, j) == P(n, j-1) * (n - j + 1)`.
proof fn lemma_perm_step(n: nat, j: nat)
    requires
        1 <= j <= n,
    ensures
        perm_count(n, j) == perm_count(n, (j - 1) as nat) * (n - j + 1),
    decreases j,
{
    if j == 1 {
        assert(perm_count(n, 1) == n * perm_count((n - 1) as nat, 0));
        assert(perm_count((n - 1) as nat, 0) == 1);
        assert(perm_count(n, 0) == 1);
        assert(perm_count(n, j) == perm_count(n, (j - 1) as nat) * (n - j + 1))
            by (nonlinear_arith)
            requires
                j == 1,
                perm_count(n, 1) == n * perm_count((n - 1) as nat, 0),
                perm_count((n - 1) as nat, 0) == 1,
                perm_count(n, 0) == 1,
        ;
    } else {
        lemma_perm_step((n - 1) as nat, (j - 1) as nat);
        assert(perm_count(n, j) == perm_count(n, (j - 1) as nat) * (n - j + 1))
            by (nonlinear_arith)
            requires
                perm_count(n, j) == n * perm_count((n - 1) as nat, (j - 1) as nat),
                perm_count((n - 1) as nat, (j - 1) as nat) == perm_count(
                    (n - 1) as nat,
                    (j - 2) as nat,
                ) * (n - j + 1),
                perm_count(n, (j - 1) as nat) == n * perm_count((n - 1) as nat, (j - 2) as nat),
        ;
    }
}

/// Within range, longer arrangements are never fewer: `P(n, k) >= P(n, j)`
/// for `j <= k <= n`.
proof fn lemma_perm_ge(n: nat, j: nat, k: nat)
    requires
        j <= k <= n,
    ensures
        perm_count(n, k) >= perm_count(n, j),
    decreases k - j,
{
    if j < k {
        lemma_perm_ge(n, j, (k - 1) as nat);
        lemma_perm_step(n, k);
        assert(perm_count(n, (k - 1) as nat) * (n - k + 1) >= perm_count(n, (k - 1) as nat) * 1)
            by (nonlinear_arith)
            requires
                n - k + 1 >= 1,
                perm_count(n, (k - 1) as nat) >= 0,
        ;
    }
}

/// Choosing everything can be done in exactly one way.
proof fn lemma_comb_all(n: nat)
    ensures
        comb_count(n, n) == 1,
    decreases n,
{
    if n > 0 {
        lemma_comb_all((n - 1) as nat);
        assert(comb_count((n - 1) as nat, n) == 0);
    }
}

/// A selection within range can always be made in at least one way.
proof fn lemma_comb_pos(n: nat, k: nat)
    requires
        k <= n,
    ensures
        comb_count(n, k) >= 1,
    decreases n,
{
    if k > 0 {
        lemma_comb_pos((n - 1) as nat, (k - 1) as nat);
    }
}

/// Choosing `k` of `n` is the same as leaving out `n - k` of `n`.
pub proof fn lemma_comb_symmetry(n: nat, k: nat)
    requires
        k <= n,
    ensures
        comb_count(n, k) == comb_count(n, (n - k) as nat),
    decreases n,
{
    if k == 0 {
        lemma_comb_all(n);
    } else if k == n {
        lemma_comb_all(n);
    } else {
        lemma_comb_symmetry((n - 1) as nat, (k - 1) as nat);
        lemma_comb_symmetry((n - 1) as nat, k);
        assert(comb_count(n, k) == comb_count((n - 1) as nat, (k - 1) as nat) + comb_count(
            (n - 1) as nat,
            k,
        ));
        assert(comb_count(n, (n - k) as nat) == comb_count((n - 1) as nat, (n - k - 1) as nat)
            + comb_count((n - 1) as nat, (n - k) as nat));
    }
}

/// More positions never means fewer selections: `C(i, j) <= C(n, j)` for `i <= n`.
proof fn lemma_comb_mono_n(i: nat, n: nat, j: nat)
    requires
        i <= n,
    ensures
        comb_count(i, j) <= comb_count(n, j),
    decreases n,
{
    if i < n {
        lemma_comb_mono_n(i, (n - 1) as nat, j);
        if j > n {
            assert(comb_count(i, j) == 0);
        } else if j == 0 {
        } else {
            assert(comb_count(n, j) == comb_count((n - 1) as nat, (j - 1) as nat) + comb_count(
                (n - 1) as nat,
                j,
            ));
        }
    }
}

/// Up to the middle, selection counts grow with `k`: `C(n, m-1) <= C(n, m)`
/// for `2m <= n`.
proof fn lemma_comb_mono_k(n: nat, m: nat)
    requires
        1 <= m,
        2 * m <= n,
    ensures
        comb_count(n, (m - 1) as nat) <= comb_count(n, m),
    decreases n,
{
    if m == 1 {
        lemma_comb_pos(n, 1);
    } else {
        assert(comb_count(n, m) == comb_count((n - 1) as nat, (m - 1) as nat) + comb_count(
            (n - 1) as nat,
            m,
        ));
        assert(comb_count(n, (m - 1) as nat) == comb_count((n - 1) as nat, (m - 2) as nat)
            + comb_count((n - 1) as nat, (m - 1) as nat));
        lemma_comb_mono_k((n - 1) as nat, (m - 1) as nat);
        if 2 * m <= n - 1 {
            lemma_comb_mono_k((n - 1) as nat, m);
        } else {
            assert(n == 2 * m);
            lemma_comb_symmetry((n - 1) as nat, m);
            assert((n - 1 - m) as nat == (m - 1) as nat);
        }
    }
}

/// Selection counts below the middle are bounded by the middle one:
/// `C(n, j) <= C(n, m)` for `j <= m` and `2m <= n`.
proof fn lemma_comb_le_middle(n: nat, j: nat, m: nat)
    requires
        j <= m,
        2 * m <= n,
    ensures
        comb_count(n, j) <= comb_count(n, m),
    decreases m - j,
{
    if j < m {
        lemma_comb_le_middle(n, (j + 1) as nat, m);
        lemma_comb_mono_k(n, (j + 1) as nat);
    }
}

/// Exact `n!/(k!(n-k)!)`, or `None` when that count does not fit in a
/// `u128`. Computed by Pascal's rule on the smaller of `k` and `n - k`,
/// so an overflow is reported only when the count itself overflows.
pub fn combination_count(n: usize, k: usize) -> (r: Option<u128>)
    ensures
        r is Some <==> comb_count(n as nat, k as nat) <= u128::MAX,
        r is Some ==> r->0 == comb_count(n as nat, k as nat),
{
    if k > n {
        return Some(0);
    }
    let kk: usize = if k <= n - k {
        k
    } else {
        n - k
    };
    proof {
        lemma_comb_symmetry(n as nat, k as nat);
    }
    let mut row: Vec<u128> = Vec::new();
    row.push(1);
    let mut i: usize = 0;
    while i < n
        invariant
            i <= n,
            kk <= k,
            2 * kk <= n,
            comb_count(n as nat, kk as nat) == comb_count(n as nat, k as nat),
            row@.len() == if i < kk {
                i + 1
            } else {
                kk + 1
            },
            forall|t: int| 0 <= t < row@.len() ==> row@[t] == comb_count(i as nat, t as nat),
        decreases n - i,
    {
        let m: usize = if i + 1 < kk {
            i + 1
        } else {
            kk
        };
        let mut next: Vec<u128> = Vec::new();
        next.push(1);
        proof {
            assert(comb_count((i + 1) as nat, 0) == 1);
        }
        let mut j: usize = 1;
        while j <= m
            invariant
                i < n,
                2 * kk <= n,
                comb_count(n as nat, kk as nat) == comb_count(n as nat, k as nat),
                m as int == if i + 1 < kk {
                    i + 1
                } else {
                    kk as int
                },
                m <= kk,
                row@.len() == if i < kk {
                    i + 1
                } else {
                    kk + 1
                },
                forall|t: int| 0 <= t < row@.len() ==> row@[t] == comb_count(i as nat, t as nat),
                1 <= j <= m + 1,
                next@.len() == j,
                forall|t: int| 0 <= t < j ==> next@[t] == comb_count((i + 1) as nat, t as nat),
            decreases m + 1 - j,
        {
            let a = row[j - 1];
            let b: u128 = if j < row.len() {
                row[j]
            } else {
                0
            };
            proof {
                if j >= row@.len() {
                    assert(j > i);
                    assert(comb_count(i as nat, j as nat) == 0);
                }
                assert(comb_count((i + 1) as nat, j as nat) == comb_count(
                    i as nat,
                    (j - 1) as nat,
                ) + comb_count(i as nat, j as nat));
            }
            match a.checked_add(b) {
                Some(v) => {
                    next.push(v);
                    j = j + 1;
                }
                None => {
                    proof {
                        lemma_comb_mono_n((i + 1) as nat, n as nat, j as nat);
                        lemma_comb_le_middle(n as nat, j as nat, kk as nat);
                    }
                    return None;
                }
            }
        }
        row = next;
        i = i + 1;
    }
    Some(row[kk])
}

/// Factorials are never zero.
proof fn lemma_fact_pos(n: nat)
    ensures
        fact(n) >= 1,
    decreases n,
{
    if n > 0 {
        lemma_fact_pos((n - 1) as nat);
        assert(n * fact((n - 1) as nat) >= 1) by (nonlinear_arith)
            requires
                n >= 1,
                fact((n - 1) as nat) >= 1,
        ;
    }
}

/// Every arrangement is a selection together with an order:
/// `P(n, k) == C(n, k) * k!` for `k <= n`.
pub proof fn lemma_perm_is_comb_times_fact(n: nat, k: nat)
    requires
        k <= n,
    ensures
        perm_count(n, k) == comb_count(n, k) * fact(k),
    decreases n,
{
    if k == 0 {
        assert(perm_count(n, 0) == 1);
        assert(comb_count(n, 0) == 1);
        assert(fact(0) == 1);
        assert(perm_count(n, k) == comb_count(n, k) * fact(k)) by (nonlinear_arith)
            requires
                k == 0,
                perm_count(n, k) == 1,
                comb_count(n, k) == 1,
                fact(k) == 1,
        ;
    } else {
        lemma_perm_is_comb_times_fact((n - 1) as nat, (k - 1) as nat);
        if k <= n - 1 {
            lemma_perm_is_comb_times_fact((n - 1) as nat, k);
            lemma_perm_step((n - 1) as nat, k);
            assert(perm_count(n, k) == comb_count(n, k) * fact(k)) by (nonlinear_arith)
                requires
                    k >= 1,
                    n - k >= 1,
                    perm_count(n, k) == n * perm_count((n - 1) as nat, (k - 1) as nat),
                    perm_count((n - 1) as nat, (k - 1) as nat) == comb_count(
                        (n - 1) as nat,
                        (k - 1) as nat,
                    ) * fact((k - 1) as nat),
                    fact(k) == k * fact((k - 1) as nat),
                    comb_count(n, k) == comb_count((n - 1) as nat, (k - 1) as nat) + comb_count(
                        (n - 1) as nat,
                        k,
                    ),
                    comb_count((n - 1) as nat, k) * fact(k) == perm_count((n - 1) as nat, k),
                    perm_count((n - 1) as nat, k) == perm_count((n - 1) as nat, (k - 1) as nat) * (
                    n - k),
            ;
        } else {
            assert(comb_count((n - 1) as nat, k) == 0);
            assert(perm_count(n, k) == comb_count(n, k) * fact(k)) by (nonlinear_arith)
                requires
                    k == n,
                    k >= 1,
                    perm_count(n, k) == n * perm_count((n - 1) as nat, (k - 1) as nat),
                    perm_count((n - 1) as nat, (k - 1) as nat) == comb_count(
                        (n - 1) as nat,
                        (k - 1) as nat,
                    ) * fact((k - 1) as nat),
                    fact(k) == k * fact((k - 1) as nat),
                    comb_count(n, k) == comb_count((n - 1) as nat, (k - 1) as nat) + 0,
            ;
        }
    }
}

/// Order can only add outcomes: there are at least as many arrangements
/// as selections, for every `n` and `k`.
pub proof fn lemma_perm_ge_comb(n: nat, k: nat)
    ensures
        perm_count(n, k) >= comb_count(n, k),
{
    if k <= n {
        lemma_perm_is_comb_times_fact(n, k);
        lemma_fact_pos(k);
        assert(comb_count(n, k) * fact(k) >= comb_count(n, k)) by (nonlinear_arith)
            requires
                fact(k) >= 1,
                comb_count(n, k) >= 0,
        ;
    }
}

/// There is exactly one arrangement and one selection of length zero.
pub proof fn lemma_zero_length_counts(n: nat)
    ensures
        perm_count(n, 0) == 1,
        comb_count(n, 0) == 1,
{
}

/// Each factorial divides every later one, so factorials only grow.
proof fn lemma_fact_ge_step(i: nat, n: nat)
    requires
        i <= n,
    ensures
        fact(n) >= fact(i),
    decreases n - i,
{
    if i < n {
        lemma_fact_ge_step(i, (n - 1) as nat);
        assert(fact(n) == n * fact((n - 1) as nat));
        assert(n * fact((n - 1) as nat) >= 1 * fact((n - 1) as nat)) by (nonlinear_arith)
            requires
                n >= 1,
                fact((n - 1) as nat) >= 0,
        ;
    }
}

/// The count chosen for one length: selections when `use_combinations`
/// is set, arrangements otherwise.
pub open spec fn count_of(n: nat, k: nat, use_combinations: bool) -> nat {
    if use_combinations {
        comb_count(n, k)
    } else {
        perm_count(n, k)
    }
}

/// The sum of the chosen count over every length in `[min, max]`.
pub open spec fn range_total(n: nat, min: nat, max: nat, use_combinations: bool) -> nat
    decreases max + 1 - min,
{
    if min > max {
        0
    } else {
        count_of(n, min, use_combinations) + range_total(n, (min + 1) as nat, max, use_combinations)
    }
}

/// `n^k` as a mathematical integer: the number of strings of length `k`
/// over an alphabet of `n` positions, repetition allowed.
pub open spec fn pow_count(n: nat, k: nat) -> nat
    decreases k,
{
    if k == 0 {
        1
    } else {
        n * pow_count(n, (k - 1) as nat)
    }
}

/// With at least one letter, longer products never shrink:
/// `n^k >= n^j` for `j <= k` and `n >= 1`.
proof fn lemma_pow_ge(n: nat, j: nat, k: nat)
    requires
        n >= 1,
        j <= k,
    ensures
        pow_count(n, k) >= pow_count(n, j),
    decreases k - j,
{
    if j < k {
        lemma_pow_ge(n, j, (k - 1) as nat);
        assert(n * pow_count(n, (k - 1) as nat) >= pow_count(n, (k - 1) as nat))
            by (nonlinear_arith)
            requires
                n >= 1,
                pow_count(n, (k - 1) as nat) >= 0,
        ;
    }
}

/// Exact size `n^k` of the full cross product the search driver would
/// enumerate, or `None` when it does not fit in a `u128`; a caller can
/// refuse infeasible searches before any generation work is done.
pub fn cartesian_count(n: usize, k: usize) -> (r: Option<u128>)
    ensures
        r is Some <==> pow_count(n as nat, k as nat) <= u128::MAX,
        r is Some ==> r->0 == pow_count(n as nat, k as nat),
{
    let mut acc: u128 = 1;
    let mut j: usize = 0;
    while j < k
        invariant
            j <= k,
            acc == pow_count(n as nat, j as nat),
        decreases k - j,
    {
        proof {
            assert(pow_count(n as nat, (j + 1) as nat) == n * pow_count(n as nat, j as nat));
            assert(n * pow_count(n as nat, j as nat) == pow_count(n as nat, j as nat) * n)
                by (nonlinear_arith);
        }
        match acc.checked_mul(n as u128) {
            Some(v) => {
                acc = v;
                j = j + 1;
            }
            None => {
                proof {
                    if n == 0 {
                        assert(acc * (n as u128) == 0) by (nonlinear_arith)
                            requires
                                n == 0,
                        ;
                    }
                    lemma_pow_ge(n as nat, (j + 1) as nat, k as nat);
                }
                return None;
            }
        }
    }
    Some(acc)
}

/// One count per length in the range, with their exact total.
pub struct CountResult {
    pub per_length: Vec<(usize, u128)>,
    pub total: u128,
}

/// Counts, without enumerating, how many arrangements (or selections)
/// an alphabet of `n` positions yields for each length in `[min, max]`,
/// and their total. Fails with `Overflow` exactly when the total does
/// not fit in a `u128`.
pub fn count_range(n: usize, min: usize, max: usize, use_combinations: bool) -> (r: Result<
    CountResult,
    ErrorKind,
>)
    ensures
        r is Ok <==> range_total(n as nat, min as nat, max as nat, use_combinations)
            <= u128::MAX,
        r is Ok ==> r->Ok_0.total == range_total(
            n as nat,
            min as nat,
            max as nat,
            use_combinations,
        ),
        r is Ok ==> r->Ok_0.per_length@.len() == (if min > max {
            0int
        } else {
            max - min + 1
        }),
        r is Ok ==> forall|t: int|
            0 <= t < r->Ok_0.per_length@.len() ==> (#[trigger] r->Ok_0.per_length@[t]).0 == min + t
                && r->Ok_0.per_length@[t].1 == count_of(
                n as nat,
                (min + t) as nat,
                use_combinations,
            ),
        r is Err ==> r->Err_0 is Overflow,
{
    let mut per: Vec<(usize, u128)> = Vec::new();
    let mut total: u128 = 0;
    if min > max {
        return Ok(CountResult { per_length: per, total });
    }
    let mut len: usize = min;
    while len <= max
        invariant_except_break
            min <= len <= max,
            per@.len() == len - min,
            forall|t: int|
                0 <= t < per@.len() ==> (#[trigger] per@[t]).0 == min + t && per@[t].1 == count_of(
                    n as nat,
                    (min + t) as nat,
                    use_combinations,
                ),
            total + range_total(n as nat, len as nat, max as nat, use_combinations) == range_total(
                n as nat,
                min as nat,
                max as nat,
                use_combinations,
            ),
        ensures
            total == range_total(n as nat, min as nat, max as nat, use_combinations),
            per@.len() == max - min + 1,
            forall|t: int|
                0 <= t < per@.len() ==> (#[trigger] per@[t]).0 == min + t && per@[t].1 == count_of(
                    n as nat,
                    (min + t) as nat,
                    use_combinations,
                ),
        decreases max - len,
    {
        let c_opt = if use_combinations {
            combination_count(n, len)
        } else {
            permutation_count(n, len)
        };
        let c = match c_opt {
            Some(c) => c,
            None => {
                return Err(ErrorKind::Overflow);
            }
        };
        let new_total = match total.checked_add(c) {
            Some(v) => v,
            None => {
                return Err(ErrorKind::Overflow);
            }
        };
        total = new_total;
        per.push((len, c));
        proof {
            assert(range_total(n as nat, len as nat, max as nat, use_combinations) == count_of(
                n as nat,
                len as nat,
                use_combinations,
            ) + range_total(n as nat, (len + 1) as nat, max as nat, use_combinations));
            if len == max {
                assert(range_total(n as nat, (len + 1) as nat, max as nat, use_combinations) == 0);
            }
        }
        if len == max {
            break ;
        }
        len = len + 1;
    }
    Ok(CountResult { per_length: per, total })
}

} // verus!
