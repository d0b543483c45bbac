//! Counting and listing: Bell numbers, subsets, set partitions.
pub mod counting;
pub mod permutations;
pub mod structures;
pub mod text;
pub mod unordered_pair;

use vstd::prelude::*;

verus! {

/// The number of ways to divide a set of `n` elements into exactly `k`
/// classes.
pub open spec fn stirling(n: nat, k: nat) -> nat
    decreases n,
{
    if n == 0 {
        if k == 0 {
            1
        } else {
            0
        }
    } else if k == 0 {
        0
    } else {
        k * stirling((n - 1) as nat, k) + stirling((n - 1) as nat, (k - 1) as nat)
    }
}

/// The number of ways to divide a set of `n` elements into at most `k`
/// classes.
pub open spec fn stirling_sum(n: nat, k: nat) -> nat
    decreases k,
{
    if k == 0 {
        stirling(n, 0)
    } else {
        stirling_sum(n, (k - 1) as nat) + stirling(n, k)
    }
}

/// The Bell number of `m`: the number of ways to divide a set of `m`
/// elements into classes.
pub open spec fn bell_number(m: nat) -> nat {
    stirling_sum(m, m)
}

/// A set cannot be divided into more classes than it has elements.
pub proof fn lemma_stirling_zero(n: nat, k: nat)
    requires
        k > n,
    ensures
        stirling(n, k) == 0,
    decreases n,
{
    if n > 0 {
        lemma_stirling_zero((n - 1) as nat, k);
        lemma_stirling_zero((n - 1) as nat, (k - 1) as nat);
        assert(k * stirling((n - 1) as nat, k) == 0) by (nonlinear_arith)
            requires
                stirling((n - 1) as nat, k) == 0,
        ;
    }
}

/// With one more element and one more class there are at least as many
/// divisions.
pub proof fn lemma_stirling_step(n: nat, k: nat)
    ensures
        stirling(n, k) <= stirling(n + 1, k + 1),
{
    assert(stirling(n + 1, k + 1) == (k + 1) * stirling(n, k + 1) + stirling(n, k));
    assert((k + 1) * stirling(n, k + 1) >= 0) by (nonlinear_arith);
}

/// Each term of a sum of numbers of divisions is at most the sum.
pub proof fn lemma_stirling_in_sum(n: nat, k: nat, j: nat)
    requires
        k <= j,
    ensures
        stirling(n, k) <= stirling_sum(n, j),
        stirling_sum(n, k) <= stirling_sum(n, j),
    decreases j,
{
    if k < j {
        lemma_stirling_in_sum(n, k, (j - 1) as nat);
    } else if j > 0 {
        lemma_stirling_in_sum(n, (j - 1) as nat, (j - 1) as nat);
    }
}

/// A number of divisions of a set is at most the Bell number of any set
/// that is not smaller.
pub proof fn lemma_stirling_below_bell(n: nat, k: nat, m: nat)
    requires
        n <= m,
    ensures
        stirling(n, k) <= bell_number(m),
    decreases m - n,
{
    if k > n {
        lemma_stirling_zero(n, k);
    } else if n == m {
        lemma_stirling_in_sum(m, k, m);
    } else {
        lemma_stirling_step(n, k);
        lemma_stirling_below_bell(n + 1, k + 1, m);
    }
}

/// A set can be divided into as many classes as it has elements in one
/// way only.
pub proof fn lemma_stirling_diagonal(n: nat)
    ensures
        stirling(n, n) == 1,
    decreases n,
{
    if n > 0 {
        lemma_stirling_diagonal((n - 1) as nat);
        lemma_stirling_zero((n - 1) as nat, n);
        assert(n * stirling((n - 1) as nat, n) == 0) by (nonlinear_arith)
            requires
                stirling((n - 1) as nat, n) == 0,
        ;
    }
}

/// Every set has a division into classes.
pub proof fn lemma_bell_positive(m: nat)
    ensures
        bell_number(m) >= 1,
{
    lemma_stirling_diagonal(m);
    lemma_stirling_in_sum(m, m, m);
}

/// The Bell number of `m`, where it is a number of 128 bits.
pub fn bell_wide(m: usize) -> (r: Option<u128>)
    ensures
        match r {
            Some(b) => b == bell_number(m as nat),
            None => bell_number(m as nat) > u128::MAX,
        },
{
    // row[k] is the number of divisions of n elements into k classes
    let mut row: Vec<u128> = Vec::new();
    row.push(1);
    let mut n: usize = 0;
    while n < m
        invariant
            n <= m,
            row@.len() == n + 1,
            forall|k: int| 0 <= k <= n ==> #[trigger] row@[k] == stirling(n as nat, k as nat),
        decreases m - n,
    {
        let mut next: Vec<u128> = Vec::new();
        next.push(0);
        let mut j0: usize = 0;
        while j0 < n + 1
            invariant
                0 <= j0 <= n + 1,
                n < m,
                row@.len() == n + 1,
                next@.len() == j0 + 1,
                forall|j: int| 0 <= j <= n ==> #[trigger] row@[j] == stirling(n as nat, j as nat),
                forall|j: int|
                    0 <= j < j0 + 1 ==> #[trigger] next@[j] == stirling((n + 1) as nat, j as nat),
            decreases n + 1 - j0,
        {
            let k: usize = j0 + 1;
            let stay: u128 = if k <= n {
                row[k]
            } else {
                0
            };
            proof {
                if k > n {
                    lemma_stirling_zero(n as nat, k as nat);
                }
                lemma_stirling_below_bell((n + 1) as nat, k as nat, m as nat);
                assert(stirling((n + 1) as nat, k as nat) == k * stirling(n as nat, k as nat)
                    + stirling(n as nat, (k - 1) as nat));
                assert(k * stirling(n as nat, k as nat) >= 0) by (nonlinear_arith);
            }
            let times = match (k as u128).checked_mul(stay) {
                Some(t) => t,
                None => {
                    return None;
                },
            };
            let value = match times.checked_add(row[k - 1]) {
                Some(t) => t,
                None => {
                    return None;
                },
            };
            next.push(value);
            j0 += 1;
        }
        row = next;
        n += 1;
    }
    let mut sum: u128 = row[0];
    let mut j0: usize = 0;
    while j0 < m
        invariant
            0 <= j0 <= m,
            row@.len() == m + 1,
            forall|j: int| 0 <= j <= m ==> #[trigger] row@[j] == stirling(m as nat, j as nat),
            sum == stirling_sum(m as nat, j0 as nat),
        decreases m - j0,
    {
        let k: usize = j0 + 1;
        proof {
            lemma_stirling_in_sum(m as nat, k as nat, m as nat);
        }
        sum = match sum.checked_add(row[k]) {
            Some(t) => t,
            None => {
                return None;
            },
        };
        j0 += 1;
    }
    Some(sum)
}

/// The Bell number of `m`: the number of partitions of `m` candidates.
pub fn bell(m: usize) -> (b: usize)
    requires
        m >= 1,
        bell_number(m as nat) <= usize::MAX,
    ensures
        b == bell_number(m as nat),
{
    match bell_wide(m) {
        Some(b) => b as usize,
        None => {
            assert(false);
            0
        },
    }
}

} // verus!
