//! Settlement engine: turns per-user lifetime totals into a square matrix
//! of pairwise balances.
//!
//! Every user's average share is their lifetime total divided (flooring) by
//! the user count; the balance entry of row `i` against user `j` is
//! `avg(j) - avg(i)`. While the matrix is built row by row, a running
//! accumulator folds each row's entries together with that row's raw total;
//! if it ended up differing from the directly-summed raw total, the
//! difference would be added to the last user's self-balance (the rounding
//! correction). The accumulator provably always agrees with the raw total,
//! so the correction never changes anything and every entry is exactly the
//! difference of two floored averages.

use vstd::prelude::*;

verus! {

/// Lifetime contribution of one user, as the ledger's group-by aggregation
/// returns it.
pub struct UserTotal {
    pub user: String,
    pub total: u32,
}

/// Settlement output for one user: lifetime total, floored average share,
/// and the row of pairwise balances against every user in the same order.
pub struct UserData {
    pub user: String,
    pub total: u32,
    pub avg_contribution: u32,
    pub balances: Vec<i32>,
}

/// Sum of the first `m` user totals.
pub open spec fn sum_total_prefix(t: Seq<UserTotal>, m: int) -> int
    decreases m,
{
    if m <= 0 {
        0
    } else {
        sum_total_prefix(t, m - 1) + t[m - 1].total
    }
}

/// Sum of all user totals: the raw total contribution.
pub open spec fn sum_totals(t: Seq<UserTotal>) -> int {
    sum_total_prefix(t, t.len() as int)
}

/// Floored average contribution of user `i` among `t.len()` users.
pub open spec fn spec_avg(t: Seq<UserTotal>, i: int) -> int {
    t[i].total as int / t.len() as int
}

/// Pairwise balance: how user `j`'s average share stands against user
/// `i`'s.
pub open spec fn spec_balance(t: Seq<UserTotal>, i: int, j: int) -> int {
    spec_avg(t, j) - spec_avg(t, i)
}

/// Sum of the first `m` average contributions.
pub open spec fn sum_avg_prefix(t: Seq<UserTotal>, m: int) -> int
    decreases m,
{
    if m <= 0 {
        0
    } else {
        sum_avg_prefix(t, m - 1) + spec_avg(t, m - 1)
    }
}

/// Sum of all average contributions.
pub open spec fn sum_avgs(t: Seq<UserTotal>) -> int {
    sum_avg_prefix(t, t.len() as int)
}

/// The consistency accumulator after the first `m` balance rows: each row
/// contributes its entries `avg(j) - avg(row)` for every `j`, then the row
/// user's raw total.
pub open spec fn fold_acc(t: Seq<UserTotal>, m: int) -> int
    decreases m,
{
    if m <= 0 {
        0
    } else {
        fold_acc(t, m - 1) + sum_avgs(t) - t.len() * spec_avg(t, m - 1) + t[m - 1].total
    }
}

/// A floored average lies between zero and the user's total, and `n` copies
/// of it still do not exceed the total.
proof fn lemma_avg_bounds(t: Seq<UserTotal>, i: int)
    requires
        t.len() >= 1,
        0 <= i < t.len(),
    ensures
        0 <= spec_avg(t, i),
        spec_avg(t, i) <= t[i].total as int,
        t.len() as int * spec_avg(t, i) <= t[i].total as int,
{
    let n = t.len() as int;
    let x = t[i].total as int;
    vstd::arithmetic::div_mod::lemma_div_pos_is_pos(x, n);
    vstd::arithmetic::div_mod::lemma_div_nonincreasing(x, n);
    vstd::arithmetic::div_mod::lemma_fundamental_div_mod(x, n);
    vstd::arithmetic::div_mod::lemma_mod_division_less_than_divisor(x, n);
}

/// Prefix sums of totals grow with the prefix.
proof fn lemma_sum_total_prefix_mono(t: Seq<UserTotal>, m1: int, m2: int)
    requires
        0 <= m1 <= m2 <= t.len(),
    ensures
        sum_total_prefix(t, m1) <= sum_total_prefix(t, m2),
    decreases m2,
{
    if m1 < m2 {
        lemma_sum_total_prefix_mono(t, m1, m2 - 1);
    }
}

/// One user's total is at most the sum of all totals.
proof fn lemma_total_le_sum(t: Seq<UserTotal>, k: int)
    requires
        0 <= k < t.len(),
    ensures
        t[k].total as int <= sum_totals(t),
{
    lemma_sum_total_prefix_mono(t, 0, k);
    lemma_sum_total_prefix_mono(t, k + 1, t.len() as int);
}

/// Prefix sums of averages are non-negative, bounded by the matching prefix
/// of totals, and so are `n` copies of them.
proof fn lemma_sum_prefix_bounds(t: Seq<UserTotal>, m: int)
    requires
        t.len() >= 1,
        0 <= m <= t.len(),
    ensures
        0 <= sum_avg_prefix(t, m),
        sum_avg_prefix(t, m) <= sum_total_prefix(t, m),
        t.len() as int * sum_avg_prefix(t, m) <= sum_total_prefix(t, m),
    decreases m,
{
    let n = t.len() as int;
    if m > 0 {
        lemma_sum_prefix_bounds(t, m - 1);
        lemma_avg_bounds(t, m - 1);
        assert(n * sum_avg_prefix(t, m) == n * sum_avg_prefix(t, m - 1) + n * spec_avg(t, m - 1))
            by (nonlinear_arith)
            requires
                sum_avg_prefix(t, m) == sum_avg_prefix(t, m - 1) + spec_avg(t, m - 1),
        ;
    }
}

/// Closed form of the accumulator over the first `m` rows.
proof fn lemma_fold_acc_closed(t: Seq<UserTotal>, m: int)
    requires
        0 <= m <= t.len(),
    ensures
        fold_acc(t, m) == m * sum_avgs(t) - t.len() * sum_avg_prefix(t, m) + sum_total_prefix(
            t,
            m,
        ),
    decreases m,
{
    let n = t.len() as int;
    if m > 0 {
        lemma_fold_acc_closed(t, m - 1);
        assert(fold_acc(t, m) == fold_acc(t, m - 1) + sum_avgs(t) - n * spec_avg(t, m - 1) + t[m
            - 1].total);
        assert(sum_total_prefix(t, m) == sum_total_prefix(t, m - 1) + t[m - 1].total);
        assert(m * sum_avgs(t) == (m - 1) * sum_avgs(t) + sum_avgs(t)) by (nonlinear_arith);
        assert(n * sum_avg_prefix(t, m) == n * sum_avg_prefix(t, m - 1) + n * spec_avg(t, m - 1))
            by (nonlinear_arith)
            requires
                sum_avg_prefix(t, m) == sum_avg_prefix(t, m - 1) + spec_avg(t, m - 1),
        ;
        assert(fold_acc(t, m) == m * sum_avgs(t) - n * sum_avg_prefix(t, m) + sum_total_prefix(
            t,
            m,
        ));
        assert(t.len() * sum_avg_prefix(t, m) == n * sum_avg_prefix(t, m));
    } else {
        assert(m * sum_avgs(t) == 0) by (nonlinear_arith)
            requires
                m == 0,
        ;
        assert(t.len() * sum_avg_prefix(t, m) == 0);
    }
}

/// Zero-sum law: after all rows are folded, the accumulator equals the raw
/// total contribution, so the rounding correction is always zero.
pub proof fn lemma_accumulated_equals_raw_total(t: Seq<UserTotal>)
    ensures
        fold_acc(t, t.len() as int) == sum_totals(t),
{
    if t.len() > 0 {
        lemma_fold_acc_closed(t, t.len() as int);
    }
}

/// The accumulator stays within twice the raw total while the rows are
/// built.
proof fn lemma_fold_acc_bounds(t: Seq<UserTotal>, m: int)
    requires
        t.len() >= 1,
        0 <= m <= t.len(),
    ensures
        0 <= fold_acc(t, m),
        fold_acc(t, m) <= 2 * sum_totals(t),
{
    let n = t.len() as int;
    lemma_fold_acc_closed(t, m);
    lemma_sum_prefix_bounds(t, m);
    lemma_sum_prefix_bounds(t, n);
    lemma_sum_total_prefix_mono(t, m, n);
    assert(m * sum_avgs(t) >= 0) by (nonlinear_arith)
        requires
            m >= 0,
            sum_avgs(t) >= 0,
    ;
    assert(m * sum_avgs(t) <= n * sum_avgs(t)) by (nonlinear_arith)
        requires
            m <= n,
            sum_avgs(t) >= 0,
    ;
    assert(n * sum_avgs(t) == n * sum_avg_prefix(t, n));
}

/// Antisymmetry law: every balance entry is the negation of its transpose,
/// the diagonal in particular being zero.
pub proof fn lemma_balance_antisymmetry(t: Seq<UserTotal>, i: int, j: int)
    requires
        0 <= i < t.len(),
        0 <= j < t.len(),
    ensures
        spec_balance(t, i, j) == -spec_balance(t, j, i),
        spec_balance(t, i, i) == 0,
{
}

/// Single-user law: with one user the average share equals the total and
/// the sole balance entry is zero.
pub proof fn lemma_single_user(t: Seq<UserTotal>)
    requires
        t.len() == 1,
    ensures
        spec_avg(t, 0) == t[0].total as int,
        spec_balance(t, 0, 0) == 0,
{
}

/// Derive the settlement matrix from per-user lifetime totals.
///
/// Output row `i` carries user `i`'s name, raw total, floored average
/// share, and the balance entries `avg(j) - avg(i)` for every user `j` in
/// input order. An empty input yields an empty result. The requires only
/// keep the arithmetic within machine bounds: balances are `i32`, so the
/// raw total must fit one.
pub fn compute_balances(totals: &Vec<UserTotal>) -> (r: Vec<UserData>)
    requires
        sum_totals(totals@) <= i32::MAX as int,
        totals@.len() <= u32::MAX as int,
    ensures
        r@.len() == totals@.len(),
        forall|i: int|
            0 <= i < r@.len() ==> {
                &&& (#[trigger] r@[i]).user@ == totals@[i].user@
                &&& r@[i].total == totals@[i].total
                &&& r@[i].avg_contribution as int == spec_avg(totals@, i)
                &&& r@[i].balances@.len() == totals@.len()
            },
        forall|i: int, j: int|
            0 <= i < r@.len() && 0 <= j < r@.len() ==> (#[trigger] r@[i].balances@[j]) as int
                == spec_balance(totals@, i, j),
{
    let ghost t = totals@;
    let n: usize = totals.len();
    let mut result: Vec<UserData> = Vec::new();
    if n == 0 {
        return result;
    }
    let n32: u32 = n as u32;
    proof {
        lemma_sum_total_prefix_mono(t, 0, t.len() as int);
    }
    let mut avgs: Vec<u32> = Vec::new();
    let mut total_contributions: i64 = 0;
    let mut idx: usize = 0;
    while idx < n
        invariant
            t == totals@,
            n == t.len(),
            1 <= n,
            n <= u32::MAX as int,
            n32 == n as u32,
            sum_totals(t) <= i32::MAX as int,
            idx <= n,
            avgs@.len() == idx,
            forall|k: int| 0 <= k < idx ==> (#[trigger] avgs@[k]) as int == spec_avg(t, k),
            total_contributions as int == sum_total_prefix(t, idx as int),
            0 <= total_contributions as int <= sum_totals(t),
        decreases n - idx,
    {
        proof {
            lemma_sum_total_prefix_mono(t, 0, idx as int + 1);
            lemma_sum_total_prefix_mono(t, idx as int + 1, t.len() as int);
        }
        let avg: u32 = totals[idx].total / n32;
        avgs.push(avg);
        total_contributions = total_contributions + totals[idx].total as i64;
        idx = idx + 1;
    }
    let mut new_total: i64 = 0;
    let mut i: usize = 0;
    while i < n
        invariant
            t == totals@,
            n == t.len(),
            1 <= n,
            sum_totals(t) <= i32::MAX as int,
            avgs@.len() == n,
            forall|k: int| 0 <= k < n ==> (#[trigger] avgs@[k]) as int == spec_avg(t, k),
            total_contributions as int == sum_totals(t),
            i <= n,
            result@.len() == i,
            forall|k: int|
                0 <= k < i ==> {
                    &&& (#[trigger] result@[k]).user@ == t[k].user@
                    &&& result@[k].total == t[k].total
                    &&& result@[k].avg_contribution as int == spec_avg(t, k)
                    &&& result@[k].balances@.len() == n
                },
            forall|k: int, j: int|
                0 <= k < i && 0 <= j < n ==> (#[trigger] result@[k].balances@[j]) as int
                    == spec_balance(t, k, j),
            new_total as int == fold_acc(t, i as int),
            0 <= new_total as int <= 2 * sum_totals(t),
        decreases n - i,
    {
        let avg_i: u32 = avgs[i];
        let mut row: Vec<i32> = Vec::new();
        let mut j: usize = 0;
        while j < n
            invariant
                t == totals@,
                n == t.len(),
                1 <= n,
                sum_totals(t) <= i32::MAX as int,
                avgs@.len() == n,
                forall|k: int| 0 <= k < n ==> (#[trigger] avgs@[k]) as int == spec_avg(t, k),
                i < n,
                avg_i as int == spec_avg(t, i as int),
                j <= n,
                row@.len() == j,
                forall|m: int|
                    0 <= m < j ==> (#[trigger] row@[m]) as int == spec_balance(t, i as int, m),
                new_total as int == fold_acc(t, i as int) + sum_avg_prefix(t, j as int) - j as int
                    * spec_avg(t, i as int),
            decreases n - j,
        {
            proof {
                lemma_avg_bounds(t, i as int);
                lemma_avg_bounds(t, j as int);
                lemma_total_le_sum(t, i as int);
                lemma_total_le_sum(t, j as int);
                lemma_fold_acc_bounds(t, i as int);
                lemma_sum_prefix_bounds(t, j as int);
                lemma_sum_prefix_bounds(t, j as int + 1);
                lemma_sum_total_prefix_mono(t, j as int, t.len() as int);
                lemma_sum_total_prefix_mono(t, j as int + 1, t.len() as int);
                assert(0 <= j as int * spec_avg(t, i as int)) by (nonlinear_arith)
                    requires
                        j as int >= 0,
                        spec_avg(t, i as int) >= 0,
                ;
                assert(j as int * spec_avg(t, i as int) <= t.len() as int * spec_avg(t, i as int))
                    by (nonlinear_arith)
                    requires
                        j as int <= t.len() as int,
                        spec_avg(t, i as int) >= 0,
                ;
                assert((j as int + 1) * spec_avg(t, i as int) == j as int * spec_avg(t, i as int)
                    + spec_avg(t, i as int)) by (nonlinear_arith);
                assert((j as int + 1) * spec_avg(t, i as int) <= t.len() as int * spec_avg(
                    t,
                    i as int,
                )) by (nonlinear_arith)
                    requires
                        j as int + 1 <= t.len() as int,
                        spec_avg(t, i as int) >= 0,
                ;
            }
            let entry64: i64 = avgs[j] as i64 - avg_i as i64;
            let entry: i32 = entry64 as i32;
            row.push(entry);
            new_total = new_total + entry64;
            j = j + 1;
        }
        proof {
            lemma_avg_bounds(t, i as int);
            lemma_total_le_sum(t, i as int);
            lemma_fold_acc_bounds(t, i as int);
            lemma_fold_acc_bounds(t, i as int + 1);
            lemma_sum_prefix_bounds(t, t.len() as int);
        }
        new_total = new_total + totals[i].total as i64;
        let user_data = UserData {
            user: totals[i].user.clone(),
            total: totals[i].total,
            avg_contribution: avg_i,
            balances: row,
        };
        result.push(user_data);
        i = i + 1;
    }
    proof {
        lemma_accumulated_equals_raw_total(t);
    }
    if new_total != total_contributions {
        // The documented rounding correction: reconcile the accumulator with
        // the directly-summed raw total on the last user's self-balance. The
        // lemma above shows the two always agree, so this branch never runs.
        let diff: i64 = new_total - total_contributions;
        if let Some(mut last) = result.pop() {
            if let Some(last_balance) = last.balances.pop() {
                last.balances.push(last_balance + diff as i32);
            }
            result.push(last);
        }
    }
    result
}

} // verus!
