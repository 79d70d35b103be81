use vstd::prelude::*;

use crate::base::errors::AutoShareError;
use crate::base::types::{view_members, GroupMember, MemberView};

verus! {

/// Largest `total` for which `total * 10_000` still fits in an `i128`
/// (`i128::MAX / 10_000`).
pub const MAX_SAFE_TOTAL: i128 = 17014118346046923173168730371588410i128;

/// Whether an integer is representable as an `i128`.
pub open spec fn fits_i128(x: int) -> bool {
    i128::MIN <= x <= i128::MAX
}

/// Division that rounds toward zero, as integer division does in Rust.
pub open spec fn trunc_div(a: int, d: int) -> int {
    if a >= 0 {
        a / d
    } else {
        -((-a) / d)
    }
}

/// `total * percentage / 10_000`, rounded toward zero.
pub open spec fn share_of(total: int, percentage: int) -> int {
    trunc_div(total * percentage, 10000)
}

/// What `calculate_share` gives: the share, or `InvalidAmount` when the
/// product `total * percentage` leaves the `i128` range.
pub open spec fn share_result(total: int, percentage: int) -> Result<int, AutoShareError> {
    if fits_i128(total * percentage) {
        Ok(share_of(total, percentage))
    } else {
        Err(AutoShareError::InvalidAmount)
    }
}

/// The basis points of a list of members, in order.
pub open spec fn percentages(members: Seq<MemberView>) -> Seq<u32> {
    members.map_values(|m: MemberView| m.percentage)
}

/// The basis points of a list of members held in a `Vec`.
pub open spec fn member_percentages(members: Seq<GroupMember>) -> Seq<u32> {
    percentages(view_members(members))
}

/// The exact sum of a list of basis points.
pub open spec fn sum_of(s: Seq<u32>) -> int
    decreases s.len(),
{
    if s.len() == 0 {
        0
    } else {
        sum_of(s.drop_last()) + s.last()
    }
}

/// A list of basis points is valid when no entry is zero and they add up to
/// exactly 10 000 (the whole amount).
pub open spec fn percentages_valid(p: Seq<u32>) -> bool {
    &&& forall|i: int| 0 <= i < p.len() ==> #[trigger] p[i] > 0
    &&& sum_of(p) == 10000
}

/// What `validate_percentages` gives.
pub open spec fn percentages_check(p: Seq<u32>) -> Result<(), AutoShareError> {
    if percentages_valid(p) {
        Ok(())
    } else {
        Err(AutoShareError::InvalidPercentage)
    }
}

/// Sum of the rounded-down shares of the first `k` members.
pub open spec fn share_sum(total: int, p: Seq<u32>, k: int) -> int
    decreases k,
{
    if k <= 0 {
        0
    } else {
        share_sum(total, p, k - 1) + share_of(total, p[k - 1] as int)
    }
}

/// The split of `total`: every member but the last gets its rounded-down
/// share, and the last member gets what is left.
pub open spec fn split_shares(total: int, p: Seq<u32>) -> Seq<int> {
    Seq::new(
        p.len(),
        |i: int|
            if i < p.len() - 1 {
                share_of(total, p[i] as int)
            } else {
                total - share_sum(total, p, p.len() - 1)
            },
    )
}

/// Whether the share of some member other than the last cannot be computed
/// because `total * percentage` leaves the `i128` range.
pub open spec fn some_share_overflows(total: int, p: Seq<u32>) -> bool {
    exists|i: int| 0 <= i < p.len() - 1 && !fits_i128(total * #[trigger] p[i])
}

/// What `distribute_amounts` gives for `total` and the members' basis points.
pub open spec fn distribution(total: int, p: Seq<u32>) -> Result<Seq<int>, AutoShareError> {
    if total < 0 {
        Err(AutoShareError::InvalidAmount)
    } else if !percentages_valid(p) {
        Err(AutoShareError::InvalidPercentage)
    } else if some_share_overflows(total, p) {
        Err(AutoShareError::InvalidAmount)
    } else {
        Ok(split_shares(total, p))
    }
}

/// The exact sum of a list of integers.
pub open spec fn sum_ints(s: Seq<int>) -> int
    decreases s.len(),
{
    if s.len() == 0 {
        0
    } else {
        sum_ints(s.drop_last()) + s.last()
    }
}

/// A list of `i128` values as integers.
pub open spec fn ints_of(v: Seq<i128>) -> Seq<int> {
    v.map_values(|x: i128| x as int)
}

/// Calculates a member's share: `total * percentage / 10_000`, rounded toward
/// zero; `InvalidAmount` when `total * percentage` overflows `i128`.
pub fn calculate_share(total: i128, percentage: u32) -> (r: Result<i128, AutoShareError>)
    ensures
        match r {
            Ok(s) => share_result(total as int, percentage as int) == Ok::<int, AutoShareError>(
                s as int,
            ),
            Err(e) => share_result(total as int, percentage as int) == Err::<int, AutoShareError>(
                e,
            ),
        },
{
    let p: i128 = percentage as i128;
    match total.checked_mul(p) {
        Some(product) => Ok(product / 10_000),
        None => Err(AutoShareError::InvalidAmount),
    }
}

/// Extending a prefix of basis points by one entry adds that entry.
pub proof fn lemma_sum_take_step(s: Seq<u32>, i: int)
    requires
        0 <= i < s.len(),
    ensures
        sum_of(s.take(i + 1)) == sum_of(s.take(i)) + s[i],
{
    assert(s.take(i + 1).drop_last() =~= s.take(i));
}

/// A prefix of a list of basis points never adds up to more than the list.
pub proof fn lemma_sum_prefix_le(s: Seq<u32>, k: int)
    requires
        0 <= k <= s.len(),
    ensures
        0 <= sum_of(s.take(k)) <= sum_of(s),
    decreases s.len(),
{
    if k == s.len() {
        assert(s.take(k) =~= s);
        lemma_sum_nonneg(s);
    } else {
        lemma_sum_prefix_le(s.drop_last(), k);
        assert(s.drop_last().take(k) =~= s.take(k));
    }
}

/// A sum of basis points is never negative.
pub proof fn lemma_sum_nonneg(s: Seq<u32>)
    ensures
        sum_of(s) >= 0,
    decreases s.len(),
{
    if s.len() > 0 {
        lemma_sum_nonneg(s.drop_last());
    }
}

/// Each entry of a list of basis points is at most their sum.
pub proof fn lemma_entry_le_sum(s: Seq<u32>, i: int)
    requires
        0 <= i < s.len(),
    ensures
        s[i] <= sum_of(s),
{
    lemma_sum_take_step(s, i);
    lemma_sum_prefix_le(s, i);
    lemma_sum_prefix_le(s, i + 1);
}

/// Canonical check of a member list's basis points: each is non-zero and
/// together they are exactly 10 000; `InvalidPercentage` otherwise (also when
/// the running sum would overflow `u32`).
pub fn validate_percentages(members: &Vec<GroupMember>) -> (r: Result<(), AutoShareError>)
    ensures
        r == percentages_check(member_percentages(members@)),
{
    let ghost p = member_percentages(members@);
    let n: usize = members.len();
    let mut sum: u32 = 0;
    let mut i: usize = 0;
    while i < n
        invariant
            n == members.len(),
            p == member_percentages(members@),
            p.len() == n,
            i <= n,
            sum == sum_of(p.take(i as int)),
            forall|j: int| 0 <= j < i ==> #[trigger] p[j] > 0,
        decreases n - i,
    {
        let pct: u32 = members[i].percentage;
        assert(pct == p[i as int]);
        if pct == 0 {
            return Err(AutoShareError::InvalidPercentage);
        }
        proof {
            lemma_sum_take_step(p, i as int);
        }
        match sum.checked_add(pct) {
            Some(s) => {
                sum = s;
            },
            None => {
                proof {
                    lemma_sum_prefix_le(p, i as int + 1);
                }
                return Err(AutoShareError::InvalidPercentage);
            },
        }
        i = i + 1;
    }
    assert(p.take(n as int) =~= p);
    if sum == 10_000 {
        Ok(())
    } else {
        Err(AutoShareError::InvalidPercentage)
    }
}

/// The rounded-down share of one member is within a unit of its exact share.
proof fn lemma_floor_share(total: int, pct: int)
    requires
        total >= 0,
        pct >= 0,
    ensures
        total * pct >= 0,
        share_of(total, pct) == (total * pct) / 10000,
        10000 * share_of(total, pct) <= total * pct <= 10000 * share_of(total, pct) + 9999,
{
    assert(total * pct >= 0) by (nonlinear_arith)
        requires
            total >= 0,
            pct >= 0,
    ;
    let x = total * pct;
    assert(10000 * (x / 10000) <= x <= 10000 * (x / 10000) + 9999) by (nonlinear_arith)
        requires
            x >= 0,
    ;
}

/// The rounded-down shares of the first `k` members add up to at most their
/// exact part of `total`, and fall short of it by less than one unit each.
pub proof fn lemma_share_sum_bounds(total: int, p: Seq<u32>, k: int)
    requires
        total >= 0,
        0 <= k <= p.len(),
    ensures
        0 <= share_sum(total, p, k),
        10000 * share_sum(total, p, k) <= total * sum_of(p.take(k)),
        total * sum_of(p.take(k)) <= 10000 * share_sum(total, p, k) + 9999 * k,
    decreases k,
{
    if k == 0 {
        assert(p.take(0) =~= Seq::<u32>::empty());
    } else {
        lemma_share_sum_bounds(total, p, k - 1);
        lemma_sum_take_step(p, k - 1);
        lemma_floor_share(total, p[k - 1] as int);
        let a = sum_of(p.take(k - 1));
        let b = p[k - 1] as int;
        assert(total * (a + b) == total * a + total * b) by (nonlinear_arith);
    }
}

/// With valid basis points and a non-negative total, the rounded-down shares
/// of any prefix of members never exceed the total.
pub proof fn lemma_share_sum_le_total(total: int, p: Seq<u32>, k: int)
    requires
        total >= 0,
        percentages_valid(p),
        0 <= k <= p.len(),
    ensures
        0 <= share_sum(total, p, k) <= total,
{
    lemma_share_sum_bounds(total, p, k);
    lemma_sum_prefix_le(p, k);
    let s = sum_of(p.take(k));
    let ss = share_sum(total, p, k);
    assert(total * s <= total * 10000) by (nonlinear_arith)
        requires
            total >= 0,
            s <= 10000,
    ;
}

/// Splits `total` by basis points so that the payouts add up to exactly
/// `total`: every member but the last gets its share rounded down, and the
/// last member gets the rest (the rounding dust).
///
/// `InvalidAmount` when `total` is negative or a share's intermediate product
/// overflows `i128`; `InvalidPercentage` when the basis points are not valid.
pub fn distribute_amounts(total: i128, members: &Vec<GroupMember>) -> (r: Result<
    Vec<i128>,
    AutoShareError,
>)
    ensures
        match r {
            Ok(v) => distribution(total as int, member_percentages(members@)) == Ok::<
                Seq<int>,
                AutoShareError,
            >(ints_of(v@)),
            Err(e) => distribution(total as int, member_percentages(members@)) == Err::<
                Seq<int>,
                AutoShareError,
            >(e),
        },
{
    let ghost p = member_percentages(members@);
    if total < 0 {
        return Err(AutoShareError::InvalidAmount);
    }
    match validate_percentages(members) {
        Ok(()) => {},
        Err(e) => {
            return Err(e);
        },
    }
    let len: usize = members.len();
    assert(len >= 1) by {
        if len == 0 {
            assert(p.len() == 0);
        }
    }
    let ghost expected = split_shares(total as int, p);
    let mut distributed: i128 = 0;
    let mut shares: Vec<i128> = Vec::new();
    for i in 0..len
        invariant
            len == members.len(),
            len >= 1,
            total >= 0,
            p == member_percentages(members@),
            p.len() == len,
            percentages_valid(p),
            expected == split_shares(total as int, p),
            shares.len() == i,
            forall|j: int| 0 <= j < i ==> (#[trigger] shares@[j]) as int == expected[j],
            forall|j: int| 0 <= j < i && j < len - 1 ==> fits_i128(total * #[trigger] p[j]),
            i < len ==> distributed == share_sum(total as int, p, i as int),
            i == len ==> distributed == total,
    {
        let pct: u32 = members[i].percentage;
        assert(pct == p[i as int]);
        proof {
            lemma_share_sum_le_total(total as int, p, i as int);
        }
        let share: i128 = if i == len - 1 {
            total - distributed
        } else {
            match calculate_share(total, pct) {
                Ok(s) => {
                    proof {
                        lemma_floor_share(total as int, pct as int);
                        lemma_share_sum_le_total(total as int, p, i as int + 1);
                    }
                    s
                },
                Err(e) => {
                    assert(!fits_i128(total * p[i as int]));
                    assert(some_share_overflows(total as int, p));
                    return Err(e);
                },
            }
        };
        shares.push(share);
        distributed = distributed + share;
    }
    assert(!some_share_overflows(total as int, p));
    assert(ints_of(shares@) =~= expected);
    Ok(shares)
}

proof fn lemma_prefix_sum_of_split(total: int, p: Seq<u32>, k: int)
    requires
        1 <= p.len(),
        0 <= k <= p.len() - 1,
    ensures
        sum_ints(split_shares(total, p).take(k)) == share_sum(total, p, k),
    decreases k,
{
    let s = split_shares(total, p);
    if k > 0 {
        lemma_prefix_sum_of_split(total, p, k - 1);
        assert(s.take(k).drop_last() =~= s.take(k - 1));
    } else {
        assert(s.take(0) =~= Seq::<int>::empty());
    }
}

/// A successful distribution pays out exactly the total: the shares add up to
/// `total`, with no unit created or lost.
pub proof fn law_shares_sum_to_total(total: int, p: Seq<u32>)
    requires
        distribution(total, p) is Ok,
    ensures
        sum_ints(distribution(total, p)->Ok_0) == total,
{
    let s = split_shares(total, p);
    let n = p.len() as int;
    assert(n >= 1) by {
        if n == 0 {
            assert(p =~= Seq::<u32>::empty());
        }
    }
    lemma_prefix_sum_of_split(total, p, n - 1);
    assert(s.drop_last() =~= s.take(n - 1));
}

/// Every member but the last gets its share rounded down:
/// `10_000 * share <= total * percentage < 10_000 * (share + 1)`.
pub proof fn law_non_final_shares_are_floor(total: int, p: Seq<u32>, i: int)
    requires
        distribution(total, p) is Ok,
        0 <= i < p.len() - 1,
    ensures
        distribution(total, p)->Ok_0[i] == share_of(total, p[i] as int),
        10000 * distribution(total, p)->Ok_0[i] <= total * p[i],
        total * p[i] < 10000 * (distribution(total, p)->Ok_0[i] + 1),
{
    lemma_floor_share(total, p[i] as int);
}

/// The last member's share exceeds its own rounded-down share by the dust of
/// the others' rounding: never negative, and less than the number of members.
pub proof fn law_final_dust_bounded(total: int, p: Seq<u32>)
    requires
        distribution(total, p) is Ok,
    ensures
        p.len() >= 1,
        0 <= distribution(total, p)->Ok_0[p.len() - 1] - share_of(total, p[p.len() - 1] as int),
        distribution(total, p)->Ok_0[p.len() - 1] - share_of(total, p[p.len() - 1] as int) < p.len(),
{
    let n = p.len() as int;
    assert(n >= 1) by {
        if n == 0 {
            assert(p =~= Seq::<u32>::empty());
        }
    }
    lemma_share_sum_bounds(total, p, n);
    assert(p.take(n) =~= p);
    let ss = share_sum(total, p, n);
    assert(total * 10000 <= 10000 * ss + 9999 * n);
    assert(10000 * ss <= total * 10000);
}

/// No share of a successful distribution is negative.
pub proof fn law_no_negative_shares(total: int, p: Seq<u32>, i: int)
    requires
        distribution(total, p) is Ok,
        0 <= i < p.len(),
    ensures
        distribution(total, p)->Ok_0[i] >= 0,
{
    if i < p.len() - 1 {
        lemma_floor_share(total, p[i] as int);
    } else {
        lemma_share_sum_le_total(total, p, p.len() - 1);
    }
}

proof fn lemma_zero_share_sum(p: Seq<u32>, k: int)
    requires
        0 <= k <= p.len(),
    ensures
        share_sum(0, p, k) == 0,
    decreases k,
{
    if k > 0 {
        lemma_zero_share_sum(p, k - 1);
        lemma_floor_share(0, p[k - 1] as int);
    }
}

/// Distributing nothing gives every member nothing.
pub proof fn law_zero_total_all_zeros(p: Seq<u32>)
    requires
        percentages_valid(p),
    ensures
        distribution(0, p) == Ok::<Seq<int>, AutoShareError>(Seq::new(p.len(), |i: int| 0int)),
{
    assert forall|i: int| 0 <= i < p.len() - 1 implies fits_i128(0 * #[trigger] p[i]) by {
        assert(0 * p[i] == 0);
    }
    lemma_zero_share_sum(p, p.len() - 1);
    assert forall|i: int| 0 <= i < p.len() - 1 implies share_of(0, #[trigger] p[i] as int) == 0 by {
        lemma_floor_share(0, p[i] as int);
    }
    assert(split_shares(0, p) =~= Seq::new(p.len(), |i: int| 0int));
}

/// Splitting `a` and `b` separately pays out as much as splitting `a + b`.
pub proof fn law_split_additive(a: int, b: int, p: Seq<u32>)
    requires
        distribution(a, p) is Ok,
        distribution(b, p) is Ok,
        distribution(a + b, p) is Ok,
    ensures
        sum_ints(distribution(a, p)->Ok_0) + sum_ints(distribution(b, p)->Ok_0) == sum_ints(
            distribution(a + b, p)->Ok_0,
        ),
{
    law_shares_sum_to_total(a, p);
    law_shares_sum_to_total(b, p);
    law_shares_sum_to_total(a + b, p);
}

/// `MAX_SAFE_TOTAL` is the overflow boundary of a full (10 000 basis point)
/// share: up to it the share is the total itself, above it the share is
/// refused with `InvalidAmount`.
pub proof fn law_overflow_boundary(total: int)
    ensures
        0 <= total <= MAX_SAFE_TOTAL ==> share_result(total, 10000) == Ok::<int, AutoShareError>(
            total,
        ),
        total > MAX_SAFE_TOTAL ==> share_result(total, 10000) == Err::<int, AutoShareError>(
            AutoShareError::InvalidAmount,
        ),
{
    if 0 <= total <= MAX_SAFE_TOTAL {
        lemma_floor_share(total, 10000);
    }
}

/// A non-negative total up to `MAX_SAFE_TOTAL` is always split among members
/// with valid basis points.
pub proof fn law_distribution_succeeds(total: int, p: Seq<u32>)
    requires
        0 <= total <= MAX_SAFE_TOTAL,
        percentages_valid(p),
    ensures
        distribution(total, p) is Ok,
{
    assert forall|i: int| 0 <= i < p.len() - 1 implies fits_i128(total * #[trigger] p[i]) by {
        lemma_entry_le_sum(p, i);
        let x = p[i] as int;
        assert(0 <= total * x <= MAX_SAFE_TOTAL * 10000) by (nonlinear_arith)
            requires
                0 <= total <= MAX_SAFE_TOTAL,
                0 <= x <= 10000,
        ;
    }
}

/// The percentage check accepts a list exactly when every entry, the first
/// included, is non-zero and the entries add up to exactly 10 000; every
/// refusal is `InvalidPercentage`.
pub proof fn law_percentages_check_means_valid(p: Seq<u32>)
    ensures
        percentages_check(p) is Ok <==> ((forall|i: int| 0 <= i < p.len() ==> #[trigger] p[i] != 0)
            && sum_of(p) == 10000),
        percentages_check(p) is Err ==> percentages_check(p) == Err::<(), AutoShareError>(
            AutoShareError::InvalidPercentage,
        ),
{
}

/// `calculate_share` computes `total * percentage / 10_000` rounded toward
/// zero, for every percentage (not only up to 10 000): when the product fits
/// in an `i128` the share `s` satisfies
/// `10_000 * s <= total * percentage < 10_000 * (s + 1)` for a non-negative
/// product and `10_000 * (s - 1) < total * percentage <= 10_000 * s` for a
/// negative one; otherwise the answer is `InvalidAmount`.
pub proof fn law_share_rounds_toward_zero(total: int, percentage: int)
    requires
        percentage >= 0,
    ensures
        !fits_i128(total * percentage) ==> share_result(total, percentage) == Err::<
            int,
            AutoShareError,
        >(AutoShareError::InvalidAmount),
        fits_i128(total * percentage) ==> share_result(total, percentage) is Ok,
        fits_i128(total * percentage) && total * percentage >= 0 ==> {
            let s = share_result(total, percentage)->Ok_0;
            &&& 0 <= 10000 * s <= total * percentage
            &&& total * percentage < 10000 * (s + 1)
        },
        fits_i128(total * percentage) && total * percentage < 0 ==> {
            let s = share_result(total, percentage)->Ok_0;
            &&& 10000 * (s - 1) < total * percentage
            &&& total * percentage <= 10000 * s <= 0
        },
{
    let x = total * percentage;
    if x >= 0 {
        assert(10000 * (x / 10000) <= x < 10000 * (x / 10000) + 10000) by (nonlinear_arith)
            requires
                x >= 0,
        ;
        assert(x / 10000 >= 0) by (nonlinear_arith)
            requires
                x >= 0,
        ;
    } else {
        let y = -x;
        assert(10000 * (y / 10000) <= y < 10000 * (y / 10000) + 10000) by (nonlinear_arith)
            requires
                y > 0,
        ;
        assert(y / 10000 >= 0) by (nonlinear_arith)
            requires
                y > 0,
        ;
    }
}

} // verus!
