//! Opening-fee arithmetic and the apportionment of a fee over HTLCs.

use vstd::prelude::*;

use crate::payment_queue::InterceptedHTLC;

verus! {

/// The opening fee for a payment: the proportional part (in millionths, rounded
/// up) or the floor, whichever is larger; `None` when the rounded-up numerator
/// does not fit in a `u64`.
pub open spec fn opening_fee(payment_size_msat: int, min_fee_msat: int, proportional: int) -> Option<int> {
    let numerator = payment_size_msat * proportional + 999_999;
    if numerator > u64::MAX {
        None
    } else {
        let proportional_fee = numerator / 1_000_000;
        Some(if proportional_fee >= min_fee_msat { proportional_fee } else { min_fee_msat })
    }
}

/// Computes the opening fee for `payment_size_msat` under the given floor and
/// proportional rate (parts per million).
pub fn compute_opening_fee(
    payment_size_msat: u64,
    opening_fee_min_fee_msat: u64,
    opening_fee_proportional: u64,
) -> (r: Option<u64>)
    ensures
        match r {
            Some(f) => opening_fee(
                payment_size_msat as int,
                opening_fee_min_fee_msat as int,
                opening_fee_proportional as int,
            ) == Some(f as int),
            None => opening_fee(
                payment_size_msat as int,
                opening_fee_min_fee_msat as int,
                opening_fee_proportional as int,
            ) is None,
        },
{
    proof {
        let a = payment_size_msat as int;
        let b = opening_fee_proportional as int;
        assert(0 <= a * b <= 0xffff_ffff_ffff_ffffint * 0xffff_ffff_ffff_ffffint) by (nonlinear_arith)
            requires
                0 <= a <= 0xffff_ffff_ffff_ffffint,
                0 <= b <= 0xffff_ffff_ffff_ffffint,
        ;
    }
    let product: u128 = payment_size_msat as u128 * opening_fee_proportional as u128;
    let numerator: u128 = product + 999_999;
    if numerator > u64::MAX as u128 {
        return None;
    }
    let proportional_fee: u64 = (numerator / 1_000_000) as u64;
    if proportional_fee >= opening_fee_min_fee_msat {
        Some(proportional_fee)
    } else {
        Some(opening_fee_min_fee_msat)
    }
}

/// The outbound amounts of a sequence of HTLCs.
pub open spec fn amounts_of(htlcs: Seq<InterceptedHTLC>) -> Seq<int> {
    htlcs.map_values(|h: InterceptedHTLC| h.expected_outbound_amount_msat as int)
}

/// The sum of a sequence of integers.
pub open spec fn sum_of(s: Seq<int>) -> int
    decreases s.len(),
{
    if s.len() == 0 {
        0
    } else {
        sum_of(s.drop_last()) + s.last()
    }
}

/// The share of `total_fee` that an amount carries out of `total`, rounded down.
pub open spec fn proportional_share(total_fee: int, amount: int, total: int) -> int {
    if total == 0 {
        0
    } else {
        total_fee * amount / total
    }
}

/// The proportional shares of the first `k` amounts, summed.
pub open spec fn shares_before(o: Seq<int>, total_fee: int, k: int) -> int
    decreases k,
{
    if k <= 0 {
        0
    } else {
        shares_before(o, total_fee, k - 1) + proportional_share(total_fee, o[k - 1], sum_of(o))
    }
}

/// The part of `total_fee` taken from amount `i`: its proportional share, or for
/// the last amount whatever the others left of the fee.
pub open spec fn fee_share(o: Seq<int>, total_fee: int, i: int) -> int {
    if i == o.len() - 1 {
        total_fee - shares_before(o, total_fee, i)
    } else {
        proportional_share(total_fee, o[i], sum_of(o))
    }
}

/// What is forwarded of amount `i` once its fee share is taken, never below zero.
pub open spec fn forwarded_amount(o: Seq<int>, total_fee: int, i: int) -> int {
    if fee_share(o, total_fee, i) >= o[i] {
        0
    } else {
        o[i] - fee_share(o, total_fee, i)
    }
}

proof fn lemma_sum_take_step(o: Seq<int>, k: int)
    requires
        0 <= k < o.len(),
    ensures
        sum_of(o.take(k + 1)) == sum_of(o.take(k)) + o[k],
{
    assert(o.take(k + 1).drop_last() =~= o.take(k));
}

proof fn lemma_sum_nonneg_prefix(o: Seq<int>, k: int)
    requires
        0 <= k <= o.len(),
        forall|j: int| 0 <= j < o.len() ==> #[trigger] o[j] >= 0,
    ensures
        0 <= sum_of(o.take(k)) <= sum_of(o),
    decreases o.len() - k,
{
    if k == o.len() {
        assert(o.take(k) =~= o);
        lemma_sum_nonneg_upto(o, k);
    } else {
        lemma_sum_take_step(o, k);
        lemma_sum_nonneg_prefix(o, k + 1);
        lemma_sum_nonneg_upto(o, k);
    }
}

proof fn lemma_sum_nonneg_upto(o: Seq<int>, k: int)
    requires
        0 <= k <= o.len(),
        forall|j: int| 0 <= j < o.len() ==> #[trigger] o[j] >= 0,
    ensures
        0 <= sum_of(o.take(k)),
    decreases k,
{
    if k > 0 {
        lemma_sum_take_step(o, k - 1);
        lemma_sum_nonneg_upto(o, k - 1);
    }
}

proof fn lemma_sum_bounded(o: Seq<int>, k: int)
    requires
        0 <= k <= o.len(),
        forall|j: int| 0 <= j < o.len() ==> 0 <= #[trigger] o[j] <= u64::MAX,
    ensures
        sum_of(o.take(k)) <= k * u64::MAX,
    decreases k,
{
    if k > 0 {
        lemma_sum_take_step(o, k - 1);
        lemma_sum_bounded(o, k - 1);
    }
}

proof fn lemma_share_bounds(total_fee: int, amount: int, total: int)
    requires
        0 <= total_fee <= total,
        0 <= amount,
    ensures
        proportional_share(total_fee, amount, total) * total <= total_fee * amount,
        total_fee * amount < proportional_share(total_fee, amount, total) * total + total || total
            == 0,
        0 <= proportional_share(total_fee, amount, total) <= amount,
{
    if total > 0 {
        let x = total_fee * amount;
        let q = x / total;
        assert(x == q * total + x % total) by (nonlinear_arith)
            requires
                total > 0,
                q == x / total,
        ;
        assert(0 <= x % total < total) by (nonlinear_arith)
            requires
                total > 0,
        ;
        assert(0 <= x <= total * amount) by (nonlinear_arith)
            requires
                0 <= total_fee <= total,
                0 <= amount,
                x == total_fee * amount,
        ;
        assert(0 <= q <= amount) by (nonlinear_arith)
            requires
                total > 0,
                x == q * total + x % total,
                0 <= x % total < total,
                0 <= x <= total * amount,
        ;
    }
}

proof fn lemma_shares_before_bounded(o: Seq<int>, total_fee: int, k: int)
    requires
        0 <= k <= o.len(),
        0 <= total_fee <= sum_of(o),
        forall|j: int| 0 <= j < o.len() ==> #[trigger] o[j] >= 0,
    ensures
        shares_before(o, total_fee, k) * sum_of(o) <= total_fee * sum_of(o.take(k)),
        0 <= shares_before(o, total_fee, k),
        shares_before(o, total_fee, k) <= total_fee,
    decreases k,
{
    let t = sum_of(o);
    lemma_sum_nonneg_prefix(o, k);
    if k > 0 {
        lemma_shares_before_bounded(o, total_fee, k - 1);
        lemma_sum_take_step(o, k - 1);
        lemma_share_bounds(total_fee, o[k - 1], t);
        let s = shares_before(o, total_fee, k - 1);
        let p = proportional_share(total_fee, o[k - 1], t);
        let pk = sum_of(o.take(k - 1));
        assert((s + p) * t <= total_fee * (pk + o[k - 1])) by (nonlinear_arith)
            requires
                s * t <= total_fee * pk,
                p * t <= total_fee * o[k - 1],
        ;
    }
    let s = shares_before(o, total_fee, k);
    let pk = sum_of(o.take(k));
    if t == 0 {
        assert(s == 0) by {
            lemma_shares_zero_total(o, total_fee, k);
        }
    } else {
        assert(s <= total_fee) by (nonlinear_arith)
            requires
                s * t <= total_fee * pk,
                0 <= pk <= t,
                t > 0,
                total_fee >= 0,
        ;
    }
}

proof fn lemma_shares_zero_total(o: Seq<int>, total_fee: int, k: int)
    requires
        sum_of(o) == 0,
    ensures
        shares_before(o, total_fee, k) == 0,
    decreases k,
{
    if k > 0 {
        lemma_shares_zero_total(o, total_fee, k - 1);
    }
}

proof fn lemma_shares_before_lower(o: Seq<int>, total_fee: int, k: int)
    requires
        0 <= k <= o.len(),
        0 <= total_fee <= sum_of(o),
        forall|j: int| 0 <= j < o.len() ==> #[trigger] o[j] >= 0,
    ensures
        shares_before(o, total_fee, k) * sum_of(o) + k * sum_of(o) >= total_fee * sum_of(o.take(k)),
    decreases k,
{
    let t = sum_of(o);
    if k > 0 {
        lemma_shares_before_lower(o, total_fee, k - 1);
        lemma_sum_take_step(o, k - 1);
        lemma_share_bounds(total_fee, o[k - 1], t);
        let s = shares_before(o, total_fee, k - 1);
        let p = proportional_share(total_fee, o[k - 1], t);
        let pk = sum_of(o.take(k - 1));
        if t == 0 {
            assert(total_fee == 0);
            assert(total_fee * sum_of(o.take(k)) == 0) by (nonlinear_arith)
                requires
                    total_fee == 0,
            ;
            assert(s * t + k * t == 0) by (nonlinear_arith)
                requires
                    t == 0,
            ;
        } else {
            assert((s + p) * t + k * t >= total_fee * (pk + o[k - 1])) by (nonlinear_arith)
                requires
                    s * t + (k - 1) * t >= total_fee * pk,
                    total_fee * o[k - 1] < p * t + t,
            ;
        }
    } else {
        assert(o.take(0) =~= Seq::<int>::empty());
        assert(total_fee * sum_of(o.take(0)) == 0) by (nonlinear_arith)
            requires
                sum_of(o.take(0)) == 0,
        ;
        assert(shares_before(o, total_fee, 0) * t + 0 * t == 0) by (nonlinear_arith)
            requires
                shares_before(o, total_fee, 0) == 0,
        ;
    }
}

/// The fee taken from each amount, as the difference between what arrives and
/// what is forwarded.
pub open spec fn taken_fees(o: Seq<int>, total_fee: int) -> Seq<int> {
    Seq::new(o.len(), |i: int| o[i] - forwarded_amount(o, total_fee, i))
}

proof fn lemma_taken_is_share(o: Seq<int>, total_fee: int, i: int)
    requires
        0 <= i < o.len(),
        0 <= total_fee <= sum_of(o),
        forall|j: int| 0 <= j < o.len() ==> #[trigger] o[j] >= 0,
        fee_share(o, total_fee, o.len() - 1) <= o[o.len() - 1],
    ensures
        taken_fees(o, total_fee)[i] == fee_share(o, total_fee, i),
        0 <= fee_share(o, total_fee, i) <= o[i],
{
    if i == o.len() - 1 {
        lemma_shares_before_bounded(o, total_fee, i);
    } else {
        lemma_share_bounds(total_fee, o[i], sum_of(o));
    }
}

proof fn lemma_taken_general(o: Seq<int>, total_fee: int, i: int)
    requires
        0 <= i < o.len(),
        0 <= total_fee <= sum_of(o),
        forall|j: int| 0 <= j < o.len() ==> #[trigger] o[j] >= 0,
    ensures
        0 <= fee_share(o, total_fee, i),
        taken_fees(o, total_fee)[i] == if fee_share(o, total_fee, i) >= o[i] {
            o[i]
        } else {
            fee_share(o, total_fee, i)
        },
        taken_fees(o, total_fee)[i] <= fee_share(o, total_fee, i),
{
    if i == o.len() - 1 {
        lemma_shares_before_bounded(o, total_fee, i);
    } else {
        lemma_share_bounds(total_fee, o[i], sum_of(o));
    }
}

proof fn lemma_taken_prefix(o: Seq<int>, total_fee: int, k: int)
    requires
        0 <= k < o.len(),
        0 <= total_fee <= sum_of(o),
        forall|j: int| 0 <= j < o.len() ==> #[trigger] o[j] >= 0,
        fee_share(o, total_fee, o.len() - 1) <= o[o.len() - 1],
    ensures
        sum_of(taken_fees(o, total_fee).take(k)) == shares_before(o, total_fee, k),
    decreases k,
{
    let d = taken_fees(o, total_fee);
    if k > 0 {
        lemma_taken_prefix(o, total_fee, k - 1);
        lemma_sum_take_step(d, k - 1);
        lemma_taken_is_share(o, total_fee, k - 1);
    } else {
        assert(d.take(0) =~= Seq::<int>::empty());
    }
}

/// When the fee is at most the sum of the amounts, and the residue left for
/// the last HTLC does not exceed its amount, the amounts forwarded fall short
/// of the amounts received by exactly the fee.
pub proof fn lemma_forwarded_sum(htlcs: Seq<InterceptedHTLC>, total_fee_msat: u64)
    requires
        htlcs.len() > 0,
        total_fee_msat <= sum_of(amounts_of(htlcs)),
        fee_share(amounts_of(htlcs), total_fee_msat as int, htlcs.len() - 1)
            <= htlcs.last().expected_outbound_amount_msat,
    ensures
        sum_of(taken_fees(amounts_of(htlcs), total_fee_msat as int)) == total_fee_msat,
        forall|i: int|
            0 <= i < htlcs.len() ==> 0 <= #[trigger] forwarded_amount(
                amounts_of(htlcs),
                total_fee_msat as int,
                i,
            ) <= htlcs[i].expected_outbound_amount_msat,
{
    let o = amounts_of(htlcs);
    let fee = total_fee_msat as int;
    let n = o.len() as int;
    let d = taken_fees(o, fee);
    lemma_taken_prefix(o, fee, n - 1);
    lemma_sum_take_step(d, n - 1);
    lemma_taken_is_share(o, fee, n - 1);
    assert(d.take(n) =~= d);
    assert forall|i: int| 0 <= i < htlcs.len() implies 0 <= #[trigger] forwarded_amount(o, fee, i)
        <= htlcs[i].expected_outbound_amount_msat by {
        lemma_taken_is_share(o, fee, i);
    }
}

/// When the fee is at most the sum of the amounts, the fee taken from an HTLC
/// is within 5% of its fair share `total_fee * amount / total` whenever that
/// fair share is at least twenty times the number of HTLCs: the rounding moves
/// each share by less than the number of HTLCs, and cutting a share down to
/// the HTLC's amount only brings it nearer.
pub proof fn lemma_fee_share_near_fair(htlcs: Seq<InterceptedHTLC>, total_fee_msat: u64, i: int)
    requires
        0 <= i < htlcs.len(),
        total_fee_msat <= sum_of(amounts_of(htlcs)),
        20 * htlcs.len() * sum_of(amounts_of(htlcs)) <= total_fee_msat
            * htlcs[i].expected_outbound_amount_msat,
    ensures
        ({
            let o = amounts_of(htlcs);
            let taken = taken_fees(o, total_fee_msat as int)[i];
            let fair = total_fee_msat * o[i];
            &&& 20 * (taken * sum_of(o) - fair) <= fair
            &&& 20 * (fair - taken * sum_of(o)) <= fair
        }),
{
    let o = amounts_of(htlcs);
    let fee = total_fee_msat as int;
    let n = o.len() as int;
    let t = sum_of(o);
    let fair = fee * o[i];
    let share = fee_share(o, fee, i);
    lemma_taken_general(o, fee, i);
    let taken = taken_fees(o, fee)[i];
    if i == n - 1 {
        lemma_shares_before_bounded(o, fee, i);
        lemma_shares_before_lower(o, fee, i);
        lemma_sum_take_step(o, i);
        assert(o.take(n) =~= o);
        let sb = shares_before(o, fee, i);
        let pre = sum_of(o.take(i));
        assert(share * t == fee * t - sb * t) by (nonlinear_arith)
            requires
                share == fee - sb,
        ;
        assert(fee * t == fee * pre + fair) by (nonlinear_arith)
            requires
                t == pre + o[i],
                fair == fee * o[i],
        ;
        assert(i * t <= n * t) by (nonlinear_arith)
            requires
                i == n - 1,
                t >= 0,
        ;
    } else {
        lemma_share_bounds(fee, o[i], t);
        lemma_sum_nonneg_prefix(o, 0);
        assert(n * t >= t) by (nonlinear_arith)
            requires
                n >= 1,
                t >= 0,
        ;
        if t == 0 {
            assert(fair == 0) by (nonlinear_arith)
                requires
                    fee == 0,
                    fair == fee * o[i],
            ;
            assert(share * t == 0) by (nonlinear_arith)
                requires
                    t == 0,
            ;
        }
        assert(share * t - fair <= n * t && fair - share * t <= n * t);
    }
    lemma_sum_nonneg_prefix(o, 0);
    assert(taken * t <= share * t) by (nonlinear_arith)
        requires
            taken <= share,
            t >= 0,
    ;
    if taken < share {
        assert(fair <= taken * t) by (nonlinear_arith)
            requires
                taken == o[i],
                fair == fee * o[i],
                fee <= t,
                o[i] >= 0,
        ;
    }
    assert(20 * (taken * t - fair) <= fair && 20 * (fair - taken * t) <= fair) by (nonlinear_arith)
        requires
            taken * t <= share * t,
            taken < share ==> fair <= taken * t,
            taken == share || taken < share,
            share * t - fair <= n * t,
            fair - share * t <= n * t,
            20 * n * t <= fair,
    ;
}

/// Splits `total_fee_msat` over `htlcs` in proportion to their outbound amounts
/// and returns, for each HTLC in order, its intercept id and the amount to
/// forward once its share is taken. The rounding residue is taken from the last
/// HTLC. Returns nothing when the fee exceeds the sum of the amounts.
pub fn calculate_amount_to_forward_per_htlc(htlcs: &[InterceptedHTLC], total_fee_msat: u64) -> (r: Vec<([u8; 32], u64)>)
    ensures
        total_fee_msat > sum_of(amounts_of(htlcs@)) ==> r@.len() == 0,
        total_fee_msat <= sum_of(amounts_of(htlcs@)) ==> {
            &&& r@.len() == htlcs@.len()
            &&& forall|i: int|
                0 <= i < r@.len() ==> {
                    &&& (#[trigger] r@[i]).0 == htlcs@[i].intercept_id
                    &&& r@[i].1 == forwarded_amount(amounts_of(htlcs@), total_fee_msat as int, i)
                    &&& r@[i].1 <= htlcs@[i].expected_outbound_amount_msat
                }
        },
{
    let ghost o = amounts_of(htlcs@);
    let n = htlcs.len();
    let mut total: u128 = 0;
    let mut k: usize = 0;
    while k < n
        invariant
            0 <= k <= n == htlcs@.len() == o.len(),
            o == amounts_of(htlcs@),
            total == sum_of(o.take(k as int)),
        decreases n - k,
    {
        proof {
            lemma_sum_take_step(o, k as int);
            lemma_sum_bounded(o, k as int);
            assert(k * u64::MAX + u64::MAX <= 0xffff_ffff_ffff_ffff * 0x1_0000_0000_0000_0000)
                by (nonlinear_arith)
                requires
                    k < 0x1_0000_0000_0000_0000,
            ;
        }
        total = total + htlcs[k].expected_outbound_amount_msat as u128;
        k = k + 1;
    }
    proof {
        assert(o.take(n as int) =~= o);
    }
    let mut per_htlc_forwards: Vec<([u8; 32], u64)> = Vec::new();
    if total_fee_msat as u128 > total {
        return per_htlc_forwards;
    }
    let ghost t = total as int;
    let ghost fee = total_fee_msat as int;
    let mut fee_remaining_msat: u64 = total_fee_msat;
    let mut index: usize = 0;
    while index < n
        invariant
            0 <= index <= n == htlcs@.len() == o.len(),
            o == amounts_of(htlcs@),
            t == total == sum_of(o),
            fee == total_fee_msat <= t,
            fee_remaining_msat == fee - shares_before(o, fee, index as int),
            fee_remaining_msat * t >= fee * (t - sum_of(o.take(index as int))),
            per_htlc_forwards@.len() == index,
            forall|i: int|
                0 <= i < index ==> {
                    &&& (#[trigger] per_htlc_forwards@[i]).0 == htlcs@[i].intercept_id
                    &&& per_htlc_forwards@[i].1 == forwarded_amount(o, fee, i)
                    &&& per_htlc_forwards@[i].1 <= htlcs@[i].expected_outbound_amount_msat
                },
        decreases n - index,
    {
        let htlc = &htlcs[index];
        let amount = htlc.expected_outbound_amount_msat;
        proof {
            lemma_sum_take_step(o, index as int);
            lemma_sum_nonneg_prefix(o, index as int + 1);
            lemma_share_bounds(fee, amount as int, t);
            assert(0 <= total_fee_msat as int * amount as int <= 0xffff_ffff_ffff_ffffint
                * 0xffff_ffff_ffff_ffffint) by (nonlinear_arith)
                requires
                    0 <= total_fee_msat <= 0xffff_ffff_ffff_ffffint,
                    0 <= amount <= 0xffff_ffff_ffff_ffffint,
            ;
        }
        let proportional_fee_amt_msat: u64 = if total == 0 {
            0
        } else {
            (total_fee_msat as u128 * amount as u128 / total) as u64
        };
        let ghost p = proportional_fee_amt_msat as int;
        let ghost pre = sum_of(o.take(index as int));
        proof {
            assert(p == proportional_share(fee, o[index as int], t));
            let r = fee_remaining_msat as int;
            if t > 0 {
                assert(r >= p) by (nonlinear_arith)
                    requires
                        r * t >= fee * (t - pre),
                        t - pre >= o[index as int],
                        p * t <= fee * o[index as int],
                        fee >= 0,
                        t > 0,
                ;
                assert((r - p) * t >= fee * (t - (pre + o[index as int]))) by (nonlinear_arith)
                    requires
                        r * t >= fee * (t - pre),
                        p * t <= fee * o[index as int],
                ;
            } else {
                assert((r - p) * t >= fee * (t - (pre + o[index as int]))) by (nonlinear_arith)
                    requires
                        t == 0,
                        fee == 0,
                ;
            }
        }
        let mut actual_fee_amt_msat: u64 = if fee_remaining_msat < proportional_fee_amt_msat {
            fee_remaining_msat
        } else {
            proportional_fee_amt_msat
        };
        if amount < actual_fee_amt_msat {
            actual_fee_amt_msat = amount;
        }
        fee_remaining_msat = fee_remaining_msat - actual_fee_amt_msat;
        if index == n - 1 {
            actual_fee_amt_msat = actual_fee_amt_msat + fee_remaining_msat;
        }
        let amount_to_forward_msat: u64 = amount.saturating_sub(actual_fee_amt_msat);
        per_htlc_forwards.push((htlc.intercept_id, amount_to_forward_msat));
        index = index + 1;
    }
    per_htlc_forwards
}

} // verus!
