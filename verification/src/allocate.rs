//! Normalization, upscaling, capping and redistribution, and the allocator
//! itself. All scaling is proportional with floor division: when the raw
//! match total exceeds the pool every value is scaled by `pot / total`, and
//! when it falls short and upscaling is requested every value is scaled by
//! the same factor upward. A per-recipient cap then clamps each value, and
//! the `Redistribute` strategy hands the clamped-off overflow out once, in
//! equal shares, to the recipients still below the cap, re-clamping at the
//! cap.

use vstd::prelude::*;
use vstd::arithmetic::div_mod::lemma_div_is_ordered;
use vstd::arithmetic::div_mod::lemma_div_multiples_vanish;
use vstd::arithmetic::div_mod::lemma_div_pos_is_pos;
use vstd::arithmetic::div_mod::lemma_fundamental_div_mod;
use vstd::arithmetic::div_mod::lemma_mod_bound;
use crate::aggregate::aggregate;
use crate::aggregate::aggregate_spec;
use crate::aggregate::amounts_nonneg;
use crate::aggregate::lemma_aggregate_sum;
use crate::aggregate::lemma_aggregate_wf;
use crate::aggregate::lemma_entry_amount_le_sum;
use crate::aggregate::sum_amounts;
use crate::aggregate::sum_entry;
use crate::aggregate::table_wf;
use crate::score::compute_scores;
use crate::score::lemma_pair_score_bound;
use crate::score::lemma_sum_entry_take_le;
use crate::score::matchas_view;
use crate::score::raw_scores;
use crate::types::Contribution;
use crate::types::LinearQfOptions;
use crate::types::Matcha;
use crate::types::MatchingCapStrategy;
use crate::types::QfError;

verus! {

/// Every value scaled by `pot / total`, rounding down.
pub open spec fn scale_all(ms: Seq<(Seq<char>, int)>, pot: int, total: int) -> Seq<
    (Seq<char>, int),
> {
    ms.map_values(|m: (Seq<char>, int)| (m.0, m.1 * pot / total))
}

/// Every value clamped to at most `cap`.
pub open spec fn clamp_all(ms: Seq<(Seq<char>, int)>, cap: int) -> Seq<(Seq<char>, int)> {
    ms.map_values(|m: (Seq<char>, int)| (m.0, if m.1 > cap { cap } else { m.1 }))
}

/// Total amount clamped off by the cap.
pub open spec fn overflow_of(ms: Seq<(Seq<char>, int)>, cap: int) -> int
    decreases ms.len(),
{
    if ms.len() == 0 {
        0
    } else {
        overflow_of(ms.drop_last(), cap) + if ms.last().1 > cap {
            ms.last().1 - cap
        } else {
            0
        }
    }
}

/// How many values lie strictly below the cap.
pub open spec fn eligible_count(ms: Seq<(Seq<char>, int)>, cap: int) -> int
    decreases ms.len(),
{
    if ms.len() == 0 {
        0
    } else {
        eligible_count(ms.drop_last(), cap) + if ms.last().1 < cap {
            1int
        } else {
            0int
        }
    }
}

/// `share` added to every value strictly below the cap, re-clamped at the
/// cap.
pub open spec fn add_share(ms: Seq<(Seq<char>, int)>, cap: int, share: int) -> Seq<
    (Seq<char>, int),
> {
    ms.map_values(
        |m: (Seq<char>, int)|
            if m.1 < cap {
                (m.0, if m.1 + share > cap {
                    cap
                } else {
                    m.1 + share
                })
            } else {
                m
            },
    )
}

/// The whole cap stage: clamp to the cap, and under the `Redistribute`
/// strategy hand the overflow out once, in equal shares, to the recipients
/// strictly below the cap.
pub open spec fn cap_stage(
    ms: Seq<(Seq<char>, int)>,
    cap_opt: Option<int>,
    strategy: MatchingCapStrategy,
) -> Seq<(Seq<char>, int)> {
    match cap_opt {
        Option::None => ms,
        Option::Some(cap) => {
            let clamped = clamp_all(ms, cap);
            let ov = overflow_of(ms, cap);
            let el = eligible_count(ms, cap);
            if strategy is Redistribute && ov > 0 && el > 0 {
                add_share(clamped, cap, ov / el)
            } else {
                clamped
            }
        },
    }
}

/// The cap of the configuration as a mathematical value.
pub open spec fn cap_amount_view(c: Option<u64>) -> Option<int> {
    match c {
        Option::None => Option::None,
        Option::Some(x) => Option::Some(x as int),
    }
}

/// The raw match total of a contribution list.
pub open spec fn spec_total_match(cs: Seq<Contribution>) -> int {
    sum_entry(raw_scores(aggregate_spec(cs)))
}

/// The matches after saturation normalization and optional upscaling: scaled
/// by `pot / total` when the raw total exceeds the pool, scaled by the same
/// factor upward when it falls short of the pool and upscaling is on, and
/// otherwise left raw.
pub open spec fn scaled_matches(cs: Seq<Contribution>, pot: int, upscale: bool) -> Seq<
    (Seq<char>, int),
> {
    let raw = raw_scores(aggregate_spec(cs));
    let total = spec_total_match(cs);
    if total > pot {
        scale_all(raw, pot, total)
    } else if upscale && total < pot {
        scale_all(raw, pot, total)
    } else {
        raw
    }
}

/// The full allocation: aggregation, scoring, scaling, and the cap stage.
pub open spec fn qf_spec(cs: Seq<Contribution>, pot: int, options: LinearQfOptions) -> Seq<
    (Seq<char>, int),
> {
    cap_stage(
        scaled_matches(cs, pot, options.upscale),
        cap_amount_view(options.matching_cap_amount),
        options.matching_cap_strategy,
    )
}

/// The configurations the allocator rejects: upscaling with an empty pool,
/// or upscaling when the raw match total is zero.
pub open spec fn qf_rejects(cs: Seq<Contribution>, pot: int, options: LinearQfOptions) -> bool {
    options.upscale && (pot == 0 || spec_total_match(cs) == 0)
}

/// The raw scores of a well-formed table are non-negative.
pub proof fn lemma_raw_scores_nonneg(t: Seq<(Seq<char>, Seq<(Seq<char>, int)>)>)
    requires
        table_wf(t),
    ensures
        amounts_nonneg(raw_scores(t)),
{
    assert forall|i: int| 0 <= i < raw_scores(t).len() implies raw_scores(t)[i].1 >= 0 by {
        assert(amounts_nonneg(t[i].1));
        lemma_pair_score_bound(t[i].1);
    }
}

/// Bounds of one scaled value: it stays in `[0, pot]`, and `total` times it
/// reconstructs `m * pot` up to a remainder below `total`.
proof fn lemma_scale_value(m: int, pot: int, total: int)
    requires
        0 <= m <= total,
        0 < total,
        0 <= pot,
    ensures
        0 <= m * pot / total <= pot,
        m * pot - (total - 1) <= total * (m * pot / total) <= m * pot,
{
    let x = m * pot;
    assert(0 <= m * pot && m * pot <= total * pot) by (nonlinear_arith)
        requires
            0 <= m <= total,
            0 <= pot,
    ;
    lemma_div_pos_is_pos(x, total);
    lemma_div_is_ordered(x, total * pot, total);
    lemma_div_multiples_vanish(pot, total);
    lemma_fundamental_div_mod(x, total);
    lemma_mod_bound(x, total);
}

/// Pointwise and summed bounds of the scaling stage.
pub proof fn lemma_scale_all_sums(ms: Seq<(Seq<char>, int)>, pot: int, total: int)
    requires
        amounts_nonneg(ms),
        forall|i: int| 0 <= i < ms.len() ==> ms[i].1 <= total,
        0 < total,
        0 <= pot,
    ensures
        amounts_nonneg(scale_all(ms, pot, total)),
        forall|i: int| 0 <= i < ms.len() ==> #[trigger] scale_all(ms, pot, total)[i].1 <= pot,
        total * sum_entry(scale_all(ms, pot, total)) <= sum_entry(ms) * pot,
        sum_entry(ms) * pot - ms.len() * (total - 1) <= total * sum_entry(scale_all(ms, pot, total)),
    decreases ms.len(),
{
    let sc = scale_all(ms, pot, total);
    assert forall|i: int| 0 <= i < ms.len() implies sc[i].1 >= 0 && #[trigger] sc[i].1 <= pot by {
        lemma_scale_value(ms[i].1, pot, total);
    }
    if ms.len() == 0 {
    } else {
        assert(amounts_nonneg(ms.drop_last()));
        lemma_scale_all_sums(ms.drop_last(), pot, total);
        assert(sc.drop_last() =~= scale_all(ms.drop_last(), pot, total));
        assert(sc.last() == (ms.last().0, ms.last().1 * pot / total));
        let a = sum_entry(ms.drop_last());
        let b = ms.last().1;
        let n = ms.len() - 1;
        lemma_scale_value(b, pot, total);
        let sa = sum_entry(sc.drop_last());
        let sb = sc.last().1;
        assert(total * (sa + sb) == total * sa + total * sb) by (nonlinear_arith);
        assert((a + b) * pot == a * pot + b * pot) by (nonlinear_arith);
        assert((n + 1) * (total - 1) == n * (total - 1) + (total - 1)) by (nonlinear_arith);
    }
}

/// Conservation of the scaling stage: when the values sum to `total`, the
/// scaled values sum to the pool, short of it by less than one unit per
/// value.
pub proof fn lemma_scale_all_conserves(ms: Seq<(Seq<char>, int)>, pot: int, total: int)
    requires
        amounts_nonneg(ms),
        forall|i: int| 0 <= i < ms.len() ==> ms[i].1 <= total,
        sum_entry(ms) == total,
        0 < total,
        0 <= pot,
    ensures
        pot - ms.len() < sum_entry(scale_all(ms, pot, total)) <= pot,
{
    lemma_scale_all_sums(ms, pot, total);
    let s = sum_entry(scale_all(ms, pot, total));
    let n = ms.len() as int;
    if ms.len() == 0 {
        assert(sum_entry(ms) == 0);
    }
    assert(s <= pot) by (nonlinear_arith)
        requires
            total * s <= total * pot,
            0 < total,
    ;
    assert(total * pot - n * (total - 1) <= total * s);
    assert(pot - n < s) by (nonlinear_arith)
        requires
            total * pot - n * (total - 1) <= total * s,
            0 < total,
            1 <= n,
    ;
}

/// The clamp pass: its sum is the old sum less the overflow, every value
/// lands in `[0, cap]`, eligibility is unchanged, and the overflow lies
/// between 0 and the old sum.
pub proof fn lemma_clamp_props(ms: Seq<(Seq<char>, int)>, cap: int)
    requires
        amounts_nonneg(ms),
        cap >= 0,
    ensures
        sum_entry(clamp_all(ms, cap)) == sum_entry(ms) - overflow_of(ms, cap),
        amounts_nonneg(clamp_all(ms, cap)),
        forall|i: int| 0 <= i < ms.len() ==> #[trigger] clamp_all(ms, cap)[i].1 <= cap,
        eligible_count(clamp_all(ms, cap), cap) == eligible_count(ms, cap),
        0 <= overflow_of(ms, cap) <= sum_entry(ms),
    decreases ms.len(),
{
    let cl = clamp_all(ms, cap);
    if ms.len() == 0 {
    } else {
        assert(amounts_nonneg(ms.drop_last()));
        lemma_clamp_props(ms.drop_last(), cap);
        assert(cl.drop_last() =~= clamp_all(ms.drop_last(), cap));
        crate::aggregate::lemma_sum_entry_nonneg(ms.drop_last());
    }
}

/// How many values lie strictly below the cap, between 0 and the length.
pub proof fn lemma_eligible_count_bounds(ms: Seq<(Seq<char>, int)>, cap: int)
    ensures
        0 <= eligible_count(ms, cap) <= ms.len(),
    decreases ms.len(),
{
    if ms.len() > 0 {
        lemma_eligible_count_bounds(ms.drop_last(), cap);
    }
}

/// The redistribution pass: values stay in `[0, cap]` and the sum grows by
/// at most one share per eligible value.
pub proof fn lemma_add_share_props(ms: Seq<(Seq<char>, int)>, cap: int, share: int)
    requires
        amounts_nonneg(ms),
        forall|i: int| 0 <= i < ms.len() ==> ms[i].1 <= cap,
        cap >= 0,
        share >= 0,
    ensures
        amounts_nonneg(add_share(ms, cap, share)),
        forall|i: int| 0 <= i < ms.len() ==> #[trigger] add_share(ms, cap, share)[i].1 <= cap,
        sum_entry(add_share(ms, cap, share)) <= sum_entry(ms) + share * eligible_count(ms, cap),
    decreases ms.len(),
{
    let ad = add_share(ms, cap, share);
    if ms.len() == 0 {
    } else {
        assert(amounts_nonneg(ms.drop_last()));
        lemma_add_share_props(ms.drop_last(), cap, share);
        assert(ad.drop_last() =~= add_share(ms.drop_last(), cap, share));
        let e = eligible_count(ms.drop_last(), cap);
        lemma_eligible_count_bounds(ms.drop_last(), cap);
        if ms.last().1 < cap {
            assert(share * (e + 1) == share * e + share) by (nonlinear_arith);
        } else {
            assert(eligible_count(ms, cap) == e);
        }
    }
}

/// A list of values each at most `cap` sums to at most `cap` per value.
pub proof fn lemma_sum_le_cap_len(ms: Seq<(Seq<char>, int)>, cap: int)
    requires
        forall|i: int| 0 <= i < ms.len() ==> ms[i].1 <= cap,
    ensures
        sum_entry(ms) <= cap * ms.len(),
    decreases ms.len(),
{
    if ms.len() == 0 {
    } else {
        lemma_sum_le_cap_len(ms.drop_last(), cap);
        let n = ms.len() - 1;
        assert(cap * (n + 1) == cap * n + cap) by (nonlinear_arith);
    }
}

/// The cap stage: names are kept, every value lands in `[0, cap]`, and the
/// sum never grows beyond the pre-cap sum nor beyond `cap` per recipient.
pub proof fn lemma_cap_stage_props(
    ms: Seq<(Seq<char>, int)>,
    cap: int,
    strategy: MatchingCapStrategy,
)
    requires
        amounts_nonneg(ms),
        cap >= 0,
    ensures
        cap_stage(ms, Option::Some(cap), strategy).len() == ms.len(),
        forall|i: int| 0 <= i < ms.len() ==> #[trigger] cap_stage(ms, Option::Some(cap), strategy)[i].0
            == ms[i].0,
        amounts_nonneg(cap_stage(ms, Option::Some(cap), strategy)),
        forall|i: int| 0 <= i < ms.len() ==> #[trigger] cap_stage(ms, Option::Some(cap), strategy)[i].1
            <= cap,
        sum_entry(cap_stage(ms, Option::Some(cap), strategy)) <= sum_entry(ms),
        sum_entry(cap_stage(ms, Option::Some(cap), strategy)) <= cap * ms.len(),
{
    let out = cap_stage(ms, Option::Some(cap), strategy);
    lemma_clamp_props(ms, cap);
    let cl = clamp_all(ms, cap);
    let ov = overflow_of(ms, cap);
    let el = eligible_count(ms, cap);
    if strategy is Redistribute && ov > 0 && el > 0 {
        let share = ov / el;
        lemma_div_pos_is_pos(ov, el);
        lemma_add_share_props(cl, cap, share);
        lemma_fundamental_div_mod(ov, el);
        lemma_mod_bound(ov, el);
        assert(share * el == el * share) by (nonlinear_arith);
        assert(eligible_count(cl, cap) == el);
        assert(sum_entry(out) <= sum_entry(cl) + share * el);
        assert(sum_entry(out) <= sum_entry(ms));
    }
    lemma_sum_le_cap_len(out, cap);
}

/// Scale every match by `pot / total` in place, rounding down.
fn scale_matchas(ms: &mut Vec<Matcha>, pot: u64, total: u64)
    requires
        total > 0,
        amounts_nonneg(matchas_view(old(ms)@)),
        forall|i: int| 0 <= i < old(ms)@.len() ==> matchas_view(old(ms)@)[i].1 <= total as int,
    ensures
        matchas_view(final(ms)@) == scale_all(matchas_view(old(ms)@), pot as int, total as int),
{
    let ghost ms0 = ms@;
    let ghost mv0 = matchas_view(ms0);
    let ghost target = scale_all(mv0, pot as int, total as int);
    let mut k: usize = 0;
    while k < ms.len()
        invariant
            0 <= k <= ms@.len(),
            ms@.len() == ms0.len(),
            mv0 == matchas_view(ms0),
            target == scale_all(mv0, pot as int, total as int),
            amounts_nonneg(mv0),
            forall|i: int| 0 <= i < ms0.len() ==> mv0[i].1 <= total as int,
            total > 0,
            forall|i: int| 0 <= i < k ==> matchas_view(ms@)[i] == target[i],
            forall|i: int| k <= i < ms@.len() ==> ms@[i] == ms0[i],
        decreases ms@.len() - k,
    {
        let v = ms[k].matcha;
        proof {
            assert(mv0[k as int].1 == v as int);
            lemma_scale_value(v as int, pot as int, total as int);
            assert((v as int) * (pot as int) < 0x1_0000_0000_0000_0000_0000_0000_0000_0000)
                by (nonlinear_arith)
                requires
                    0 <= (v as int) < 0x1_0000_0000_0000_0000,
                    0 <= (pot as int) < 0x1_0000_0000_0000_0000,
            ;
        }
        let scaled = (((v as u128) * (pot as u128)) / (total as u128)) as u64;
        ms[k].matcha = scaled;
        proof {
            assert(matchas_view(ms@)[k as int] == target[k as int]);
        }
        k = k + 1;
    }
    proof {
        assert(matchas_view(ms@) =~= target);
    }
}

/// Clamp every match to the cap; under `Redistribute`, hand the clamped-off
/// overflow out once, in equal shares, to the matches strictly below the cap.
fn apply_cap(ms: &mut Vec<Matcha>, cap: u64, strategy: MatchingCapStrategy)
    requires
        amounts_nonneg(matchas_view(old(ms)@)),
        sum_entry(matchas_view(old(ms)@)) <= u64::MAX as int,
    ensures
        matchas_view(final(ms)@) == cap_stage(
            matchas_view(old(ms)@),
            Option::Some(cap as int),
            strategy,
        ),
{
    let ghost ms0 = ms@;
    let ghost mv0 = matchas_view(ms0);
    let mut overflow_total: u64 = 0;
    let mut eligible: usize = 0;
    let mut k: usize = 0;
    proof {
        assert(mv0.take(0) =~= Seq::<(Seq<char>, int)>::empty());
    }
    while k < ms.len()
        invariant
            0 <= k <= ms@.len(),
            ms@.len() == ms0.len(),
            mv0 == matchas_view(ms0),
            amounts_nonneg(mv0),
            sum_entry(mv0) <= u64::MAX as int,
            overflow_total as int == overflow_of(mv0.take(k as int), cap as int),
            eligible as int == eligible_count(mv0.take(k as int), cap as int),
            eligible <= k,
            forall|i: int| 0 <= i < k ==> matchas_view(ms@)[i] == clamp_all(mv0, cap as int)[i],
            forall|i: int| k <= i < ms@.len() ==> ms@[i] == ms0[i],
        decreases ms@.len() - k,
    {
        proof {
            assert(mv0.take(k as int + 1).drop_last() =~= mv0.take(k as int));
            assert(mv0.take(k as int + 1).last() == mv0[k as int]);
            assert(amounts_nonneg(mv0.take(k as int + 1)));
            lemma_clamp_props(mv0.take(k as int + 1), cap as int);
            lemma_sum_entry_take_le(mv0, k as int + 1);
            assert(mv0[k as int].1 == ms@[k as int].matcha as int);
        }
        let v = ms[k].matcha;
        if v > cap {
            overflow_total = overflow_total + (v - cap);
            ms[k].matcha = cap;
        } else if v < cap {
            eligible = eligible + 1;
        }
        proof {
            assert(matchas_view(ms@)[k as int] == clamp_all(mv0, cap as int)[k as int]);
        }
        k = k + 1;
    }
    proof {
        assert(mv0.take(ms0.len() as int) =~= mv0);
        assert(matchas_view(ms@) =~= clamp_all(mv0, cap as int));
    }
    let redistribute = match strategy {
        MatchingCapStrategy::Redistribute => true,
        MatchingCapStrategy::Cap => false,
    };
    if redistribute && overflow_total > 0 && eligible > 0 {
        let share = overflow_total / (eligible as u64);
        let ghost cl = clamp_all(mv0, cap as int);
        let ghost ms1 = ms@;
        let ghost target = add_share(cl, cap as int, share as int);
        proof {
            assert(share as int == overflow_of(mv0, cap as int) / eligible_count(
                mv0,
                cap as int,
            ));
        }
        let mut k2: usize = 0;
        while k2 < ms.len()
            invariant
                0 <= k2 <= ms@.len(),
                ms@.len() == ms1.len(),
                cl == matchas_view(ms1),
                target == add_share(cl, cap as int, share as int),
                forall|i: int| 0 <= i < k2 ==> matchas_view(ms@)[i] == target[i],
                forall|i: int| k2 <= i < ms@.len() ==> ms@[i] == ms1[i],
            decreases ms@.len() - k2,
        {
            let v = ms[k2].matcha;
            proof {
                assert(cl[k2 as int].1 == v as int);
            }
            if v < cap {
                let grown: u128 = v as u128 + share as u128;
                if grown > cap as u128 {
                    ms[k2].matcha = cap;
                } else {
                    ms[k2].matcha = grown as u64;
                }
            }
            proof {
                assert(matchas_view(ms@)[k2 as int] == target[k2 as int]);
            }
            k2 = k2 + 1;
        }
        proof {
            assert(matchas_view(ms@) =~= target);
        }
    }
}

/// Compute the quadratic-funding matches of one round.
///
/// Amounts are in integer base units; the amounts of all contributions
/// together must fit in 32 bits, so that every intermediate product fits the
/// machine's arithmetic. The result holds one match per distinct recipient,
/// in order of first appearance. The call is rejected, with no partial
/// result, exactly when `upscale` is set while the pool or the raw match
/// total is zero, since no upscaling factor exists then.
pub fn calculate_linear_qf(
    contributions: Vec<Contribution>,
    matching_pot: u64,
    options: LinearQfOptions,
) -> (r: Result<Vec<Matcha>, QfError>)
    requires
        sum_amounts(contributions@) <= 0xFFFF_FFFF,
    ensures
        r is Ok <==> !qf_rejects(contributions@, matching_pot as int, options),
        r is Ok ==> matchas_view(r->Ok_0@) == qf_spec(contributions@, matching_pot as int, options),
        options.upscale && matching_pot == 0 ==> r == Result::<Vec<Matcha>, QfError>::Err(
            QfError::UpscaleWithZeroPot,
        ),
        options.upscale && matching_pot > 0 && spec_total_match(contributions@) == 0 ==> r
            == Result::<Vec<Matcha>, QfError>::Err(QfError::UpscaleWithZeroTotal),
{
    if options.upscale && matching_pot == 0 {
        return Result::Err(QfError::UpscaleWithZeroPot);
    }
    let table = aggregate(&contributions);
    proof {
        lemma_aggregate_wf(contributions@);
        lemma_aggregate_sum(contributions@);
    }
    let (mut distributions, total_match) = compute_scores(&table);
    let ghost raw = raw_scores(aggregate_spec(contributions@));
    proof {
        lemma_raw_scores_nonneg(aggregate_spec(contributions@));
        assert(matchas_view(distributions@) == raw);
        assert forall|i: int| 0 <= i < raw.len() implies raw[i].1 <= total_match as int by {
            lemma_entry_amount_le_sum(raw, i);
        }
    }
    if options.upscale && total_match == 0 {
        return Result::Err(QfError::UpscaleWithZeroTotal);
    }
    if total_match > matching_pot {
        scale_matchas(&mut distributions, matching_pot, total_match);
        proof {
            lemma_scale_all_sums(raw, matching_pot as int, total_match as int);
            lemma_scale_all_conserves(raw, matching_pot as int, total_match as int);
        }
    } else if options.upscale && total_match < matching_pot {
        scale_matchas(&mut distributions, matching_pot, total_match);
        proof {
            lemma_scale_all_sums(raw, matching_pot as int, total_match as int);
            lemma_scale_all_conserves(raw, matching_pot as int, total_match as int);
        }
    }
    let ghost scaled = scaled_matches(contributions@, matching_pot as int, options.upscale);
    proof {
        assert(matchas_view(distributions@) == scaled);
        assert(amounts_nonneg(scaled) && sum_entry(scaled) <= u64::MAX as int) by {
            if total_match > matching_pot || (options.upscale && total_match < matching_pot) {
                lemma_scale_all_sums(raw, matching_pot as int, total_match as int);
                lemma_scale_all_conserves(raw, matching_pot as int, total_match as int);
            }
        }
    }
    match options.matching_cap_amount {
        Option::Some(cap) => {
            apply_cap(&mut distributions, cap, options.matching_cap_strategy);
        },
        Option::None => {},
    }
    Result::Ok(distributions)
}

} // verus!
