//! The laws of the allocator, each a proof over the specification that
//! `calculate_linear_qf` is verified against.

use vstd::prelude::*;
use crate::aggregate::aggregate_spec;
use crate::aggregate::amounts_nonneg;
use crate::aggregate::find_key;
use crate::aggregate::lemma_aggregate_wf;
use crate::aggregate::lemma_entry_amount_le_sum;
use crate::aggregate::lemma_find_key;
use crate::aggregate::lemma_find_key_at;
use crate::aggregate::lemma_sum_entry_nonneg;
use crate::aggregate::sum_entry;
use crate::aggregate::table_wf;
use crate::allocate::cap_stage;
use crate::allocate::lemma_cap_stage_props;
use crate::allocate::lemma_raw_scores_nonneg;
use crate::allocate::lemma_scale_all_conserves;
use crate::allocate::lemma_scale_all_sums;
use crate::allocate::qf_rejects;
use crate::allocate::qf_spec;
use crate::allocate::scale_all;
use crate::allocate::scaled_matches;
use crate::allocate::spec_total_match;
use crate::score::lemma_pair_score_single;
use crate::score::pair_score;
use crate::score::raw_scores;
use crate::types::Contribution;
use crate::types::LinearQfOptions;
use vstd::arithmetic::div_mod::lemma_div_of0;

verus! {

/// The recipient of every contribution, in input order.
pub open spec fn recipients_of(cs: Seq<Contribution>) -> Seq<Seq<char>> {
    cs.map_values(|c: Contribution| c.recipient@)
}

/// The recipient keys of an aggregation table, in table order.
pub open spec fn table_keys(t: Seq<(Seq<char>, Seq<(Seq<char>, int)>)>) -> Seq<Seq<char>> {
    t.map_values(|e: (Seq<char>, Seq<(Seq<char>, int)>)| e.0)
}

/// The recipient of every payout, in output order.
pub open spec fn output_recipients(ms: Seq<(Seq<char>, int)>) -> Seq<Seq<char>> {
    ms.map_values(|m: (Seq<char>, int)| m.0)
}

/// Aggregation neither adds nor drops a recipient: the keys of the table are
/// exactly the recipients of the input.
pub proof fn lemma_aggregate_keys(cs: Seq<Contribution>)
    ensures
        table_keys(aggregate_spec(cs)).to_set() == recipients_of(cs).to_set(),
    decreases cs.len(),
{
    let t = aggregate_spec(cs);
    if cs.len() == 0 {
        assert(table_keys(t) =~= Seq::<Seq<char>>::empty());
        assert(recipients_of(cs) =~= Seq::<Seq<char>>::empty());
        assert(table_keys(t).to_set() =~= recipients_of(cs).to_set());
    } else {
        let cs0 = cs.drop_last();
        let c = cs.last();
        lemma_aggregate_keys(cs0);
        let t0 = aggregate_spec(cs0);
        let i = find_key(t0, c.recipient@);
        lemma_find_key(t0, c.recipient@);
        let knew = table_keys(t);
        let kold = table_keys(t0);
        let rnew = recipients_of(cs);
        let rold = recipients_of(cs0);
        assert(rnew.drop_last() =~= rold);
        assert(rnew.last() == c.recipient@);
        if i < 0 {
            assert(knew =~= kold.push(c.recipient@));
        } else {
            assert(knew =~= kold);
            assert(kold[i] == c.recipient@);
        }
        assert forall|x: Seq<char>| #[trigger] knew.to_set().contains(x) implies rnew.to_set().contains(
            x,
        ) by {
            assert(knew.contains(x));
            let j = choose|j: int| 0 <= j < knew.len() && knew[j] == x;
            if i < 0 && j == knew.len() - 1 {
                assert(rnew[rnew.len() - 1] == x);
                assert(rnew.contains(x));
            } else {
                assert(kold[j] == x);
                assert(kold.contains(x));
                assert(kold.to_set().contains(x));
                assert(rold.to_set().contains(x));
                assert(rold.contains(x));
                let l = choose|l: int| 0 <= l < rold.len() && rold[l] == x;
                assert(rnew[l] == x);
                assert(rnew.contains(x));
            }
        }
        assert forall|x: Seq<char>| #[trigger] rnew.to_set().contains(x) implies knew.to_set().contains(
            x,
        ) by {
            assert(rnew.contains(x));
            let j = choose|j: int| 0 <= j < rnew.len() && rnew[j] == x;
            if j == rnew.len() - 1 {
                if i < 0 {
                    assert(knew[knew.len() - 1] == x);
                } else {
                    assert(knew[i] == x);
                }
                assert(knew.contains(x));
            } else {
                assert(rold[j] == x);
                assert(rold.contains(x));
                assert(rold.to_set().contains(x));
                assert(kold.to_set().contains(x));
                assert(kold.contains(x));
                let l = choose|l: int| 0 <= l < kold.len() && kold[l] == x;
                assert(knew[l] == x);
                assert(knew.contains(x));
            }
        }
        assert(knew.to_set() =~= rnew.to_set());
    }
}

/// `find_key` looks only at the keys: two tables with the same keys agree.
pub proof fn lemma_find_key_same_keys<T, U>(
    s: Seq<(Seq<char>, T)>,
    s2: Seq<(Seq<char>, U)>,
    key: Seq<char>,
)
    requires
        s.len() == s2.len(),
        forall|j: int| 0 <= j < s.len() ==> s[j].0 == s2[j].0,
    ensures
        find_key(s, key) == find_key(s2, key),
    decreases s.len(),
{
    if s.len() == 0 {
    } else {
        assert(s2[0].0 == s[0].0);
        assert forall|j: int| 0 <= j < s.drop_first().len() implies s.drop_first()[j].0
            == s2.drop_first()[j].0 by {
            assert(s.drop_first()[j] == s[j + 1]);
            assert(s2.drop_first()[j] == s2[j + 1]);
        }
        lemma_find_key_same_keys(s.drop_first(), s2.drop_first(), key);
    }
}

/// A recipient all of whose contributions come from the one sender `s0` has,
/// if it appears in the table at all, exactly one sender entry, for `s0`.
pub proof fn lemma_single_sender_entry(cs: Seq<Contribution>, r: Seq<char>, s0: Seq<char>)
    requires
        forall|k: int| 0 <= k < cs.len() && (#[trigger] cs[k]).recipient@ == r ==> cs[k].sender@
            == s0,
    ensures
        find_key(aggregate_spec(cs), r) >= 0 ==> aggregate_spec(cs)[find_key(
            aggregate_spec(cs),
            r,
        )].1.len() == 1 && aggregate_spec(cs)[find_key(aggregate_spec(cs), r)].1[0].0 == s0,
    decreases cs.len(),
{
    let t = aggregate_spec(cs);
    if cs.len() == 0 {
    } else {
        let cs0 = cs.drop_last();
        let c = cs.last();
        assert forall|k: int|
            0 <= k < cs0.len() && (#[trigger] cs0[k]).recipient@ == r implies cs0[k].sender@
            == s0 by {
            assert(cs0[k] == cs[k]);
        }
        lemma_single_sender_entry(cs0, r, s0);
        let t0 = aggregate_spec(cs0);
        let i0 = find_key(t0, c.recipient@);
        lemma_find_key(t0, c.recipient@);
        lemma_find_key(t, r);
        let i = find_key(t, r);
        if c.recipient@ == r {
            assert(cs[cs.len() - 1] == c);
            assert(c.sender@ == s0);
            if i0 < 0 {
                assert forall|j: int| 0 <= j < t0.len() implies t[j].0 != r by {
                    assert(t[j] == t0[j]);
                }
                lemma_find_key_at(t, r, t0.len() as int);
                assert(t[t0.len() as int].1 == seq![(c.sender@, c.amount as int)]);
            } else {
                assert forall|j: int| 0 <= j < t.len() implies t[j].0 == t0[j].0 by {
                    if j != i0 {
                        assert(t[j] == t0[j]);
                    }
                }
                lemma_find_key_same_keys(t, t0, r);
                assert(i == find_key(t0, r));
                assert(find_key(t0, r) == i0) by {
                    assert(t0[i0].0 == r);
                }
                let e0 = t0[i0].1;
                assert(e0.len() == 1 && e0[0].0 == s0);
                lemma_find_key_at(e0, s0, 0);
                assert(t[i0].1 == e0.update(0, (s0, e0[0].1 + c.amount)));
                assert(t[i0].1.len() == 1 && t[i0].1[0].0 == s0);
            }
        } else {
            if i0 < 0 {
                if i >= 0 {
                    assert(t[i].0 == r);
                    assert(i < t0.len()) by {
                        assert(t[t0.len() as int].0 == c.recipient@);
                    }
                    assert(t[i] == t0[i]);
                    assert forall|j: int| 0 <= j < i implies t0[j].0 != r by {
                        assert(t0[j] == t[j]);
                    }
                    lemma_find_key_at(t0, r, i);
                }
            } else {
                assert forall|j: int| 0 <= j < t.len() implies t[j].0 == t0[j].0 by {
                    if j != i0 {
                        assert(t[j] == t0[j]);
                    }
                }
                lemma_find_key_same_keys(t, t0, r);
                if i >= 0 {
                    assert(t[i].0 == r);
                    assert(t0[i0].0 == c.recipient@);
                    assert(i != i0);
                    assert(t[i] == t0[i]);
                }
            }
        }
    }
}

/// Shape of the scaled matches: one per table entry, under the table's keys,
/// all non-negative; and their sum is the pool at most, or the raw total
/// untouched.
pub proof fn lemma_scaled_matches_props(cs: Seq<Contribution>, pot: int, upscale: bool)
    requires
        pot >= 0,
        upscale && pot > 0 ==> spec_total_match(cs) != 0,
    ensures
        scaled_matches(cs, pot, upscale).len() == aggregate_spec(cs).len(),
        amounts_nonneg(scaled_matches(cs, pot, upscale)),
        forall|i: int| 0 <= i < scaled_matches(cs, pot, upscale).len() ==> (#[trigger] scaled_matches(
            cs,
            pot,
            upscale,
        )[i]).0 == aggregate_spec(cs)[i].0,
        sum_entry(scaled_matches(cs, pot, upscale)) <= pot || sum_entry(
            scaled_matches(cs, pot, upscale),
        ) == spec_total_match(cs),
{
    let t = aggregate_spec(cs);
    let raw = raw_scores(t);
    let total = spec_total_match(cs);
    lemma_aggregate_wf(cs);
    lemma_raw_scores_nonneg(t);
    lemma_sum_entry_nonneg(raw);
    assert forall|i: int| 0 <= i < raw.len() implies raw[i].1 <= total by {
        lemma_entry_amount_le_sum(raw, i);
    }
    if total > pot {
        lemma_scale_all_sums(raw, pot, total);
        lemma_scale_all_conserves(raw, pot, total);
    } else if upscale && total < pot {
        lemma_scale_all_sums(raw, pot, total);
        lemma_scale_all_conserves(raw, pot, total);
    }
}

/// Conservation under saturation: when the raw match total exceeds the pool
/// and no cap is set, the outputs sum to the pool, short of it by less than
/// one base unit per recipient.
pub proof fn lemma_conservation_under_saturation(
    cs: Seq<Contribution>,
    pot: int,
    options: LinearQfOptions,
)
    requires
        options.matching_cap_amount is None,
        pot >= 0,
        spec_total_match(cs) > pot,
    ensures
        pot - qf_spec(cs, pot, options).len() < sum_entry(qf_spec(cs, pot, options)) <= pot,
{
    let t = aggregate_spec(cs);
    let raw = raw_scores(t);
    let total = spec_total_match(cs);
    lemma_aggregate_wf(cs);
    lemma_raw_scores_nonneg(t);
    assert forall|i: int| 0 <= i < raw.len() implies raw[i].1 <= total by {
        lemma_entry_amount_le_sum(raw, i);
    }
    lemma_scale_all_conserves(raw, pot, total);
    assert(qf_spec(cs, pot, options) == scale_all(raw, pot, total));
}

/// Conservation under upscaling: when upscaling is on, the raw match total is
/// positive and below the pool, and no cap is set, the outputs sum to the
/// pool, short of it by less than one base unit per recipient.
pub proof fn lemma_conservation_under_upscaling(
    cs: Seq<Contribution>,
    pot: int,
    options: LinearQfOptions,
)
    requires
        options.matching_cap_amount is None,
        options.upscale,
        0 < spec_total_match(cs) < pot,
    ensures
        pot - qf_spec(cs, pot, options).len() < sum_entry(qf_spec(cs, pot, options)) <= pot,
{
    let t = aggregate_spec(cs);
    let raw = raw_scores(t);
    let total = spec_total_match(cs);
    lemma_aggregate_wf(cs);
    lemma_raw_scores_nonneg(t);
    assert forall|i: int| 0 <= i < raw.len() implies raw[i].1 <= total by {
        lemma_entry_amount_le_sum(raw, i);
    }
    lemma_scale_all_conserves(raw, pot, total);
    assert(qf_spec(cs, pot, options) == scale_all(raw, pot, total));
}

/// The recipient set is preserved: the outputs carry exactly the distinct
/// recipients of the input, each once.
pub proof fn lemma_recipient_set_preserved(
    cs: Seq<Contribution>,
    pot: int,
    options: LinearQfOptions,
)
    requires
        pot >= 0,
        !qf_rejects(cs, pot, options),
    ensures
        output_recipients(qf_spec(cs, pot, options)).to_set() == recipients_of(cs).to_set(),
        forall|i: int, j: int|
            0 <= i < j < qf_spec(cs, pot, options).len() ==> qf_spec(cs, pot, options)[i].0
                != qf_spec(cs, pot, options)[j].0,
{
    let t = aggregate_spec(cs);
    let out = qf_spec(cs, pot, options);
    let scaled = scaled_matches(cs, pot, options.upscale);
    lemma_aggregate_keys(cs);
    lemma_aggregate_wf(cs);
    lemma_scaled_matches_props(cs, pot, options.upscale);
    match options.matching_cap_amount {
        Option::Some(cap) => {
            lemma_cap_stage_props(scaled, cap as int, options.matching_cap_strategy);
        },
        Option::None => {},
    }
    assert(output_recipients(out) =~= table_keys(t));
}

/// The cap invariant: with any cap set, every output lies in `[0, cap]`,
/// under either strategy.
pub proof fn lemma_cap_invariant(cs: Seq<Contribution>, pot: int, options: LinearQfOptions)
    requires
        options.matching_cap_amount is Some,
        pot >= 0,
        !qf_rejects(cs, pot, options),
    ensures
        forall|j: int|
            0 <= j < qf_spec(cs, pot, options).len() ==> 0 <= (#[trigger] qf_spec(
                cs,
                pot,
                options,
            )[j]).1 <= options.matching_cap_amount->0 as int,
{
    let scaled = scaled_matches(cs, pot, options.upscale);
    let cap = options.matching_cap_amount->0;
    lemma_scaled_matches_props(cs, pot, options.upscale);
    lemma_cap_stage_props(scaled, cap as int, options.matching_cap_strategy);
    assert(qf_spec(cs, pot, options) == cap_stage(
        scaled,
        Option::Some(cap as int),
        options.matching_cap_strategy,
    ));
}

/// Redistribution conservation: with the `Redistribute` strategy the total
/// distributed never grows beyond the pre-cap total, nor beyond the cap per
/// recipient.
pub proof fn lemma_redistribution_conservation(
    cs: Seq<Contribution>,
    pot: int,
    options: LinearQfOptions,
)
    requires
        options.matching_cap_amount is Some,
        options.matching_cap_strategy is Redistribute,
        pot >= 0,
        !qf_rejects(cs, pot, options),
    ensures
        sum_entry(qf_spec(cs, pot, options)) <= sum_entry(scaled_matches(cs, pot, options.upscale)),
        sum_entry(qf_spec(cs, pot, options)) <= (options.matching_cap_amount->0 as int) * qf_spec(
            cs,
            pot,
            options,
        ).len(),
{
    let scaled = scaled_matches(cs, pot, options.upscale);
    let cap = options.matching_cap_amount->0;
    lemma_scaled_matches_props(cs, pot, options.upscale);
    lemma_cap_stage_props(scaled, cap as int, options.matching_cap_strategy);
    assert(qf_spec(cs, pot, options) == cap_stage(
        scaled,
        Option::Some(cap as int),
        options.matching_cap_strategy,
    ));
}

/// A recipient whose contributions all come from one sender is matched zero:
/// its raw score is exactly zero, and with no cap set its output stays zero
/// through every scaling.
pub proof fn lemma_single_contributor_zero_match(
    cs: Seq<Contribution>,
    pot: int,
    options: LinearQfOptions,
    r: Seq<char>,
    s0: Seq<char>,
)
    requires
        options.matching_cap_amount is None,
        pot >= 0,
        !qf_rejects(cs, pot, options),
        exists|k: int| 0 <= k < cs.len() && (#[trigger] cs[k]).recipient@ == r,
        forall|k: int| 0 <= k < cs.len() && (#[trigger] cs[k]).recipient@ == r ==> cs[k].sender@
            == s0,
    ensures
        find_key(aggregate_spec(cs), r) >= 0,
        pair_score(aggregate_spec(cs)[find_key(aggregate_spec(cs), r)].1) == 0,
        forall|j: int|
            0 <= j < qf_spec(cs, pot, options).len() && (#[trigger] qf_spec(cs, pot, options)[j]).0
                == r ==> qf_spec(cs, pot, options)[j].1 == 0,
{
    let t = aggregate_spec(cs);
    let raw = raw_scores(t);
    let total = spec_total_match(cs);
    let out = qf_spec(cs, pot, options);
    lemma_aggregate_wf(cs);
    lemma_aggregate_keys(cs);
    lemma_find_key(t, r);
    let k0 = choose|k: int| 0 <= k < cs.len() && (#[trigger] cs[k]).recipient@ == r;
    assert(recipients_of(cs)[k0] == r);
    assert(recipients_of(cs).contains(r));
    assert(recipients_of(cs).to_set().contains(r));
    assert(table_keys(t).to_set().contains(r));
    assert(table_keys(t).contains(r));
    let j0 = choose|j: int| 0 <= j < table_keys(t).len() && table_keys(t)[j] == r;
    assert(t[j0].0 == r);
    let i = find_key(t, r);
    assert(i >= 0);
    lemma_single_sender_entry(cs, r, s0);
    lemma_pair_score_single(t[i].1);
    assert(raw[i].1 == 0);
    assert(out == scaled_matches(cs, pot, options.upscale));
    assert forall|j: int|
        0 <= j < out.len() && (#[trigger] out[j]).0 == r implies out[j].1 == 0 by {
        assert(out[j].0 == t[j].0) by {
            lemma_scaled_matches_props(cs, pot, options.upscale);
        }
        assert(j == i) by {
            if j != i {
                assert(t[i].0 == t[j].0);
            }
        }
        if total > pot || (options.upscale && total < pot) {
            assert(total > 0) by {
                lemma_raw_scores_nonneg(t);
                lemma_sum_entry_nonneg(raw);
            }
            assert(out[j].1 == raw[i].1 * pot / total);
            lemma_div_of0(total);
            assert(0 * pot == 0) by (nonlinear_arith);
        } else {
            assert(out[j].1 == raw[i].1);
        }
    }
}

} // verus!
