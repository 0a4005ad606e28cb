//! Quadratic scoring stage. A recipient with aggregated sender amounts
//! `a_1 .. a_n` earns the subsidy `(sum of sqrt(a_i))^2 - sum of a_i`, which
//! equals the sum of the cross terms `2 * sqrt(a_i * a_j)` over pairs
//! `i < j`. The score is computed in that cross-term form with the integer
//! square root, so a recipient with a single sender earns exactly zero.

use vstd::prelude::*;
use crate::aggregate::RecipientTotals;
use crate::aggregate::SenderTotal;
use crate::aggregate::amounts_nonneg;
use crate::aggregate::entry_wf;
use crate::aggregate::lemma_entry_amount_le_sum;
use crate::aggregate::lemma_entry_sum_le_table;
use crate::aggregate::lemma_sum_entry_nonneg;
use crate::aggregate::lemma_sum_table_nonneg;
use crate::aggregate::senders_view;
use crate::aggregate::sum_entry;
use crate::aggregate::sum_table;
use crate::aggregate::table_view;
use crate::aggregate::table_wf;
use crate::isqrt::isqrt_u128;
use crate::isqrt::lemma_sqrt_floor;
use crate::isqrt::lemma_sqrt_floor_le;
use crate::isqrt::sqrt_floor;
use crate::types::Matcha;

verus! {

/// Sum over `ss` of the cross terms `2 * sqrt_floor(amount * x)`.
pub open spec fn cross_terms(ss: Seq<(Seq<char>, int)>, x: int) -> int
    decreases ss.len(),
{
    if ss.len() == 0 {
        0
    } else {
        cross_terms(ss.drop_last(), x) + 2 * sqrt_floor(ss.last().1 * x)
    }
}

/// The quadratic-funding score of one recipient's sender totals: the sum of
/// `2 * sqrt_floor(a_i * a_j)` over all pairs `i < j`.
pub open spec fn pair_score(ss: Seq<(Seq<char>, int)>) -> int
    decreases ss.len(),
{
    if ss.len() == 0 {
        0
    } else {
        pair_score(ss.drop_last()) + cross_terms(ss.drop_last(), ss.last().1)
    }
}

/// One recipient's raw score per table entry, under the recipient's name.
pub open spec fn raw_scores(t: Seq<(Seq<char>, Seq<(Seq<char>, int)>)>) -> Seq<(Seq<char>, int)> {
    t.map_values(|e: (Seq<char>, Seq<(Seq<char>, int)>)| (e.0, pair_score(e.1)))
}

/// Mathematical model of a payout list.
pub open spec fn matchas_view(ms: Seq<Matcha>) -> Seq<(Seq<char>, int)> {
    ms.map_values(|m: Matcha| (m.recipient@, m.matcha as int))
}

/// A recipient with exactly one sender scores exactly zero.
pub proof fn lemma_pair_score_single(ss: Seq<(Seq<char>, int)>)
    requires
        ss.len() == 1,
    ensures
        pair_score(ss) == 0,
{
    assert(pair_score(ss.drop_last()) == 0);
    assert(cross_terms(ss.drop_last(), ss.last().1) == 0);
}

/// The cross terms of `x >= 0` against non-negative amounts lie between 0 and
/// `2 * sum * x`.
pub proof fn lemma_cross_terms_bound(ss: Seq<(Seq<char>, int)>, x: int)
    requires
        amounts_nonneg(ss),
        x >= 0,
    ensures
        0 <= cross_terms(ss, x) <= 2 * sum_entry(ss) * x,
    decreases ss.len(),
{
    if ss.len() == 0 {
    } else {
        assert(amounts_nonneg(ss.drop_last()));
        lemma_cross_terms_bound(ss.drop_last(), x);
        let a = ss.last().1;
        assert(a * x >= 0) by (nonlinear_arith)
            requires
                a >= 0,
                x >= 0,
        ;
        lemma_sqrt_floor_le(a * x);
        let s = sum_entry(ss.drop_last());
        assert(2 * s * x + 2 * (a * x) == 2 * (s + a) * x) by (nonlinear_arith);
    }
}

/// The score of non-negative amounts lies between 0 and the square of their
/// sum.
pub proof fn lemma_pair_score_bound(ss: Seq<(Seq<char>, int)>)
    requires
        amounts_nonneg(ss),
    ensures
        0 <= pair_score(ss) <= sum_entry(ss) * sum_entry(ss),
    decreases ss.len(),
{
    if ss.len() == 0 {
    } else {
        assert(amounts_nonneg(ss.drop_last()));
        lemma_pair_score_bound(ss.drop_last());
        let a = ss.last().1;
        lemma_cross_terms_bound(ss.drop_last(), a);
        lemma_sum_entry_nonneg(ss.drop_last());
        let s = sum_entry(ss.drop_last());
        assert(s * s + 2 * s * a <= (s + a) * (s + a)) by (nonlinear_arith)
            requires
                a >= 0,
        ;
    }
}

/// The total of the raw scores of a well-formed table lies between 0 and the
/// square of the table's sum.
pub proof fn lemma_total_raw_bound(t: Seq<(Seq<char>, Seq<(Seq<char>, int)>)>)
    requires
        table_wf(t),
    ensures
        0 <= sum_entry(raw_scores(t)) <= sum_table(t) * sum_table(t),
    decreases t.len(),
{
    lemma_sum_table_nonneg(t);
    if t.len() == 0 {
    } else {
        assert(table_wf(t.drop_last()));
        lemma_total_raw_bound(t.drop_last());
        assert(raw_scores(t).drop_last() =~= raw_scores(t.drop_last()));
        assert(raw_scores(t).last() == (t.last().0, pair_score(t.last().1)));
        assert(entry_wf(t.last().1));
        lemma_pair_score_bound(t.last().1);
        lemma_sum_entry_nonneg(t.last().1);
        lemma_sum_table_nonneg(t.drop_last());
        let a = sum_table(t.drop_last());
        let b = sum_entry(t.last().1);
        assert(a * a + b * b <= (a + b) * (a + b)) by (nonlinear_arith)
            requires
                a >= 0,
                b >= 0,
        ;
    }
}

/// Prefix sums of non-negative amounts never exceed the full sum.
pub proof fn lemma_sum_entry_take_le(ss: Seq<(Seq<char>, int)>, k: int)
    requires
        amounts_nonneg(ss),
        0 <= k <= ss.len(),
    ensures
        0 <= sum_entry(ss.take(k)) <= sum_entry(ss),
    decreases ss.len() - k,
{
    if k == ss.len() {
        assert(ss.take(k) =~= ss);
        lemma_sum_entry_nonneg(ss);
    } else {
        assert(ss.take(k + 1).drop_last() =~= ss.take(k));
        assert(ss.take(k + 1).last() == ss[k]);
        lemma_sum_entry_take_le(ss, k + 1);
        assert(amounts_nonneg(ss.take(k)));
        lemma_sum_entry_nonneg(ss.take(k));
    }
}

/// The cross terms over a prefix never exceed the cross terms over the whole.
pub proof fn lemma_cross_terms_take_le(ss: Seq<(Seq<char>, int)>, x: int, k: int)
    requires
        amounts_nonneg(ss),
        x >= 0,
        0 <= k <= ss.len(),
    ensures
        cross_terms(ss.take(k), x) <= cross_terms(ss, x),
    decreases ss.len() - k,
{
    if k == ss.len() {
        assert(ss.take(k) =~= ss);
    } else {
        assert(ss.take(k + 1).drop_last() =~= ss.take(k));
        assert(ss.take(k + 1).last() == ss[k]);
        let a = ss[k].1;
        assert(a * x >= 0) by (nonlinear_arith)
            requires
                a >= 0,
                x >= 0,
        ;
        lemma_sqrt_floor_le(a * x);
        lemma_cross_terms_take_le(ss, x, k + 1);
    }
}

/// The quadratic-funding score of one recipient's sender totals.
pub fn score_recipient(ss: &Vec<SenderTotal>) -> (m: u64)
    requires
        amounts_nonneg(senders_view(ss@)),
        sum_entry(senders_view(ss@)) <= 0xFFFF_FFFF,
    ensures
        m as int == pair_score(senders_view(ss@)),
{
    let ghost sv = senders_view(ss@);
    let ghost total = sum_entry(sv);
    proof {
        lemma_sum_entry_nonneg(sv);
        assert(sv.take(0) =~= Seq::<(Seq<char>, int)>::empty());
        assert(total * total <= 0xFFFF_FFFF * 0xFFFF_FFFF) by (nonlinear_arith)
            requires
                0 <= total <= 0xFFFF_FFFF,
        ;
    }
    let mut acc: u64 = 0;
    let mut j: usize = 0;
    while j < ss.len()
        invariant
            0 <= j <= ss@.len(),
            sv == senders_view(ss@),
            amounts_nonneg(sv),
            0 <= total <= 0xFFFF_FFFF,
            total * total <= 0xFFFF_FFFF * 0xFFFF_FFFF,
            total == sum_entry(sv),
            acc as int == pair_score(sv.take(j as int)),
        decreases ss@.len() - j,
    {
        let aj = ss[j].amount;
        proof {
            assert(sv.take(0) =~= Seq::<(Seq<char>, int)>::empty());
            assert(sv.take(j as int + 1).drop_last() =~= sv.take(j as int));
            assert(sv.take(j as int + 1).last() == sv[j as int]);
            assert(amounts_nonneg(sv.take(j as int + 1)));
            lemma_pair_score_bound(sv.take(j as int + 1));
            lemma_sum_entry_take_le(sv, j as int + 1);
            let s1 = sum_entry(sv.take(j as int + 1));
            assert(s1 * s1 <= total * total) by (nonlinear_arith)
                requires
                    0 <= s1 <= total,
            ;
        }
        let mut i: usize = 0;
        while i < j
            invariant
                0 <= i <= j < ss@.len(),
                sv == senders_view(ss@),
                amounts_nonneg(sv),
                0 <= total <= 0xFFFF_FFFF,
                total * total <= 0xFFFF_FFFF * 0xFFFF_FFFF,
                total == sum_entry(sv),
                aj == ss@[j as int].amount,
                pair_score(sv.take(j as int)) + cross_terms(sv.take(j as int), aj as int)
                    == pair_score(sv.take(j as int + 1)),
                pair_score(sv.take(j as int + 1)) <= total * total,
                acc as int == pair_score(sv.take(j as int)) + cross_terms(
                    sv.take(i as int),
                    aj as int,
                ),
            decreases j - i,
        {
            let ai = ss[i].amount;
            proof {
                lemma_entry_amount_le_sum(sv, i as int);
                lemma_entry_amount_le_sum(sv, j as int);
                assert((ai as int) * (aj as int) <= total * total) by (nonlinear_arith)
                    requires
                        0 <= ai as int <= total,
                        0 <= aj as int <= total,
                ;
            }
            let prod: u128 = (ai as u128) * (aj as u128);
            let q = isqrt_u128(prod);
            proof {
                lemma_sqrt_floor(prod as int);
                let qq = q as int;
                assert(qq <= 0xFFFF_FFFF) by (nonlinear_arith)
                    requires
                        qq >= 0,
                        qq * qq <= 0xFFFF_FFFF * 0xFFFF_FFFF,
                ;
                assert(sv.take(i as int + 1).drop_last() =~= sv.take(i as int));
                assert(sv.take(i as int + 1).last() == sv[i as int]);
                assert(sv[i as int].1 == ai as int);
                assert(cross_terms(sv.take(i as int + 1), aj as int) == cross_terms(
                    sv.take(i as int),
                    aj as int,
                ) + 2 * qq);
                assert(amounts_nonneg(sv.take(j as int)));
                lemma_cross_terms_take_le(sv.take(j as int), aj as int, i as int + 1);
                assert(sv.take(j as int).take(i as int + 1) =~= sv.take(i as int + 1));
                assert(amounts_nonneg(sv.take(i as int + 1)));
                lemma_cross_terms_bound(sv.take(i as int + 1), aj as int);
                lemma_pair_score_bound(sv.take(j as int));
                assert(acc as int + 2 * qq == pair_score(sv.take(j as int)) + cross_terms(
                    sv.take(i as int + 1),
                    aj as int,
                ));
                assert(acc as int + 2 * qq <= pair_score(sv.take(j as int + 1)));
            }
            acc = acc + 2 * q;
            i = i + 1;
        }
        proof {
            assert(sv.take(j as int).take(j as int) =~= sv.take(j as int));
        }
        j = j + 1;
    }
    proof {
        assert(sv.take(ss@.len() as int) =~= sv);
    }
    acc
}

/// One `Matcha` per table entry, carrying the recipient's raw quadratic
/// score, together with the total of all scores.
pub fn compute_scores(t: &Vec<RecipientTotals>) -> (r: (Vec<Matcha>, u64))
    requires
        table_wf(table_view(t@)),
        sum_table(table_view(t@)) <= 0xFFFF_FFFF,
    ensures
        matchas_view(r.0@) == raw_scores(table_view(t@)),
        r.1 as int == sum_entry(raw_scores(table_view(t@))),
{
    let ghost tv = table_view(t@);
    let ghost big = sum_table(tv);
    proof {
        lemma_sum_table_nonneg(tv);
        assert(tv.take(0) =~= Seq::<(Seq<char>, Seq<(Seq<char>, int)>)>::empty());
        assert(raw_scores(tv.take(0)) =~= Seq::<(Seq<char>, int)>::empty());
    }
    let mut out: Vec<Matcha> = Vec::new();
    let mut total: u64 = 0;
    let mut k: usize = 0;
    while k < t.len()
        invariant
            0 <= k <= t@.len(),
            tv == table_view(t@),
            table_wf(tv),
            0 <= big <= 0xFFFF_FFFF,
            big == sum_table(tv),
            matchas_view(out@) == raw_scores(tv.take(k as int)),
            total as int == sum_entry(raw_scores(tv.take(k as int))),
        decreases t@.len() - k,
    {
        proof {
            assert(entry_wf(tv[k as int].1));
            lemma_entry_sum_le_table(tv, k as int);
            assert(tv[k as int].1 == senders_view(t@[k as int].senders@));
        }
        let score = score_recipient(&t[k].senders);
        let m = Matcha { recipient: t[k].recipient.clone(), matcha: score };
        proof {
            // the running total stays under the square of the table's sum
            assert(tv.take(k as int + 1).drop_last() =~= tv.take(k as int));
            assert(tv.take(k as int + 1).last() == tv[k as int]);
            assert(raw_scores(tv.take(k as int + 1)).drop_last() =~= raw_scores(tv.take(k as int)));
            assert(raw_scores(tv.take(k as int + 1)).last() == (
                tv[k as int].0,
                pair_score(tv[k as int].1),
            ));
            assert(table_wf(tv.take(k as int + 1)));
            lemma_total_raw_bound(tv.take(k as int + 1));
            lemma_sum_table_take_le(tv, k as int + 1);
            let s1 = sum_table(tv.take(k as int + 1));
            assert(s1 * s1 <= 0xFFFF_FFFF * 0xFFFF_FFFF) by (nonlinear_arith)
                requires
                    0 <= s1 <= 0xFFFF_FFFF,
            ;
        }
        total = total + score;
        let ghost out0 = out@;
        out.push(m);
        proof {
            assert(matchas_view(out@).drop_last() =~= matchas_view(out0));
            assert(matchas_view(out@).last() == (tv[k as int].0, pair_score(tv[k as int].1)));
            let ghost lhs = matchas_view(out@);
            let ghost rhs = raw_scores(tv.take(k as int + 1));
            assert forall|l: int| 0 <= l < lhs.len() implies lhs[l] == rhs[l] by {
                if l < k as int {
                    assert(lhs[l] == lhs.drop_last()[l]);
                    assert(rhs[l] == rhs.drop_last()[l]);
                } else {
                    assert(lhs[l] == lhs.last());
                    assert(rhs[l] == rhs.last());
                }
            }
            assert(lhs =~= rhs);
        }
        k = k + 1;
    }
    proof {
        assert(tv.take(t@.len() as int) =~= tv);
    }
    (out, total)
}

/// Prefix sums of a well-formed table never exceed the full sum.
pub proof fn lemma_sum_table_take_le(t: Seq<(Seq<char>, Seq<(Seq<char>, int)>)>, k: int)
    requires
        table_wf(t),
        0 <= k <= t.len(),
    ensures
        0 <= sum_table(t.take(k)) <= sum_table(t),
    decreases t.len() - k,
{
    if k == t.len() {
        assert(t.take(k) =~= t);
        lemma_sum_table_nonneg(t);
    } else {
        assert(t.take(k + 1).drop_last() =~= t.take(k));
        assert(t.take(k + 1).last() == t[k]);
        assert(entry_wf(t[k].1));
        lemma_sum_entry_nonneg(t[k].1);
        lemma_sum_table_take_le(t, k + 1);
        assert(table_wf(t.take(k)));
        lemma_sum_table_nonneg(t.take(k));
    }
}

} // verus!
