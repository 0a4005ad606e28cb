//! Aggregation stage: pivot the contribution list into one entry per
//! recipient, holding one summed amount per sender. Repeated
//! (recipient, sender) pairs merge by addition; entries keep the order of
//! first appearance, so the whole computation is deterministic.

use vstd::prelude::*;
use crate::types::Contribution;

verus! {

/// The aggregated contributions of one sender to one recipient.
pub struct SenderTotal {
    pub sender: String,
    pub amount: u64,
}

/// All aggregated contributions to one recipient, one entry per sender.
pub struct RecipientTotals {
    pub recipient: String,
    pub senders: Vec<SenderTotal>,
}

/// Mathematical model of one recipient's sender totals.
pub open spec fn senders_view(ss: Seq<SenderTotal>) -> Seq<(Seq<char>, int)> {
    ss.map_values(|s: SenderTotal| (s.sender@, s.amount as int))
}

/// Mathematical model of the whole aggregation table.
pub open spec fn table_view(t: Seq<RecipientTotals>) -> Seq<(Seq<char>, Seq<(Seq<char>, int)>)> {
    t.map_values(|r: RecipientTotals| (r.recipient@, senders_view(r.senders@)))
}

/// Index of the first pair whose key is `key`, or -1 if there is none.
pub open spec fn find_key<T>(s: Seq<(Seq<char>, T)>, key: Seq<char>) -> int
    decreases s.len(),
{
    if s.len() == 0 {
        -1
    } else if s[0].0 == key {
        0
    } else if find_key(s.drop_first(), key) < 0 {
        -1
    } else {
        find_key(s.drop_first(), key) + 1
    }
}

pub proof fn lemma_find_key<T>(s: Seq<(Seq<char>, T)>, key: Seq<char>)
    ensures
        find_key(s, key) >= 0 ==> find_key(s, key) < s.len() && s[find_key(s, key)].0 == key
            && (forall|j: int| 0 <= j < find_key(s, key) ==> s[j].0 != key),
        find_key(s, key) < 0 ==> find_key(s, key) == -1 && (forall|j: int|
            0 <= j < s.len() ==> s[j].0 != key),
    decreases s.len(),
{
    if s.len() == 0 {
    } else if s[0].0 == key {
    } else {
        lemma_find_key(s.drop_first(), key);
        if find_key(s.drop_first(), key) < 0 {
            assert forall|j: int| 0 <= j < s.len() implies s[j].0 != key by {
                if j > 0 {
                    assert(s[j] == s.drop_first()[j - 1]);
                }
            }
        } else {
            assert(s[find_key(s, key)] == s.drop_first()[find_key(s.drop_first(), key)]);
            assert forall|j: int| 0 <= j < find_key(s, key) implies s[j].0 != key by {
                if j > 0 {
                    assert(s[j] == s.drop_first()[j - 1]);
                }
            }
        }
    }
}

/// The first index that carries `key`, with nothing matching before it, is
/// what `find_key` returns.
pub proof fn lemma_find_key_at<T>(s: Seq<(Seq<char>, T)>, key: Seq<char>, i: int)
    requires
        0 <= i < s.len(),
        s[i].0 == key,
        forall|j: int| 0 <= j < i ==> s[j].0 != key,
    ensures
        find_key(s, key) == i,
    decreases s.len(),
{
    if i == 0 {
    } else {
        assert(s[0].0 != key);
        assert(s.drop_first()[i - 1] == s[i]);
        assert forall|j: int| 0 <= j < i - 1 implies s.drop_first()[j].0 != key by {
            assert(s.drop_first()[j] == s[j + 1]);
        }
        lemma_find_key_at(s.drop_first(), key, i - 1);
    }
}

/// When no pair carries `key`, `find_key` returns -1.
pub proof fn lemma_find_key_none<T>(s: Seq<(Seq<char>, T)>, key: Seq<char>)
    requires
        forall|j: int| 0 <= j < s.len() ==> s[j].0 != key,
    ensures
        find_key(s, key) == -1,
    decreases s.len(),
{
    if s.len() == 0 {
    } else {
        assert forall|j: int| 0 <= j < s.drop_first().len() implies s.drop_first()[j].0 != key by {
            assert(s.drop_first()[j] == s[j + 1]);
        }
        lemma_find_key_none(s.drop_first(), key);
    }
}

/// Add `amount` to the entry of `sender`, or append a fresh entry.
pub open spec fn upsert_sender(
    ss: Seq<(Seq<char>, int)>,
    sender: Seq<char>,
    amount: int,
) -> Seq<(Seq<char>, int)> {
    let i = find_key(ss, sender);
    if i < 0 {
        ss.push((sender, amount))
    } else {
        ss.update(i, (sender, ss[i].1 + amount))
    }
}

/// Merge one contribution into the table.
pub open spec fn upsert_contribution(
    t: Seq<(Seq<char>, Seq<(Seq<char>, int)>)>,
    c: Contribution,
) -> Seq<(Seq<char>, Seq<(Seq<char>, int)>)> {
    let i = find_key(t, c.recipient@);
    if i < 0 {
        t.push((c.recipient@, seq![(c.sender@, c.amount as int)]))
    } else {
        t.update(i, (t[i].0, upsert_sender(t[i].1, c.sender@, c.amount as int)))
    }
}

/// The aggregation of a whole contribution list, one merge at a time.
pub open spec fn aggregate_spec(cs: Seq<Contribution>) -> Seq<
    (Seq<char>, Seq<(Seq<char>, int)>),
>
    decreases cs.len(),
{
    if cs.len() == 0 {
        Seq::empty()
    } else {
        upsert_contribution(aggregate_spec(cs.drop_last()), cs.last())
    }
}

/// Sum of the amounts of a contribution list.
pub open spec fn sum_amounts(cs: Seq<Contribution>) -> int
    decreases cs.len(),
{
    if cs.len() == 0 {
        0
    } else {
        sum_amounts(cs.drop_last()) + cs.last().amount
    }
}

/// Sum of one recipient's sender totals.
pub open spec fn sum_entry(ss: Seq<(Seq<char>, int)>) -> int
    decreases ss.len(),
{
    if ss.len() == 0 {
        0
    } else {
        sum_entry(ss.drop_last()) + ss.last().1
    }
}

/// Sum of every amount in the table.
pub open spec fn sum_table(t: Seq<(Seq<char>, Seq<(Seq<char>, int)>)>) -> int
    decreases t.len(),
{
    if t.len() == 0 {
        0
    } else {
        sum_table(t.drop_last()) + sum_entry(t.last().1)
    }
}

/// All amounts of an entry are non-negative.
pub open spec fn amounts_nonneg(ss: Seq<(Seq<char>, int)>) -> bool {
    forall|i: int| 0 <= i < ss.len() ==> ss[i].1 >= 0
}

/// Amounts are non-negative and sender keys are distinct.
pub open spec fn entry_wf(ss: Seq<(Seq<char>, int)>) -> bool {
    &&& amounts_nonneg(ss)
    &&& forall|i: int, j: int| 0 <= i < j < ss.len() ==> ss[i].0 != ss[j].0
}

/// Every entry is well formed and recipient keys are distinct.
pub open spec fn table_wf(t: Seq<(Seq<char>, Seq<(Seq<char>, int)>)>) -> bool {
    &&& forall|i: int| 0 <= i < t.len() ==> entry_wf(#[trigger] t[i].1)
    &&& forall|i: int, j: int| 0 <= i < j < t.len() ==> t[i].0 != t[j].0
}

proof fn lemma_sum_entry_update(ss: Seq<(Seq<char>, int)>, i: int, v: (Seq<char>, int))
    requires
        0 <= i < ss.len(),
    ensures
        sum_entry(ss.update(i, v)) == sum_entry(ss) - ss[i].1 + v.1,
    decreases ss.len(),
{
    let u = ss.update(i, v);
    if i == ss.len() - 1 {
        assert(u.drop_last() =~= ss.drop_last());
    } else {
        assert(u.drop_last() =~= ss.drop_last().update(i, v));
        lemma_sum_entry_update(ss.drop_last(), i, v);
    }
}

proof fn lemma_sum_entry_push(ss: Seq<(Seq<char>, int)>, v: (Seq<char>, int))
    ensures
        sum_entry(ss.push(v)) == sum_entry(ss) + v.1,
{
    assert(ss.push(v).drop_last() =~= ss);
}

proof fn lemma_sum_table_update(
    t: Seq<(Seq<char>, Seq<(Seq<char>, int)>)>,
    i: int,
    v: (Seq<char>, Seq<(Seq<char>, int)>),
)
    requires
        0 <= i < t.len(),
    ensures
        sum_table(t.update(i, v)) == sum_table(t) - sum_entry(t[i].1) + sum_entry(v.1),
    decreases t.len(),
{
    let u = t.update(i, v);
    if i == t.len() - 1 {
        assert(u.drop_last() =~= t.drop_last());
    } else {
        assert(u.drop_last() =~= t.drop_last().update(i, v));
        lemma_sum_table_update(t.drop_last(), i, v);
    }
}

proof fn lemma_sum_table_push(
    t: Seq<(Seq<char>, Seq<(Seq<char>, int)>)>,
    v: (Seq<char>, Seq<(Seq<char>, int)>),
)
    ensures
        sum_table(t.push(v)) == sum_table(t) + sum_entry(v.1),
{
    assert(t.push(v).drop_last() =~= t);
}

/// Merging one contribution adds exactly its amount to the table's sum.
pub proof fn lemma_upsert_contribution_sum(
    t: Seq<(Seq<char>, Seq<(Seq<char>, int)>)>,
    c: Contribution,
)
    ensures
        sum_table(upsert_contribution(t, c)) == sum_table(t) + c.amount,
{
    let i = find_key(t, c.recipient@);
    lemma_find_key(t, c.recipient@);
    if i < 0 {
        let fresh = seq![(c.sender@, c.amount as int)];
        assert(fresh.drop_last() =~= Seq::<(Seq<char>, int)>::empty());
        assert(sum_entry(Seq::<(Seq<char>, int)>::empty()) == 0);
        assert(fresh.last() == (c.sender@, c.amount as int));
        assert(sum_entry(fresh) == c.amount);
        lemma_sum_table_push(t, (c.recipient@, fresh));
    } else {
        let j = find_key(t[i].1, c.sender@);
        lemma_find_key(t[i].1, c.sender@);
        if j < 0 {
            lemma_sum_entry_push(t[i].1, (c.sender@, c.amount as int));
        } else {
            lemma_sum_entry_update(t[i].1, j, (c.sender@, t[i].1[j].1 + c.amount));
        }
        lemma_sum_table_update(t, i, (t[i].0, upsert_sender(t[i].1, c.sender@, c.amount as int)));
    }
}

/// Aggregation conserves the sum of the amounts.
pub proof fn lemma_aggregate_sum(cs: Seq<Contribution>)
    ensures
        sum_table(aggregate_spec(cs)) == sum_amounts(cs),
    decreases cs.len(),
{
    if cs.len() > 0 {
        lemma_aggregate_sum(cs.drop_last());
        lemma_upsert_contribution_sum(aggregate_spec(cs.drop_last()), cs.last());
    }
}

proof fn lemma_upsert_sender_wf(ss: Seq<(Seq<char>, int)>, sender: Seq<char>, amount: int)
    requires
        entry_wf(ss),
        amount >= 0,
    ensures
        entry_wf(upsert_sender(ss, sender, amount)),
{
    let i = find_key(ss, sender);
    lemma_find_key(ss, sender);
}

/// Merging a contribution keeps the table well formed.
pub proof fn lemma_upsert_contribution_wf(
    t: Seq<(Seq<char>, Seq<(Seq<char>, int)>)>,
    c: Contribution,
)
    requires
        table_wf(t),
    ensures
        table_wf(upsert_contribution(t, c)),
{
    let i = find_key(t, c.recipient@);
    lemma_find_key(t, c.recipient@);
    if i < 0 {
        let fresh = seq![(c.sender@, c.amount as int)];
        assert(entry_wf(fresh));
    } else {
        lemma_upsert_sender_wf(t[i].1, c.sender@, c.amount as int);
    }
}

/// The aggregation of any contribution list is well formed.
pub proof fn lemma_aggregate_wf(cs: Seq<Contribution>)
    ensures
        table_wf(aggregate_spec(cs)),
    decreases cs.len(),
{
    if cs.len() > 0 {
        lemma_aggregate_wf(cs.drop_last());
        lemma_upsert_contribution_wf(aggregate_spec(cs.drop_last()), cs.last());
    }
}

/// The sum of non-negative amounts is non-negative.
pub proof fn lemma_sum_entry_nonneg(ss: Seq<(Seq<char>, int)>)
    requires
        amounts_nonneg(ss),
    ensures
        sum_entry(ss) >= 0,
    decreases ss.len(),
{
    if ss.len() > 0 {
        assert(amounts_nonneg(ss.drop_last()));
        lemma_sum_entry_nonneg(ss.drop_last());
    }
}

/// Each of a list of non-negative amounts is at most their sum.
pub proof fn lemma_entry_amount_le_sum(ss: Seq<(Seq<char>, int)>, i: int)
    requires
        amounts_nonneg(ss),
        0 <= i < ss.len(),
    ensures
        ss[i].1 <= sum_entry(ss),
    decreases ss.len(),
{
    assert(amounts_nonneg(ss.drop_last()));
    lemma_sum_entry_nonneg(ss.drop_last());
    if i < ss.len() - 1 {
        lemma_entry_amount_le_sum(ss.drop_last(), i);
    }
}

/// In a well-formed table the sum is non-negative.
pub proof fn lemma_sum_table_nonneg(t: Seq<(Seq<char>, Seq<(Seq<char>, int)>)>)
    requires
        table_wf(t),
    ensures
        sum_table(t) >= 0,
    decreases t.len(),
{
    if t.len() > 0 {
        assert(table_wf(t.drop_last()));
        lemma_sum_table_nonneg(t.drop_last());
        lemma_sum_entry_nonneg(t.last().1);
    }
}

/// In a well-formed table each entry's sum is at most the table's sum.
pub proof fn lemma_entry_sum_le_table(t: Seq<(Seq<char>, Seq<(Seq<char>, int)>)>, i: int)
    requires
        table_wf(t),
        0 <= i < t.len(),
    ensures
        0 <= sum_entry(t[i].1) <= sum_table(t),
    decreases t.len(),
{
    assert(table_wf(t.drop_last()));
    lemma_sum_entry_nonneg(t[i].1);
    if i < t.len() - 1 {
        lemma_entry_sum_le_table(t.drop_last(), i);
        lemma_sum_entry_nonneg(t.last().1);
    } else {
        lemma_sum_table_nonneg(t.drop_last());
    }
}

/// One step of aggregation over a prefix.
pub proof fn lemma_aggregate_take_step(cs: Seq<Contribution>, k: int)
    requires
        0 <= k < cs.len(),
    ensures
        aggregate_spec(cs.take(k + 1)) == upsert_contribution(aggregate_spec(cs.take(k)), cs[k]),
        sum_amounts(cs.take(k + 1)) == sum_amounts(cs.take(k)) + cs[k].amount,
{
    assert(cs.take(k + 1).drop_last() =~= cs.take(k));
    assert(cs.take(k + 1).last() == cs[k]);
}

/// Sums of prefixes of a contribution list never exceed the full sum.
pub proof fn lemma_sum_amounts_take_le(cs: Seq<Contribution>, k: int)
    requires
        0 <= k <= cs.len(),
    ensures
        0 <= sum_amounts(cs.take(k)) <= sum_amounts(cs),
    decreases cs.len() - k,
{
    if k == cs.len() {
        assert(cs.take(k) =~= cs);
        lemma_sum_amounts_nonneg(cs);
    } else {
        lemma_aggregate_take_step(cs, k);
        lemma_sum_amounts_take_le(cs, k + 1);
        lemma_sum_amounts_nonneg(cs.take(k));
    }
}

/// The sum of the amounts is non-negative.
pub proof fn lemma_sum_amounts_nonneg(cs: Seq<Contribution>)
    ensures
        sum_amounts(cs) >= 0,
    decreases cs.len(),
{
    if cs.len() > 0 {
        lemma_sum_amounts_nonneg(cs.drop_last());
    }
}

/// Index of the first entry of `t` whose recipient equals `key`.
fn find_recipient_index(t: &Vec<RecipientTotals>, key: &String) -> (r: Option<usize>)
    ensures
        r is Some ==> find_key(table_view(t@), key@) == r->Some_0 as int,
        r is None ==> find_key(table_view(t@), key@) == -1,
{
    let mut i: usize = 0;
    while i < t.len()
        invariant
            0 <= i <= t@.len(),
            forall|j: int| 0 <= j < i ==> table_view(t@)[j].0 != key@,
        decreases t@.len() - i,
    {
        if t[i].recipient == *key {
            proof {
                lemma_find_key_at(table_view(t@), key@, i as int);
            }
            return Some(i);
        }
        i = i + 1;
    }
    proof {
        lemma_find_key_none(table_view(t@), key@);
    }
    None
}

/// Index of the first entry of `ss` whose sender equals `key`.
fn find_sender_index(ss: &Vec<SenderTotal>, key: &String) -> (r: Option<usize>)
    ensures
        r is Some ==> find_key(senders_view(ss@), key@) == r->Some_0 as int,
        r is None ==> find_key(senders_view(ss@), key@) == -1,
{
    let mut i: usize = 0;
    while i < ss.len()
        invariant
            0 <= i <= ss@.len(),
            forall|j: int| 0 <= j < i ==> senders_view(ss@)[j].0 != key@,
        decreases ss@.len() - i,
    {
        if ss[i].sender == *key {
            proof {
                lemma_find_key_at(senders_view(ss@), key@, i as int);
            }
            return Some(i);
        }
        i = i + 1;
    }
    proof {
        lemma_find_key_none(senders_view(ss@), key@);
    }
    None
}

/// Merge one contribution into the table in place.
fn upsert_one(t: &mut Vec<RecipientTotals>, c: &Contribution)
    requires
        table_wf(table_view(old(t)@)),
        sum_table(table_view(old(t)@)) + c.amount <= u64::MAX,
    ensures
        table_view(final(t)@) == upsert_contribution(table_view(old(t)@), *c),
{
    let ghost t0 = table_view(t@);
    proof {
        lemma_find_key(t0, c.recipient@);
    }
    match find_recipient_index(t, &c.recipient) {
        None => {
            let entry = RecipientTotals {
                recipient: c.recipient.clone(),
                senders: vec![SenderTotal { sender: c.sender.clone(), amount: c.amount }],
            };
            t.push(entry);
            proof {
                assert(senders_view(t@[t@.len() - 1].senders@) =~= seq![
                    (c.sender@, c.amount as int),
                ]);
                assert(table_view(t@) =~= upsert_contribution(t0, *c));
            }
        },
        Some(i) => {
            let ghost entry0 = t0[i as int].1;
            proof {
                lemma_find_key(entry0, c.sender@);
                lemma_entry_sum_le_table(t0, i as int);
            }
            match find_sender_index(&t[i].senders, &c.sender) {
                None => {
                    t[i].senders.push(SenderTotal { sender: c.sender.clone(), amount: c.amount });
                    proof {
                        assert(senders_view(t@[i as int].senders@) =~= upsert_sender(
                            entry0,
                            c.sender@,
                            c.amount as int,
                        ));
                        assert(table_view(t@) =~= upsert_contribution(t0, *c));
                    }
                },
                Some(j) => {
                    proof {
                        lemma_entry_amount_le_sum(entry0, j as int);
                        lemma_sum_entry_nonneg(entry0);
                    }
                    let added = t[i].senders[j].amount + c.amount;
                    t[i].senders[j].amount = added;
                    proof {
                        assert(senders_view(t@[i as int].senders@) =~= upsert_sender(
                            entry0,
                            c.sender@,
                            c.amount as int,
                        ));
                        assert(table_view(t@) =~= upsert_contribution(t0, *c));
                    }
                },
            }
        },
    }
}

/// Aggregate a whole contribution list into a table, in order of first
/// appearance of each recipient and sender.
pub fn aggregate(contributions: &Vec<Contribution>) -> (t: Vec<RecipientTotals>)
    requires
        sum_amounts(contributions@) <= u64::MAX,
    ensures
        table_view(t@) == aggregate_spec(contributions@),
{
    let mut t: Vec<RecipientTotals> = Vec::new();
    let mut k: usize = 0;
    proof {
        assert(contributions@.take(0) =~= Seq::<Contribution>::empty());
    }
    while k < contributions.len()
        invariant
            0 <= k <= contributions@.len(),
            sum_amounts(contributions@) <= u64::MAX,
            table_view(t@) == aggregate_spec(contributions@.take(k as int)),
        decreases contributions@.len() - k,
    {
        proof {
            lemma_aggregate_wf(contributions@.take(k as int));
            lemma_aggregate_sum(contributions@.take(k as int));
            lemma_aggregate_take_step(contributions@, k as int);
            lemma_sum_amounts_take_le(contributions@, k as int + 1);
        }
        upsert_one(&mut t, &contributions[k]);
        k = k + 1;
    }
    proof {
        assert(contributions@.take(contributions@.len() as int) =~= contributions@);
    }
    t
}

} // verus!
