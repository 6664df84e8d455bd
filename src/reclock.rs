use vstd::prelude::*;

use crate::altneu::AltNeu;
use crate::order::{self, Time};

verus! {

/// A source record: its payload, its time in the source domain, and its multiplicity.
pub type Record = (String, u64, i64);

/// A reclocked update: the whole source record as data, a two-phase time and a multiplicity.
pub type Update = (Record, AltNeu, i64);

/// What a record holds, as values.
pub type RecordView = (Seq<char>, u64, i64);

/// What a reclocked update holds, its multiplicity as an integer.
pub type UpdateView = (RecordView, AltNeu, int);

pub open spec fn update_view(u: Update) -> UpdateView {
    (u.0@, u.1, u.2 as int)
}

pub open spec fn updates_view(s: Seq<Update>) -> Seq<UpdateView> {
    s.map_values(|u: Update| update_view(u))
}

/// No two times of `frontier` are ordered: it is an antichain of the target domain.
pub open spec fn is_antichain(frontier: Seq<Time>) -> bool {
    forall|i: int, j: int|
        0 <= i < frontier.len() && 0 <= j < frontier.len() && i != j ==> !order::le(
            #[trigger] frontier[i],
            #[trigger] frontier[j],
        )
}

/// The join of all times of `frontier`, folded from the least time of the domain.
pub open spec fn join_all(frontier: Seq<Time>) -> Time
    decreases frontier.len(),
{
    if frontier.len() == 0 {
        Time::A
    } else {
        order::join(join_all(frontier.drop_last()), frontier.last())
    }
}

/// The assertions of `record`: one at the alt phase of each time of `frontier`, each with the
/// record's own multiplicity.
pub open spec fn assertions(record: RecordView, frontier: Seq<Time>) -> Seq<UpdateView> {
    frontier.map_values(|t: Time| (record, AltNeu { time: t, neu: false }, record.2 as int))
}

/// The retraction of `record`: at the neu phase of the join of `frontier`, with the
/// multiplicity of all assertions negated.
pub open spec fn retraction(record: RecordView, frontier: Seq<Time>) -> UpdateView {
    (record, AltNeu { time: join_all(frontier), neu: true }, -(frontier.len() * record.2))
}

/// The updates that reclock `record` to `frontier`: the assertions, then the retraction.
pub open spec fn reclocked(record: RecordView, frontier: Seq<Time>) -> Seq<UpdateView> {
    assertions(record, frontier).push(retraction(record, frontier))
}

/// The sum of the multiplicities of `s`.
pub open spec fn total(s: Seq<UpdateView>) -> int
    decreases s.len(),
{
    if s.len() == 0 {
        0
    } else {
        total(s.drop_last()) + s.last().2
    }
}

/// Joins all times of `frontier`, starting from the least time of the domain.
pub fn join_frontier(frontier: &Vec<Time>) -> (r: Time)
    ensures
        r == join_all(frontier@),
{
    let mut joined = Time::minimum();
    let mut i: usize = 0;
    while i < frontier.len()
        invariant
            0 <= i <= frontier@.len(),
            joined == join_all(frontier@.take(i as int)),
        decreases frontier@.len() - i,
    {
        assert(frontier@.take(i + 1).drop_last() =~= frontier@.take(i as int));
        joined = joined.join(&frontier[i]);
        i = i + 1;
    }
    assert(frontier@.take(i as int) =~= frontier@);
    joined
}

/// Reclocks `record` to the times of `frontier`: it becomes visible at the alt phase of each
/// of them, with its own multiplicity, and is retracted once, at the neu phase of their join.
pub fn reclock_record(record: Record, frontier: Vec<Time>) -> (r: Vec<Update>)
    requires
        frontier@.len() >= 1,
        is_antichain(frontier@),
        i64::MIN < frontier@.len() * record.2 <= i64::MAX,
    ensures
        updates_view(r@) == reclocked(record@, frontier@),
{
    let n = frontier.len();
    let diff = record.2;
    let mut updates: Vec<Update> = Vec::new();
    let mut total_diff: i64 = 0;
    let mut i: usize = 0;
    while i < n
        invariant
            n == frontier@.len(),
            diff == record.2,
            i64::MIN < n * diff <= i64::MAX,
            0 <= i <= n,
            total_diff == i * diff,
            updates@.len() == i,
            forall|k: int|
                0 <= k < i ==> update_view(#[trigger] updates@[k]) == (
                    record@,
                    AltNeu { time: frontier@[k], neu: false },
                    diff as int,
                ),
        decreases n - i,
    {
        assert(i * diff + diff == (i + 1) * diff) by (nonlinear_arith);
        assert(i64::MIN < (i + 1) * diff <= i64::MAX) by (nonlinear_arith)
            requires
                i64::MIN < n * diff <= i64::MAX,
                i < n,
        ;
        total_diff = total_diff + diff;
        let copy: Record = (record.0.clone(), record.1, diff);
        updates.push((copy, AltNeu::alt(frontier[i]), diff));
        i = i + 1;
    }
    let joined = join_frontier(&frontier);
    updates.push((record, AltNeu::neu(joined), -total_diff));
    assert(updates_view(updates@) =~= reclocked(record@, frontier@));
    updates
}

proof fn lemma_total_push(s: Seq<UpdateView>, u: UpdateView)
    ensures
        total(s.push(u)) == total(s) + u.2,
{
    assert(s.push(u).drop_last() =~= s);
}

proof fn lemma_total_assertions(record: RecordView, frontier: Seq<Time>)
    ensures
        total(assertions(record, frontier)) == frontier.len() * record.2,
    decreases frontier.len(),
{
    if frontier.len() > 0 {
        let rest = frontier.drop_last();
        lemma_total_assertions(record, rest);
        assert(assertions(record, frontier) =~= assertions(record, rest).push(
            (record, AltNeu { time: frontier.last(), neu: false }, record.2 as int),
        ));
        lemma_total_push(
            assertions(record, rest),
            (record, AltNeu { time: frontier.last(), neu: false }, record.2 as int),
        );
        assert(rest.len() * record.2 + record.2 == frontier.len() * record.2) by (nonlinear_arith)
            requires
                rest.len() + 1 == frontier.len(),
        ;
    } else {
        assert(assertions(record, frontier) =~= Seq::<UpdateView>::empty());
        assert(frontier.len() * record.2 == 0) by (nonlinear_arith)
            requires
                frontier.len() == 0,
        ;
    }
}

/// The multiplicities that reclocking emits for a record sum to zero, for every frontier.
pub proof fn lemma_zero_sum(record: RecordView, frontier: Seq<Time>)
    ensures
        total(reclocked(record, frontier)) == 0,
{
    lemma_total_assertions(record, frontier);
    lemma_total_push(assertions(record, frontier), retraction(record, frontier));
}

/// The join of a frontier is at or before `u` exactly when every time of the frontier is.
pub proof fn lemma_join_all_least_upper_bound(frontier: Seq<Time>, u: Time)
    ensures
        order::le(join_all(frontier), u) <==> forall|i: int|
            0 <= i < frontier.len() ==> order::le(#[trigger] frontier[i], u),
    decreases frontier.len(),
{
    if frontier.len() > 0 {
        let rest = frontier.drop_last();
        lemma_join_all_least_upper_bound(rest, u);
        order::lemma_join_least_upper_bound(join_all(rest), frontier.last(), u);
        if order::le(join_all(frontier), u) {
            assert forall|i: int| 0 <= i < frontier.len() implies order::le(
                #[trigger] frontier[i],
                u,
            ) by {
                if i < rest.len() {
                    assert(rest[i] == frontier[i]);
                }
            }
        } else {
            if order::le(frontier.last(), u) {
                let i = choose|i: int| 0 <= i < rest.len() && !order::le(#[trigger] rest[i], u);
                assert(frontier[i] == rest[i]);
            } else {
                assert(frontier[frontier.len() - 1] == frontier.last());
            }
        }
    } else {
        order::lemma_partial_order(Time::A, u, u);
    }
}

/// Every time of a frontier is at or before its join.
pub proof fn lemma_join_all_upper_bound(frontier: Seq<Time>, i: int)
    requires
        0 <= i < frontier.len(),
    ensures
        order::le(frontier[i], join_all(frontier)),
{
    order::lemma_partial_order(join_all(frontier), join_all(frontier), join_all(frontier));
    lemma_join_all_least_upper_bound(frontier, join_all(frontier));
}

/// The join of a frontier does not depend on the order in which its times are joined: any
/// listing of the same times gives the same join.
pub proof fn lemma_join_order_irrelevant(f: Seq<Time>, g: Seq<Time>)
    requires
        forall|t: Time| f.contains(t) <==> g.contains(t),
    ensures
        join_all(f) == join_all(g),
{
    lemma_join_all_least_upper_bound(f, join_all(g));
    lemma_join_all_least_upper_bound(g, join_all(f));
    assert forall|i: int| 0 <= i < f.len() implies order::le(#[trigger] f[i], join_all(g)) by {
        assert(f.contains(f[i]));
        let j = choose|j: int| 0 <= j < g.len() && g[j] == f[i];
        lemma_join_all_upper_bound(g, j);
    }
    assert forall|i: int| 0 <= i < g.len() implies order::le(#[trigger] g[i], join_all(f)) by {
        assert(g.contains(g[i]));
        let j = choose|j: int| 0 <= j < f.len() && f[j] == g[i];
        lemma_join_all_upper_bound(f, j);
    }
    order::lemma_partial_order(join_all(f), join_all(g), join_all(f));
}

/// The join of a frontier can be grouped in any way: joining the joins of two parts gives the
/// join of the whole.
pub proof fn lemma_join_grouping_irrelevant(f: Seq<Time>, g: Seq<Time>)
    ensures
        join_all(f + g) == order::join(join_all(f), join_all(g)),
{
    let whole = join_all(f + g);
    let parts = order::join(join_all(f), join_all(g));
    lemma_join_all_least_upper_bound(f + g, parts);
    lemma_join_all_least_upper_bound(f, parts);
    lemma_join_all_least_upper_bound(g, parts);
    lemma_join_all_least_upper_bound(f + g, whole);
    lemma_join_all_least_upper_bound(f, whole);
    lemma_join_all_least_upper_bound(g, whole);
    order::lemma_join_least_upper_bound(join_all(f), join_all(g), parts);
    order::lemma_join_least_upper_bound(join_all(f), join_all(g), whole);
    order::lemma_partial_order(whole, whole, whole);
    order::lemma_partial_order(parts, parts, parts);
    assert forall|i: int| 0 <= i < (f + g).len() implies order::le(#[trigger] (f + g)[i], parts)
        by {
        if i < f.len() {
            assert((f + g)[i] == f[i]);
        } else {
            assert((f + g)[i] == g[i - f.len()]);
        }
    }
    assert forall|i: int| 0 <= i < f.len() implies order::le(#[trigger] f[i], whole) by {
        assert((f + g)[i] == f[i]);
    }
    assert forall|i: int| 0 <= i < g.len() implies order::le(#[trigger] g[i], whole) by {
        assert((f + g)[i + f.len()] == g[i]);
    }
    order::lemma_partial_order(whole, parts, whole);
}

} // verus!
