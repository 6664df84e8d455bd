use vstd::prelude::*;

use crate::altneu::{self, AltNeu};
use crate::order::{self, Time};
use crate::reclock::{
    assertions, join_all, lemma_join_all_upper_bound, reclocked, retraction, updates_view,
    Record, RecordView, Update, UpdateView,
};

verus! {

/// The multiplicity of `record` accumulated over the updates of `s` at or before `at`.
pub open spec fn accumulated(s: Seq<UpdateView>, record: RecordView, at: AltNeu) -> int
    decreases s.len(),
{
    if s.len() == 0 {
        0
    } else {
        accumulated(s.drop_last(), record, at) + if s.last().0 == record && altneu::le(
            s.last().1,
            at,
        ) {
            s.last().2
        } else {
            0
        }
    }
}

/// What deduplication shows of `record` at `at`: its own multiplicity wherever copies of it
/// have accumulated, and nothing where they cancel out.
pub open spec fn deduplicated(s: Seq<UpdateView>, record: RecordView, at: AltNeu) -> int {
    if accumulated(s, record, at) != 0 {
        record.2 as int
    } else {
        0
    }
}

/// The number of times of `frontier` whose alt phase is at or before `at`.
pub open spec fn visible_count(frontier: Seq<Time>, at: AltNeu) -> int
    decreases frontier.len(),
{
    if frontier.len() == 0 {
        0
    } else {
        visible_count(frontier.drop_last(), at) + if altneu::le(
            AltNeu { time: frontier.last(), neu: false },
            at,
        ) {
            1int
        } else {
            0
        }
    }
}

/// The deduplication pipeline: it takes in reclocked updates and shows, at each two-phase
/// time, every record with its own multiplicity while copies of it are present.
pub struct Dedup {
    updates: Vec<Update>,
}

impl View for Dedup {
    type V = Seq<UpdateView>;

    closed spec fn view(&self) -> Seq<UpdateView> {
        updates_view(self.updates@)
    }
}

impl Dedup {
    /// A pipeline that has taken in nothing.
    pub fn new() -> (r: Dedup)
        ensures
            r@ == Seq::<UpdateView>::empty(),
    {
        let r = Dedup { updates: Vec::new() };
        assert(r@ =~= Seq::<UpdateView>::empty());
        r
    }

    /// Takes in a batch of updates.
    pub fn feed(&mut self, batch: Vec<Update>)
        ensures
            final(self)@ == old(self)@ + updates_view(batch@),
    {
        let mut batch = batch;
        let ghost before = self.updates@;
        let ghost added = batch@;
        self.updates.append(&mut batch);
        assert(updates_view(before + added) =~= updates_view(before) + updates_view(added));
    }

    /// The multiplicity of `record` accumulated over all updates at or before `at`.
    pub fn accumulated_at(&self, record: &Record, at: &AltNeu) -> (r: i128)
        ensures
            r == accumulated(self@, record@, *at),
    {
        let n = self.updates.len();
        let ghost s = updates_view(self.updates@);
        let mut acc: i128 = 0;
        let mut i: usize = 0;
        while i < n
            invariant
                n == self.updates@.len(),
                s == updates_view(self.updates@),
                0 <= i <= n,
                acc == accumulated(s.take(i as int), record@, *at),
                -(i * 0x8000_0000_0000_0000) <= acc <= i * 0x8000_0000_0000_0000,
            decreases n - i,
        {
            let u = &self.updates[i];
            let same = u.0.0 == record.0 && u.0.1 == record.1 && u.0.2 == record.2;
            assert(s.take(i + 1).drop_last() =~= s.take(i as int));
            assert(s.take(i + 1).last() == s[i as int]);
            assert(i + 1 <= 0xffff_ffff_ffff_ffff);
            assert((i + 1) * 0x8000_0000_0000_0000 <= 0xffff_ffff_ffff_ffff
                * 0x8000_0000_0000_0000) by (nonlinear_arith)
                requires
                    i + 1 <= 0xffff_ffff_ffff_ffff,
            ;
            if same && u.1.less_equal(at) {
                acc = acc + u.2 as i128;
            }
            i = i + 1;
        }
        assert(s.take(n as int) =~= s);
        acc
    }

    /// What the pipeline shows of `record` at `at`: its own multiplicity where copies of it
    /// have accumulated, zero where they cancel out.
    pub fn multiplicity_at(&self, record: &Record, at: &AltNeu) -> (r: i64)
        ensures
            r == deduplicated(self@, record@, *at),
    {
        if self.accumulated_at(record, at) != 0 {
            record.2
        } else {
            0
        }
    }
}

proof fn lemma_accumulated_push(s: Seq<UpdateView>, u: UpdateView, record: RecordView, at: AltNeu)
    ensures
        accumulated(s.push(u), record, at) == accumulated(s, record, at) + if u.0 == record
            && altneu::le(u.1, at) {
            u.2
        } else {
            0
        },
{
    assert(s.push(u).drop_last() =~= s);
}

proof fn lemma_accumulated_assertions(record: RecordView, frontier: Seq<Time>, at: AltNeu)
    ensures
        accumulated(assertions(record, frontier), record, at) == visible_count(frontier, at)
            * record.2,
    decreases frontier.len(),
{
    if frontier.len() > 0 {
        let rest = frontier.drop_last();
        let u = (record, AltNeu { time: frontier.last(), neu: false }, record.2 as int);
        lemma_accumulated_assertions(record, rest, at);
        assert(assertions(record, frontier) =~= assertions(record, rest).push(u));
        lemma_accumulated_push(assertions(record, rest), u, record, at);
        let c = visible_count(rest, at);
        assert(c * record.2 + record.2 == (c + 1) * record.2) by (nonlinear_arith);
    } else {
        assert(assertions(record, frontier) =~= Seq::<UpdateView>::empty());
    }
}

proof fn lemma_accumulated_reclocked(record: RecordView, frontier: Seq<Time>, at: AltNeu)
    ensures
        accumulated(reclocked(record, frontier), record, at) == visible_count(frontier, at)
            * record.2 + if altneu::le(AltNeu { time: join_all(frontier), neu: true }, at) {
            -(frontier.len() * record.2)
        } else {
            0
        },
{
    lemma_accumulated_assertions(record, frontier, at);
    lemma_accumulated_push(assertions(record, frontier), retraction(record, frontier), record, at);
}

proof fn lemma_visible_count_positive(frontier: Seq<Time>, at: AltNeu, i: int)
    requires
        0 <= i < frontier.len(),
        altneu::le(AltNeu { time: frontier[i], neu: false }, at),
    ensures
        visible_count(frontier, at) >= 1,
    decreases frontier.len(),
{
    if i < frontier.len() - 1 {
        assert(frontier.drop_last()[i] == frontier[i]);
        lemma_visible_count_positive(frontier.drop_last(), at, i);
    }
    lemma_visible_count_bounds(frontier.drop_last(), at);
}

proof fn lemma_visible_count_bounds(frontier: Seq<Time>, at: AltNeu)
    ensures
        0 <= visible_count(frontier, at) <= frontier.len(),
        visible_count(frontier, at) == frontier.len() <==> forall|i: int|
            0 <= i < frontier.len() ==> altneu::le(
                AltNeu { time: #[trigger] frontier[i], neu: false },
                at,
            ),
    decreases frontier.len(),
{
    if frontier.len() > 0 {
        let rest = frontier.drop_last();
        lemma_visible_count_bounds(rest, at);
        if visible_count(frontier, at) == frontier.len() {
            assert forall|i: int| 0 <= i < frontier.len() implies altneu::le(
                AltNeu { time: #[trigger] frontier[i], neu: false },
                at,
            ) by {
                if i < rest.len() {
                    assert(rest[i] == frontier[i]);
                }
            }
        } else {
            if altneu::le(AltNeu { time: frontier.last(), neu: false }, at) {
                let i = choose|i: int|
                    0 <= i < rest.len() && !altneu::le(
                        AltNeu { time: #[trigger] rest[i], neu: false },
                        at,
                    );
                assert(frontier[i] == rest[i]);
            } else {
                assert(frontier[frontier.len() - 1] == frontier.last());
            }
        }
    }
}

/// Between the alt phase of any time of the frontier and the neu phase of the frontier's join,
/// deduplication shows a reclocked record with exactly its own multiplicity, however many
/// times of the frontier have been reached.
pub proof fn lemma_visibility_window(record: RecordView, frontier: Seq<Time>, at: AltNeu, i: int)
    requires
        0 <= i < frontier.len(),
        altneu::le(AltNeu { time: frontier[i], neu: false }, at),
        altneu::lt(at, AltNeu { time: join_all(frontier), neu: true }),
    ensures
        deduplicated(reclocked(record, frontier), record, at) == record.2,
{
    let retracted = AltNeu { time: join_all(frontier), neu: true };
    altneu::lemma_partial_order(at, retracted, at);
    lemma_accumulated_reclocked(record, frontier, at);
    lemma_visible_count_positive(frontier, at, i);
    let c = visible_count(frontier, at);
    if record.2 != 0 {
        assert(c * record.2 != 0) by (nonlinear_arith)
            requires
                c >= 1,
                record.2 != 0,
        ;
    }
}

/// At and after the neu phase of the frontier's join, the copies of a reclocked record have
/// cancelled out: nothing of it has accumulated, and deduplication shows nothing.
pub proof fn lemma_absent_after_join(record: RecordView, frontier: Seq<Time>, at: AltNeu)
    requires
        altneu::le(AltNeu { time: join_all(frontier), neu: true }, at),
    ensures
        accumulated(reclocked(record, frontier), record, at) == 0,
        deduplicated(reclocked(record, frontier), record, at) == 0,
{
    let retracted = AltNeu { time: join_all(frontier), neu: true };
    assert forall|i: int| 0 <= i < frontier.len() implies altneu::le(
        AltNeu { time: #[trigger] frontier[i], neu: false },
        at,
    ) by {
        lemma_join_all_upper_bound(frontier, i);
        altneu::lemma_phase_order(frontier[i], join_all(frontier));
        altneu::lemma_partial_order(AltNeu { time: frontier[i], neu: false }, retracted, at);
    }
    lemma_visible_count_bounds(frontier, at);
    lemma_accumulated_reclocked(record, frontier, at);
}

/// With a frontier of one time, a reclocked record is shown, with its own multiplicity, exactly
/// from the alt phase of that time up to, and not including, its neu phase.
pub proof fn lemma_single_time_frontier(record: RecordView, t: Time, at: AltNeu)
    ensures
        deduplicated(reclocked(record, seq![t]), record, at) == if altneu::le(
            AltNeu { time: t, neu: false },
            at,
        ) && altneu::lt(at, AltNeu { time: t, neu: true }) {
            record.2 as int
        } else {
            0
        },
        altneu::le(AltNeu { time: t, neu: true }, at) ==> deduplicated(
            reclocked(record, seq![t]),
            record,
            at,
        ) == 0,
{
    let f = seq![t];
    let alt = AltNeu { time: t, neu: false };
    let neu = AltNeu { time: t, neu: true };
    assert(f.drop_last() =~= Seq::<Time>::empty());
    assert(join_all(f.drop_last()) == Time::A);
    assert(f.last() == t);
    assert(join_all(f) == t);
    assert(visible_count(f.drop_last(), at) == 0);
    assert(visible_count(f, at) == if altneu::le(alt, at) {
        1int
    } else {
        0
    });
    lemma_accumulated_reclocked(record, f, at);
    altneu::lemma_partial_order(alt, neu, at);
    altneu::lemma_partial_order(at, neu, at);
    altneu::lemma_phase_order(t, at.time);
    order::lemma_partial_order(t, at.time, t);
    assert(f.len() == 1);
    assert(1 * record.2 == record.2);
}

} // verus!
