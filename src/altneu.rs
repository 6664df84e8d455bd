use vstd::prelude::*;

use crate::order::{self, Time};

verus! {

/// A time of the diamond domain tagged with a phase: the assertion phase (`neu == false`,
/// "alt") of a time comes before its retraction phase (`neu == true`, "neu").
#[derive(Clone, Copy, Debug, PartialEq, Eq, Structural, Hash)]
pub struct AltNeu {
    pub time: Time,
    pub neu: bool,
}

/// The order of two-phase times: by the inner times, and at equal inner times alt before neu.
pub open spec fn le(a: AltNeu, b: AltNeu) -> bool {
    if a.time == b.time {
        !a.neu || b.neu
    } else {
        order::le(a.time, b.time)
    }
}

/// Strictly before.
pub open spec fn lt(a: AltNeu, b: AltNeu) -> bool {
    le(a, b) && a != b
}

/// The join of two-phase times: the join of the inner times, in the neu phase as soon as
/// either side is.
pub open spec fn join(a: AltNeu, b: AltNeu) -> AltNeu {
    AltNeu { time: order::join(a.time, b.time), neu: a.neu || b.neu }
}

/// The meet of two-phase times: the meet of the inner times, in the neu phase unless a side
/// whose inner time equals that meet is in the alt phase.
pub open spec fn meet(a: AltNeu, b: AltNeu) -> AltNeu {
    let m = order::meet(a.time, b.time);
    AltNeu { time: m, neu: (m != a.time || a.neu) && (m != b.time || b.neu) }
}

impl AltNeu {
    /// The assertion phase of `time`.
    pub fn alt(time: Time) -> (r: AltNeu)
        ensures
            r == (AltNeu { time, neu: false }),
    {
        AltNeu { time, neu: false }
    }

    /// The retraction phase of `time`.
    pub fn neu(time: Time) -> (r: AltNeu)
        ensures
            r == (AltNeu { time, neu: true }),
    {
        AltNeu { time, neu: true }
    }

    /// Whether `self` is at or before `other`.
    pub fn less_equal(&self, other: &AltNeu) -> (r: bool)
        ensures
            r == le(*self, *other),
    {
        if self.time == other.time {
            !self.neu || other.neu
        } else {
            self.time.less_equal(&other.time)
        }
    }

    /// The join of `self` and `other`.
    pub fn join(&self, other: &AltNeu) -> (r: AltNeu)
        ensures
            r == join(*self, *other),
    {
        AltNeu { time: self.time.join(&other.time), neu: self.neu || other.neu }
    }

    /// The meet of `self` and `other`.
    pub fn meet(&self, other: &AltNeu) -> (r: AltNeu)
        ensures
            r == meet(*self, *other),
    {
        let m = self.time.meet(&other.time);
        AltNeu { time: m, neu: (m != self.time || self.neu) && (m != other.time || other.neu) }
    }
}

/// The two-phase order is reflexive, antisymmetric and transitive.
pub proof fn lemma_partial_order(a: AltNeu, b: AltNeu, c: AltNeu)
    ensures
        le(a, a),
        le(a, b) && le(b, a) ==> a == b,
        le(a, b) && le(b, c) ==> le(a, c),
{
    order::lemma_partial_order(a.time, b.time, c.time);
}

/// The two-phase order written out phase by phase: it refines the order of the inner times,
/// and a neu time is before an alt time only when its inner time is strictly before.
pub proof fn lemma_phase_order(t1: Time, t2: Time)
    ensures
        le(AltNeu { time: t1, neu: false }, AltNeu { time: t2, neu: false }) == order::le(t1, t2),
        le(AltNeu { time: t1, neu: true }, AltNeu { time: t2, neu: true }) == order::le(t1, t2),
        le(AltNeu { time: t1, neu: false }, AltNeu { time: t2, neu: true }) == order::le(t1, t2),
        le(AltNeu { time: t1, neu: true }, AltNeu { time: t2, neu: false }) == (order::le(t1, t2)
            && t1 != t2),
{
    order::lemma_partial_order(t1, t2, t2);
}

/// The join of two-phase times is commutative, associative, idempotent, an upper bound of
/// both sides, and never leaves the neu phase.
pub proof fn lemma_join_laws(a: AltNeu, b: AltNeu, c: AltNeu)
    ensures
        join(a, b) == join(b, a),
        join(join(a, b), c) == join(a, join(b, c)),
        join(a, a) == a,
        le(a, join(a, b)),
        le(b, join(a, b)),
        join(a, b).neu == (a.neu || b.neu),
{
    order::lemma_join_laws(a.time, b.time, c.time);
    order::lemma_join_least_upper_bound(a.time, b.time, a.time);
}

/// `meet(a, b)` is a lower bound of `a` and `b`, and at or after every other one.
pub proof fn lemma_meet_greatest_lower_bound(a: AltNeu, b: AltNeu, l: AltNeu)
    ensures
        le(meet(a, b), a),
        le(meet(a, b), b),
        le(l, meet(a, b)) <==> (le(l, a) && le(l, b)),
{
    let m = meet(a, b);
    order::lemma_meet_greatest_lower_bound(a.time, b.time, l.time);
    order::lemma_partial_order(l.time, m.time, a.time);
    order::lemma_partial_order(l.time, m.time, b.time);
    order::lemma_partial_order(m.time, a.time, m.time);
    order::lemma_partial_order(m.time, b.time, m.time);
    order::lemma_partial_order(l.time, a.time, l.time);
    order::lemma_partial_order(l.time, b.time, l.time);
}

/// The meet of two-phase times is commutative, associative and idempotent.
pub proof fn lemma_meet_laws(a: AltNeu, b: AltNeu, c: AltNeu)
    ensures
        meet(a, b) == meet(b, a),
        meet(meet(a, b), c) == meet(a, meet(b, c)),
        meet(a, a) == a,
{
    order::lemma_meet_laws(a.time, b.time, c.time);
    let left = meet(meet(a, b), c);
    let right = meet(a, meet(b, c));
    lemma_partial_order(left, left, left);
    lemma_partial_order(right, right, right);
    lemma_meet_greatest_lower_bound(meet(a, b), c, left);
    lemma_meet_greatest_lower_bound(a, b, left);
    lemma_meet_greatest_lower_bound(a, meet(b, c), left);
    lemma_meet_greatest_lower_bound(b, c, left);
    lemma_meet_greatest_lower_bound(a, meet(b, c), right);
    lemma_meet_greatest_lower_bound(b, c, right);
    lemma_meet_greatest_lower_bound(meet(a, b), c, right);
    lemma_meet_greatest_lower_bound(a, b, right);
    lemma_partial_order(left, right, left);
    lemma_partial_order(a, a, a);
    lemma_meet_greatest_lower_bound(a, a, a);
    lemma_partial_order(meet(a, a), a, a);
}

} // verus!
