use vstd::prelude::*;

verus! {

/// A partially ordered time domain shaped like a diamond:
///
/// ```text
///    ,--B----E.
///   /       /  \
///  A-------C----G
///   \       \  /
///    `--D----F'
/// ```
#[derive(Clone, Copy, Debug, PartialEq, Eq, Structural, Hash)]
pub enum Time {
    A,
    B,
    C,
    D,
    E,
    F,
    G,
}

/// The order of the domain: `a` is at or before `b`.
pub open spec fn le(a: Time, b: Time) -> bool {
    match (a, b) {
        (Time::A, _) => true,
        (Time::B, Time::B) | (Time::B, Time::E) | (Time::B, Time::G) => true,
        (Time::C, Time::C) | (Time::C, Time::E) | (Time::C, Time::F) | (Time::C, Time::G) => true,
        (Time::D, Time::D) | (Time::D, Time::F) | (Time::D, Time::G) => true,
        (Time::E, Time::E) | (Time::E, Time::G) => true,
        (Time::F, Time::F) | (Time::F, Time::G) => true,
        (Time::G, Time::G) => true,
        _ => false,
    }
}

/// The least upper bound of two times.
pub open spec fn join(a: Time, b: Time) -> Time {
    if le(a, b) {
        b
    } else if le(b, a) {
        a
    } else {
        match (a, b) {
            (Time::B, Time::C) | (Time::C, Time::B) => Time::E,
            (Time::C, Time::D) | (Time::D, Time::C) => Time::F,
            _ => Time::G,
        }
    }
}

/// The greatest lower bound of two times.
pub open spec fn meet(a: Time, b: Time) -> Time {
    if le(a, b) {
        a
    } else if le(b, a) {
        b
    } else {
        match (a, b) {
            (Time::E, Time::F) | (Time::F, Time::E) => Time::C,
            _ => Time::A,
        }
    }
}

impl Time {
    /// The least element of the domain.
    pub fn minimum() -> (r: Time)
        ensures
            r == Time::A,
            forall|t: Time| le(r, t),
    {
        Time::A
    }

    /// Whether `self` is at or before `other`.
    pub fn less_equal(&self, other: &Time) -> (r: bool)
        ensures
            r == le(*self, *other),
    {
        match (self, other) {
            (Time::A, _) => true,
            (Time::B, Time::B) | (Time::B, Time::E) | (Time::B, Time::G) => true,
            (Time::C, Time::C) | (Time::C, Time::E) | (Time::C, Time::F) | (Time::C, Time::G) => true,
            (Time::D, Time::D) | (Time::D, Time::F) | (Time::D, Time::G) => true,
            (Time::E, Time::E) | (Time::E, Time::G) => true,
            (Time::F, Time::F) | (Time::F, Time::G) => true,
            (Time::G, Time::G) => true,
            _ => false,
        }
    }

    /// The least time at or after both `self` and `other`.
    pub fn join(&self, other: &Time) -> (r: Time)
        ensures
            r == join(*self, *other),
    {
        if self.less_equal(other) {
            *other
        } else if other.less_equal(self) {
            *self
        } else {
            match (self, other) {
                (Time::B, Time::C) | (Time::C, Time::B) => Time::E,
                (Time::C, Time::D) | (Time::D, Time::C) => Time::F,
                _ => Time::G,
            }
        }
    }

    /// The greatest time at or before both `self` and `other`.
    pub fn meet(&self, other: &Time) -> (r: Time)
        ensures
            r == meet(*self, *other),
    {
        if self.less_equal(other) {
            *self
        } else if other.less_equal(self) {
            *other
        } else {
            match (self, other) {
                (Time::E, Time::F) | (Time::F, Time::E) => Time::C,
                _ => Time::A,
            }
        }
    }
}

/// The order is reflexive, antisymmetric and transitive.
pub proof fn lemma_partial_order(a: Time, b: Time, c: Time)
    ensures
        le(a, a),
        le(a, b) && le(b, a) ==> a == b,
        le(a, b) && le(b, c) ==> le(a, c),
{
}

/// `join(a, b)` is an upper bound of `a` and `b`, and at or before every other one.
pub proof fn lemma_join_least_upper_bound(a: Time, b: Time, u: Time)
    ensures
        le(a, join(a, b)),
        le(b, join(a, b)),
        le(join(a, b), u) <==> (le(a, u) && le(b, u)),
{
}

/// `meet(a, b)` is a lower bound of `a` and `b`, and at or after every other one.
pub proof fn lemma_meet_greatest_lower_bound(a: Time, b: Time, l: Time)
    ensures
        le(meet(a, b), a),
        le(meet(a, b), b),
        le(l, meet(a, b)) <==> (le(l, a) && le(l, b)),
{
}

/// `join` is commutative, associative and idempotent.
pub proof fn lemma_join_laws(a: Time, b: Time, c: Time)
    ensures
        join(a, b) == join(b, a),
        join(join(a, b), c) == join(a, join(b, c)),
        join(a, a) == a,
{
}

/// `meet` is commutative, associative and idempotent.
pub proof fn lemma_meet_laws(a: Time, b: Time, c: Time)
    ensures
        meet(a, b) == meet(b, a),
        meet(meet(a, b), c) == meet(a, meet(b, c)),
        meet(a, a) == a,
{
}

/// `join` and `meet` absorb each other, and agree with the order.
pub proof fn lemma_absorption(a: Time, b: Time)
    ensures
        join(a, meet(a, b)) == a,
        meet(a, join(a, b)) == a,
        le(a, b) <==> join(a, b) == b,
        le(a, b) <==> meet(a, b) == a,
{
}

} // verus!
