use reclock::altneu::AltNeu;
use reclock::dedup::Dedup;
use reclock::order::Time;
use reclock::reclock::{join_frontier, reclock_record, Record};

const ALL: [Time; 7] = [Time::A, Time::B, Time::C, Time::D, Time::E, Time::F, Time::G];

fn all_two_phase() -> Vec<AltNeu> {
    let mut v = Vec::new();
    for t in ALL {
        v.push(AltNeu::alt(t));
        v.push(AltNeu::neu(t));
    }
    v
}

fn pipeline_for(record: &Record, frontier: Vec<Time>) -> Dedup {
    let mut dedup = Dedup::new();
    dedup.feed(reclock_record(record.clone(), frontier));
    dedup
}

#[test]
fn diamond_order_and_joins() {
    assert!(Time::A.less_equal(&Time::G));
    assert!(Time::B.less_equal(&Time::E));
    assert!(!Time::B.less_equal(&Time::F));
    assert!(!Time::E.less_equal(&Time::F));
    assert_eq!(Time::B.join(&Time::C), Time::E);
    assert_eq!(Time::C.join(&Time::D), Time::F);
    assert_eq!(Time::B.join(&Time::D), Time::G);
    assert_eq!(Time::E.join(&Time::D), Time::G);
    assert_eq!(Time::E.join(&Time::F), Time::G);
    assert_eq!(Time::E.meet(&Time::F), Time::C);
    assert_eq!(Time::B.meet(&Time::D), Time::A);
    assert_eq!(Time::minimum(), Time::A);
}

#[test]
fn lattice_laws_hold_exhaustively() {
    for a in ALL {
        assert!(Time::minimum().less_equal(&a));
        assert_eq!(a.join(&a), a);
        assert_eq!(a.meet(&a), a);
        for b in ALL {
            assert_eq!(a.join(&b), b.join(&a));
            assert_eq!(a.meet(&b), b.meet(&a));
            assert!(a.less_equal(&a.join(&b)));
            assert!(a.meet(&b).less_equal(&a));
            for c in ALL {
                assert_eq!(a.join(&b).join(&c), a.join(&b.join(&c)));
                assert_eq!(a.meet(&b).meet(&c), a.meet(&b.meet(&c)));
                if a.less_equal(&c) && b.less_equal(&c) {
                    assert!(a.join(&b).less_equal(&c));
                }
                if c.less_equal(&a) && c.less_equal(&b) {
                    assert!(c.less_equal(&a.meet(&b)));
                }
            }
        }
    }
}

#[test]
fn two_phase_order() {
    assert!(AltNeu::alt(Time::B).less_equal(&AltNeu::neu(Time::B)));
    assert!(!AltNeu::neu(Time::B).less_equal(&AltNeu::alt(Time::B)));
    assert!(AltNeu::neu(Time::B).less_equal(&AltNeu::alt(Time::E)));
    assert!(AltNeu::alt(Time::B).less_equal(&AltNeu::neu(Time::E)));
    assert!(!AltNeu::alt(Time::B).less_equal(&AltNeu::neu(Time::C)));
    assert_eq!(
        AltNeu::alt(Time::B).join(&AltNeu::alt(Time::C)),
        AltNeu::alt(Time::E)
    );
    assert_eq!(
        AltNeu::alt(Time::B).join(&AltNeu::neu(Time::D)),
        AltNeu::neu(Time::G)
    );
    assert_eq!(
        AltNeu::neu(Time::E).meet(&AltNeu::neu(Time::F)),
        AltNeu::neu(Time::C)
    );
    assert_eq!(
        AltNeu::neu(Time::E).meet(&AltNeu::alt(Time::F)),
        AltNeu::neu(Time::C)
    );
    assert_eq!(
        AltNeu::alt(Time::B).meet(&AltNeu::alt(Time::C)),
        AltNeu::neu(Time::A)
    );
    assert_eq!(
        AltNeu::alt(Time::B).meet(&AltNeu::neu(Time::E)),
        AltNeu::alt(Time::B)
    );
    for a in all_two_phase() {
        assert!(a.less_equal(&a));
        for b in all_two_phase() {
            assert_eq!(a.join(&b), b.join(&a));
            assert!(a.less_equal(&a.join(&b)));
            assert!(a.meet(&b).less_equal(&a));
            assert_eq!(a.meet(&b), b.meet(&a));
            for l in all_two_phase() {
                if l.less_equal(&a) && l.less_equal(&b) {
                    assert!(l.less_equal(&a.meet(&b)));
                }
            }
            assert_eq!(a.join(&b).neu, a.neu || b.neu);
            if a.less_equal(&b) && b.less_equal(&a) {
                assert_eq!(a, b);
            }
        }
    }
}

#[test]
fn diamond_scenario() {
    let record: Record = ("data".to_owned(), 0, 2);
    let updates = reclock_record(record.clone(), vec![Time::B, Time::C, Time::D]);
    assert_eq!(
        updates,
        vec![
            (record.clone(), AltNeu::alt(Time::B), 2),
            (record.clone(), AltNeu::alt(Time::C), 2),
            (record.clone(), AltNeu::alt(Time::D), 2),
            (record.clone(), AltNeu::neu(Time::G), -6),
        ]
    );
    let dedup = pipeline_for(&record, vec![Time::B, Time::C, Time::D]);
    for t in [Time::B, Time::C, Time::D] {
        assert_eq!(dedup.multiplicity_at(&record, &AltNeu::alt(t)), 2);
    }
    assert_eq!(dedup.multiplicity_at(&record, &AltNeu::neu(Time::G)), 0);
    assert_eq!(dedup.accumulated_at(&record, &AltNeu::neu(Time::G)), 0);
}

#[test]
fn zero_sum_of_reclocked_multiplicities() {
    let frontiers = vec![
        vec![Time::B],
        vec![Time::B, Time::C],
        vec![Time::B, Time::C, Time::D],
        vec![Time::E, Time::F],
        vec![Time::D, Time::E],
    ];
    for diff in [-3i64, 0, 1, 7] {
        for frontier in frontiers.clone() {
            let n = frontier.len() as i64;
            let updates = reclock_record(("x".to_owned(), 5, diff), frontier);
            let sum: i64 = updates.iter().map(|u| u.2).sum();
            assert_eq!(sum, 0);
            assert_eq!(updates.last().unwrap().2, -n * diff);
        }
    }
}

#[test]
fn visible_with_own_multiplicity_before_the_join() {
    let record: Record = ("data".to_owned(), 0, 2);
    let dedup = pipeline_for(&record, vec![Time::B, Time::C, Time::D]);
    assert_eq!(dedup.accumulated_at(&record, &AltNeu::alt(Time::E)), 4);
    assert_eq!(dedup.multiplicity_at(&record, &AltNeu::alt(Time::E)), 2);
    assert_eq!(dedup.accumulated_at(&record, &AltNeu::alt(Time::G)), 6);
    assert_eq!(dedup.multiplicity_at(&record, &AltNeu::alt(Time::G)), 2);
    assert_eq!(dedup.multiplicity_at(&record, &AltNeu::neu(Time::F)), 2);
    assert_eq!(dedup.multiplicity_at(&record, &AltNeu::alt(Time::A)), 0);
}

#[test]
fn absent_at_and_after_the_join() {
    let record: Record = ("data".to_owned(), 3, -4);
    let dedup = pipeline_for(&record, vec![Time::B, Time::C]);
    assert_eq!(dedup.multiplicity_at(&record, &AltNeu::alt(Time::E)), -4);
    assert_eq!(dedup.accumulated_at(&record, &AltNeu::neu(Time::E)), 0);
    assert_eq!(dedup.multiplicity_at(&record, &AltNeu::neu(Time::E)), 0);
    assert_eq!(dedup.multiplicity_at(&record, &AltNeu::alt(Time::G)), 0);
    assert_eq!(dedup.multiplicity_at(&record, &AltNeu::neu(Time::G)), 0);
}

#[test]
fn join_order_does_not_matter() {
    let orders = vec![
        vec![Time::B, Time::C, Time::D],
        vec![Time::D, Time::C, Time::B],
        vec![Time::C, Time::B, Time::D],
        vec![Time::C, Time::D, Time::B, Time::C],
    ];
    for frontier in orders {
        assert_eq!(join_frontier(&frontier), Time::G);
    }
    assert_eq!(join_frontier(&vec![Time::B, Time::C]), Time::E);
    assert_eq!(join_frontier(&vec![]), Time::A);
}

#[test]
fn single_time_frontier_is_visible_at_its_alt_phase_only() {
    let record: Record = ("one".to_owned(), 1, 5);
    let updates = reclock_record(record.clone(), vec![Time::C]);
    assert_eq!(
        updates,
        vec![
            (record.clone(), AltNeu::alt(Time::C), 5),
            (record.clone(), AltNeu::neu(Time::C), -5),
        ]
    );
    let dedup = pipeline_for(&record, vec![Time::C]);
    assert_eq!(dedup.multiplicity_at(&record, &AltNeu::alt(Time::C)), 5);
    assert_eq!(dedup.multiplicity_at(&record, &AltNeu::neu(Time::C)), 0);
    assert_eq!(dedup.multiplicity_at(&record, &AltNeu::alt(Time::E)), 0);
    assert_eq!(dedup.multiplicity_at(&record, &AltNeu::alt(Time::A)), 0);
    assert_eq!(dedup.multiplicity_at(&record, &AltNeu::alt(Time::B)), 0);
}

#[test]
fn records_are_grouped_by_the_whole_record() {
    let first: Record = ("data".to_owned(), 0, 2);
    let other_diff: Record = ("data".to_owned(), 0, 3);
    let other_payload: Record = ("more".to_owned(), 0, 2);
    let mut dedup = Dedup::new();
    dedup.feed(reclock_record(first.clone(), vec![Time::B, Time::C]));
    dedup.feed(reclock_record(other_diff.clone(), vec![Time::D]));
    assert_eq!(dedup.accumulated_at(&first, &AltNeu::alt(Time::E)), 4);
    assert_eq!(dedup.multiplicity_at(&first, &AltNeu::alt(Time::E)), 2);
    assert_eq!(dedup.multiplicity_at(&other_diff, &AltNeu::alt(Time::D)), 3);
    assert_eq!(dedup.multiplicity_at(&other_diff, &AltNeu::alt(Time::E)), 0);
    assert_eq!(dedup.multiplicity_at(&other_payload, &AltNeu::alt(Time::E)), 0);
    assert_eq!(Dedup::new().accumulated_at(&first, &AltNeu::alt(Time::G)), 0);
}
