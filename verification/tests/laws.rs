use itc::{
    EventTree, IdTree, IntervalTreeClock, LessThanOrEqual, Normalisable, Split, Stamp, Sum,
};

fn id_node(left: IdTree, right: IdTree) -> IdTree {
    IdTree::node(Box::new(left), Box::new(right))
}

fn event_node(n: u32, left: EventTree, right: EventTree) -> EventTree {
    EventTree::node(n, Box::new(left), Box::new(right))
}

fn some_ids() -> Vec<IdTree> {
    vec![
        IdTree::zero(),
        IdTree::one(),
        id_node(IdTree::one(), IdTree::zero()),
        id_node(IdTree::zero(), IdTree::one()),
        id_node(IdTree::zero(), IdTree::zero()),
        id_node(IdTree::one(), IdTree::one()),
        id_node(id_node(IdTree::one(), IdTree::one()), IdTree::one()),
        id_node(id_node(IdTree::zero(), IdTree::one()), IdTree::zero()),
        id_node(
            id_node(IdTree::one(), IdTree::zero()),
            id_node(IdTree::zero(), id_node(IdTree::one(), IdTree::zero())),
        ),
        id_node(
            id_node(IdTree::zero(), IdTree::zero()),
            id_node(IdTree::one(), id_node(IdTree::one(), IdTree::one())),
        ),
    ]
}

fn some_events() -> Vec<EventTree> {
    vec![
        EventTree::zero(),
        EventTree::leaf(7),
        event_node(2, EventTree::leaf(1), EventTree::leaf(1)),
        event_node(3, EventTree::zero(), EventTree::zero()),
        event_node(0, EventTree::leaf(1), EventTree::zero()),
        event_node(0, EventTree::zero(), EventTree::leaf(2)),
        event_node(2, event_node(2, EventTree::leaf(1), EventTree::zero()), EventTree::leaf(3)),
        event_node(
            1,
            event_node(0, EventTree::leaf(4), EventTree::leaf(4)),
            event_node(5, EventTree::leaf(2), event_node(1, EventTree::leaf(1), EventTree::leaf(9))),
        ),
        event_node(
            0,
            event_node(1, EventTree::leaf(1), EventTree::zero()),
            EventTree::zero(),
        ),
    ]
}

#[test]
fn norm_is_idempotent_on_ownership() {
    for id in some_ids() {
        let once = id.norm();
        assert!(once.is_canonical());
        assert_eq!(once.clone().norm(), once);
    }
}

#[test]
fn norm_is_idempotent_on_histories() {
    for e in some_events() {
        let once = e.norm();
        assert_eq!(once.clone().norm(), once);
    }
}

#[test]
fn leq_is_reflexive() {
    for e in some_events() {
        let s = Stamp::new(IdTree::one(), e);
        assert!(s.leq(&s));
    }
}

#[test]
fn leq_both_ways_means_equal_canonical_histories() {
    let a = Stamp::new(
        IdTree::one(),
        event_node(3, EventTree::zero(), EventTree::zero()),
    );
    let b = Stamp::new(IdTree::zero(), EventTree::leaf(3));
    assert!(a.leq(&b));
    assert!(b.leq(&a));
    assert_ne!(a.event_tree(), b.event_tree());
    assert_eq!(a.event_tree().norm(), b.event_tree().norm());
    for x in some_events() {
        for y in some_events() {
            if x.leq(&y) && y.leq(&x) {
                assert_eq!(x.clone().norm(), y.clone().norm());
            }
        }
    }
}

#[test]
fn leq_is_transitive() {
    for x in some_events() {
        for y in some_events() {
            for z in some_events() {
                if x.leq(&y) && y.leq(&z) {
                    assert!(x.leq(&z));
                }
            }
        }
    }
}

#[test]
fn fork_keeps_ancestry() {
    for id in some_ids() {
        for e in some_events() {
            let s = Stamp::new(id.clone(), e);
            let (s1, s2) = s.fork();
            assert!(s.leq(&s1));
            assert!(s.leq(&s2));
            assert_eq!(s1.event_tree(), s.event_tree());
            assert_eq!(s2.event_tree(), s.event_tree());
            assert!(s1.id_tree().is_disjoint_from(&s2.id_tree()));
        }
    }
}

#[test]
fn event_progresses() {
    for id in some_ids() {
        for e in some_events() {
            let s = Stamp::new(id.clone(), e);
            if s.can_event() {
                let after = s.event();
                assert!(s.leq(&after));
                assert_ne!(after, s);
                if s.event_tree().norm() == s.event_tree() {
                    assert!(!after.leq(&s));
                }
                assert_eq!(after.id_tree(), s.id_tree());
            }
        }
    }
}

#[test]
fn event_needs_an_owner_in_canonical_form() {
    assert!(Stamp::seed().can_event());
    assert!(!Stamp::new(IdTree::zero(), EventTree::zero()).can_event());
    assert!(!Stamp::new(id_node(IdTree::zero(), IdTree::zero()), EventTree::zero()).can_event());
    assert!(!Stamp::new(IdTree::one(), EventTree::leaf(u32::MAX)).can_event());
    assert!(Stamp::new(IdTree::one(), EventTree::leaf(u32::MAX - 1)).can_event());
}

#[test]
fn join_is_commutative() {
    for id in some_ids() {
        let (left, right) = id.split_pair();
        for x in some_events() {
            for y in some_events() {
                let a = Stamp::new(left.clone(), x.clone());
                let b = Stamp::new(right.clone(), y.clone());
                assert!(a.can_join(&b));
                assert_eq!(a.join(&b).norm(), b.join(&a).norm());
                assert!(a.leq(&a.join(&b)));
                assert!(b.leq(&a.join(&b)));
            }
        }
    }
}

#[test]
fn join_is_idempotent() {
    for e in some_events() {
        let a = Stamp::new(IdTree::zero(), e.clone());
        assert_eq!(a.join(&a).event_tree().norm(), e.clone().norm());
        assert_eq!(e.join(&e), e.clone().norm());
    }
}

#[test]
fn split_then_sum_gives_the_tree_back() {
    for id in some_ids() {
        let (left, right) = id.split_pair();
        assert!(left.is_disjoint_from(&right));
        assert_eq!(left.sum(&right).norm(), id.clone().norm());
        assert_eq!(id.split(), id_node(left, right));
    }
}

#[test]
fn seed_fork_event_scenario() {
    let seed = Stamp::seed();
    let (l, r) = seed.fork();
    let advanced = l.event();
    assert_eq!(advanced.id_tree(), id_node(IdTree::one(), IdTree::zero()));
    assert_eq!(
        advanced.event_tree(),
        event_node(0, EventTree::leaf(1), EventTree::zero())
    );
    assert!(seed.leq(&advanced));
    assert!(!advanced.leq(&r));
}

#[test]
fn usage_scenario() {
    let s = Stamp::seed();
    let (s1, s2) = s.fork();
    let s1prime = s1.event();
    let s2prime = s2.event();
    let s3 = s2prime.join(&s1);
    assert!(s.leq(&s1));
    assert!(s1.leq(&s1prime));
    assert!(!s1prime.leq(&s2prime));
    assert!(s2prime.leq(&s3));
}
