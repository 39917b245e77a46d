use itc::{
    Cost, EventTree, IdTree, IntervalTreeClock, LessThanOrEqual, Max, Min, Normalisable, Split,
    Stamp, Sum,
};

fn id_node(left: IdTree, right: IdTree) -> IdTree {
    IdTree::node(Box::new(left), Box::new(right))
}

fn event_node(n: u32, left: EventTree, right: EventTree) -> EventTree {
    EventTree::node(n, Box::new(left), Box::new(right))
}

#[test]
fn constructors_build_what_they_name() {
    assert_eq!(IdTree::leaf(false), IdTree::zero());
    assert_eq!(IdTree::leaf(true), IdTree::one());
    assert_ne!(IdTree::zero(), IdTree::one());
    assert_eq!(EventTree::zero(), EventTree::leaf(0));
    assert_eq!(EventTree::leaf(4).n(), 4);
    assert_eq!(event_node(6, EventTree::leaf(4), EventTree::zero()).n(), 6);
    let seed = Stamp::seed();
    assert_eq!(seed, Stamp::new(IdTree::one(), EventTree::zero()));
    assert_eq!(seed.id_tree(), IdTree::one());
    assert_eq!(seed.event_tree(), EventTree::zero());
}

#[test]
fn lift_and_sink_move_the_root() {
    assert_eq!(EventTree::leaf(3).lift(4), EventTree::leaf(7));
    assert_eq!(EventTree::leaf(7).sink(4), EventTree::leaf(3));
    let tree = event_node(2, EventTree::leaf(1), EventTree::zero());
    assert_eq!(
        tree.clone().lift(5),
        event_node(7, EventTree::leaf(1), EventTree::zero())
    );
    assert_eq!(
        tree.clone().sink(2),
        event_node(0, EventTree::leaf(1), EventTree::zero())
    );
    assert_eq!(tree.clone().lift(0), tree);
}

#[test]
fn min_and_max_add_the_bases_on_the_way() {
    let tree = event_node(
        2,
        event_node(2, EventTree::leaf(1), EventTree::zero()),
        EventTree::leaf(3),
    );
    assert_eq!(tree.min(), 4);
    assert_eq!(tree.max(), 5);
    assert_eq!(EventTree::leaf(9).min(), 9);
    assert_eq!(EventTree::leaf(9).max(), 9);
    assert_eq!(tree.checked_max(), Some(5));
    let too_much = event_node(u32::MAX, EventTree::zero(), EventTree::leaf(1));
    assert_eq!(too_much.checked_max(), None);
    assert!(!Stamp::new(IdTree::one(), too_much).counts_fit());
}

#[test]
fn norm_moves_the_lesser_base_up() {
    let tree = event_node(1, EventTree::leaf(5), event_node(2, EventTree::leaf(3), EventTree::leaf(3)));
    assert_eq!(tree.norm(), EventTree::leaf(6));
    let tree = event_node(1, EventTree::leaf(7), event_node(2, EventTree::leaf(3), EventTree::leaf(4)));
    assert_eq!(
        tree.norm(),
        event_node(
            6,
            EventTree::leaf(2),
            event_node(0, EventTree::zero(), EventTree::leaf(1))
        )
    );
}

#[test]
fn norm_of_a_stamp_norms_both_trees() {
    let stamp = Stamp::new(
        id_node(IdTree::one(), IdTree::one()),
        event_node(2, EventTree::leaf(1), EventTree::leaf(1)),
    );
    assert_eq!(stamp.norm(), Stamp::new(IdTree::one(), EventTree::leaf(3)));
}

#[test]
fn join_takes_the_greater_count_everywhere() {
    assert_eq!(EventTree::leaf(1).join(&EventTree::leaf(3)), EventTree::leaf(3));
    let a = event_node(0, EventTree::leaf(1), EventTree::zero());
    let b = event_node(0, EventTree::zero(), EventTree::leaf(2));
    assert_eq!(a.join(&b), event_node(1, EventTree::zero(), EventTree::leaf(1)));
    assert_eq!(b.join(&a), event_node(1, EventTree::zero(), EventTree::leaf(1)));
    let c = event_node(1, EventTree::zero(), EventTree::leaf(1));
    let d = event_node(0, EventTree::leaf(2), EventTree::zero());
    assert_eq!(c.join(&d), EventTree::leaf(2));
    assert_eq!(EventTree::leaf(1).join(&a), EventTree::leaf(1));
    assert_eq!(
        EventTree::leaf(1).join(&b),
        event_node(1, EventTree::zero(), EventTree::leaf(1))
    );
    let deep = event_node(
        1,
        event_node(0, EventTree::leaf(1), EventTree::zero()),
        EventTree::leaf(1),
    );
    assert_eq!(
        deep.join(&EventTree::leaf(2)),
        EventTree::leaf(2)
    );
    assert_eq!(
        deep.join(&event_node(0, EventTree::zero(), EventTree::leaf(4))),
        event_node(
            1,
            event_node(0, EventTree::leaf(1), EventTree::zero()),
            EventTree::leaf(3)
        )
    );
}

#[test]
fn leq_compares_everywhere() {
    let a = event_node(0, EventTree::leaf(1), EventTree::zero());
    assert!(EventTree::zero().leq(&a));
    assert!(!EventTree::leaf(1).leq(&a));
    assert!(a.leq(&EventTree::leaf(1)));
    assert!(!a.leq(&EventTree::zero()));
    let b = event_node(0, EventTree::zero(), EventTree::leaf(1));
    assert!(!a.leq(&b));
    assert!(!b.leq(&a));
    let c = event_node(1, EventTree::zero(), EventTree::leaf(1));
    assert!(a.leq(&c));
    assert!(b.leq(&c));
    assert!(!c.leq(&a));
    assert!(EventTree::leaf(2).leq(&EventTree::leaf(2)));
    assert!(!EventTree::leaf(3).leq(&EventTree::leaf(2)));
}

#[test]
fn split_goes_on_below_an_empty_half() {
    assert_eq!(
        IdTree::zero().split(),
        id_node(IdTree::zero(), IdTree::zero())
    );
    assert_eq!(
        id_node(IdTree::zero(), IdTree::one()).split(),
        id_node(
            id_node(IdTree::zero(), id_node(IdTree::one(), IdTree::zero())),
            id_node(IdTree::zero(), id_node(IdTree::zero(), IdTree::one()))
        )
    );
    assert_eq!(
        id_node(IdTree::one(), IdTree::zero()).split(),
        id_node(
            id_node(id_node(IdTree::one(), IdTree::zero()), IdTree::zero()),
            id_node(id_node(IdTree::zero(), IdTree::one()), IdTree::zero())
        )
    );
    let both = id_node(
        id_node(IdTree::one(), IdTree::zero()),
        id_node(IdTree::zero(), IdTree::one()),
    );
    assert_eq!(
        both.split(),
        id_node(
            id_node(id_node(IdTree::one(), IdTree::zero()), IdTree::zero()),
            id_node(IdTree::zero(), id_node(IdTree::zero(), IdTree::one()))
        )
    );
}

#[test]
fn sum_puts_shares_together() {
    let left = id_node(IdTree::one(), IdTree::zero());
    let right = id_node(IdTree::zero(), IdTree::one());
    assert_eq!(left.sum(&right), IdTree::one());
    assert_eq!(left.sum(&IdTree::zero()), left);
    assert_eq!(IdTree::zero().sum(&right), right);
    let a = id_node(id_node(IdTree::one(), IdTree::zero()), IdTree::zero());
    let b = id_node(IdTree::zero(), IdTree::one());
    assert_eq!(
        a.sum(&b),
        id_node(id_node(IdTree::one(), IdTree::zero()), IdTree::one())
    );
    assert!(a.is_disjoint_from(&b));
    assert!(!left.is_disjoint_from(&left));
    assert!(!IdTree::one().is_disjoint_from(&left));
    assert!(!id_node(IdTree::zero(), IdTree::zero()).is_disjoint_from(&IdTree::one()));
}

#[test]
fn canonical_form_and_height_of_ownership() {
    assert!(IdTree::one().is_canonical());
    assert!(id_node(IdTree::one(), IdTree::zero()).is_canonical());
    assert!(!id_node(IdTree::one(), IdTree::one()).is_canonical());
    assert!(!id_node(id_node(IdTree::zero(), IdTree::zero()), IdTree::one()).is_canonical());
    assert_eq!(IdTree::one().checked_height(), Some(0));
    assert_eq!(
        id_node(id_node(IdTree::zero(), IdTree::one()), IdTree::one()).checked_height(),
        Some(2)
    );
}

#[test]
fn fill_raises_what_is_owned() {
    let stamp = Stamp::new(
        id_node(IdTree::one(), IdTree::zero()),
        event_node(
            1,
            event_node(0, EventTree::leaf(1), EventTree::zero()),
            EventTree::leaf(1),
        ),
    );
    assert_eq!(stamp.fill(), EventTree::leaf(2));
    let whole = Stamp::new(
        IdTree::one(),
        event_node(1, EventTree::leaf(3), EventTree::zero()),
    );
    assert_eq!(whole.fill(), EventTree::leaf(4));
    let nothing = Stamp::new(
        IdTree::zero(),
        event_node(1, EventTree::leaf(3), EventTree::zero()),
    );
    assert_eq!(nothing.fill(), nothing.event_tree());
    let right = Stamp::new(
        id_node(IdTree::zero(), IdTree::one()),
        event_node(
            0,
            EventTree::leaf(3),
            event_node(0, EventTree::leaf(1), EventTree::zero()),
        ),
    );
    assert_eq!(
        right.fill(),
        EventTree::leaf(3)
    );
    let part = Stamp::new(
        id_node(id_node(IdTree::one(), IdTree::zero()), IdTree::zero()),
        event_node(
            0,
            event_node(0, event_node(0, EventTree::zero(), EventTree::leaf(1)), EventTree::leaf(2)),
            EventTree::leaf(5),
        ),
    );
    assert_eq!(
        part.fill(),
        event_node(0, EventTree::leaf(2), EventTree::leaf(5)).norm()
    );
    assert_eq!(
        part.fill(),
        event_node(2, EventTree::zero(), EventTree::leaf(3))
    );
    let leaf = Stamp::new(id_node(IdTree::one(), IdTree::zero()), EventTree::leaf(3));
    assert_eq!(leaf.fill(), EventTree::leaf(3));
}

#[test]
fn grow_opens_a_leaf_where_ownership_is_divided() {
    let stamp = Stamp::new(id_node(IdTree::one(), IdTree::zero()), EventTree::zero());
    let (tree, cost) = stamp.grow();
    assert_eq!(tree, event_node(0, EventTree::leaf(1), EventTree::zero()));
    assert_eq!(cost.expansions, 1);
    assert_eq!(cost.depth, 1);
    let (tree, cost) = Stamp::new(IdTree::one(), EventTree::leaf(41)).grow();
    assert_eq!(tree, EventTree::leaf(42));
    assert_eq!(cost, Cost::zero());
}

#[test]
fn grow_prefers_the_right_half_when_neither_is_cheaper() {
    let stamp = Stamp::new(
        id_node(IdTree::one(), IdTree::one()),
        event_node(0, EventTree::zero(), EventTree::zero()),
    );
    let (tree, cost) = stamp.grow();
    assert_eq!(tree, event_node(0, EventTree::zero(), EventTree::leaf(1)));
    assert_eq!(cost.expansions, 0);
    assert_eq!(cost.depth, 1);
}

#[test]
fn grow_takes_the_cheaper_half() {
    let stamp = Stamp::new(
        id_node(IdTree::one(), id_node(IdTree::one(), IdTree::zero())),
        event_node(0, EventTree::zero(), EventTree::zero()),
    );
    let (tree, cost) = stamp.grow();
    assert_eq!(tree, event_node(0, EventTree::leaf(1), EventTree::zero()));
    assert_eq!(cost.expansions, 0);
    assert_eq!(cost.depth, 1);
    let stamp = Stamp::new(
        id_node(id_node(IdTree::one(), IdTree::zero()), IdTree::one()),
        event_node(0, EventTree::zero(), EventTree::zero()),
    );
    let (tree, _) = stamp.grow();
    assert_eq!(tree, event_node(0, EventTree::zero(), EventTree::leaf(1)));
    let deep = Stamp::new(
        id_node(
            id_node(IdTree::one(), IdTree::zero()),
            id_node(IdTree::zero(), id_node(IdTree::one(), IdTree::zero())),
        ),
        event_node(
            0,
            EventTree::zero(),
            event_node(0, EventTree::zero(), event_node(0, EventTree::zero(), EventTree::zero())),
        ),
    );
    let (tree, cost) = deep.grow();
    assert_eq!(
        tree,
        event_node(
            0,
            EventTree::zero(),
            event_node(
                0,
                EventTree::zero(),
                event_node(0, EventTree::leaf(1), EventTree::zero())
            ),
        )
    );
    assert_eq!(cost.expansions, 0);
    assert_eq!(cost.depth, 3);
}

#[test]
fn costs_are_ordered_by_expansions_first() {
    let none = Cost::zero();
    let deep = Cost::zero().step().step().step();
    let opened = Cost::zero().shift();
    assert!(none.less_than(&deep));
    assert!(deep.less_than(&opened));
    assert!(!opened.less_than(&deep));
    assert!(!deep.less_than(&deep));
    assert!(opened.less_than(&opened.step()));
    assert_eq!(deep.depth, 3);
    assert_eq!(deep.expansions, 0);
    assert_eq!(opened.expansions, 1);
    assert_eq!(Cost::zero().step().shift(), Cost::zero().shift().step());
}

#[test]
fn peek_gives_a_reader() {
    let stamp = Stamp::new(
        id_node(IdTree::one(), IdTree::zero()),
        event_node(0, EventTree::leaf(1), EventTree::zero()),
    );
    let (reader, same) = stamp.peek();
    assert_eq!(reader, Stamp::new(IdTree::zero(), stamp.event_tree()));
    assert_eq!(same, stamp);
}

#[test]
fn send_records_an_event_and_gives_a_message() {
    let (message, kept) = Stamp::seed().send();
    assert_eq!(message, Stamp::new(IdTree::zero(), EventTree::leaf(1)));
    assert_eq!(kept, Stamp::new(IdTree::one(), EventTree::leaf(1)));
}

#[test]
fn receive_joins_and_records_an_event() {
    let (left, _) = Stamp::seed().fork();
    let message = Stamp::new(IdTree::zero(), EventTree::leaf(1));
    assert!(left.can_receive(&message));
    let after = left.receive(&message);
    assert_eq!(
        after,
        Stamp::new(
            id_node(IdTree::one(), IdTree::zero()),
            event_node(1, EventTree::leaf(1), EventTree::zero())
        )
    );
    assert!(message.leq(&after));
    assert!(left.leq(&after));
    assert!(!Stamp::new(IdTree::zero(), EventTree::zero()).can_receive(&message));
}

#[test]
fn sync_joins_and_forks() {
    let (left, right) = Stamp::seed().fork();
    let left = left.event();
    let right = right.event();
    let (a, b) = left.sync(&right);
    assert_eq!(
        a,
        Stamp::new(id_node(IdTree::one(), IdTree::zero()), EventTree::leaf(1))
    );
    assert_eq!(
        b,
        Stamp::new(id_node(IdTree::zero(), IdTree::one()), EventTree::leaf(1))
    );
}

#[test]
fn clones_are_equal() {
    let stamp = Stamp::new(
        id_node(IdTree::one(), IdTree::zero()),
        event_node(0, EventTree::leaf(1), EventTree::zero()),
    );
    assert_eq!(stamp.clone(), stamp);
    assert_ne!(stamp, Stamp::seed());
    assert!(stamp.same(&stamp.clone()));
}

#[test]
fn growable_needs_matching_shapes() {
    let divided = id_node(IdTree::one(), IdTree::zero());
    assert!(Stamp::new(divided.clone(), EventTree::zero()).is_growable());
    assert!(Stamp::new(IdTree::one(), EventTree::leaf(5)).is_growable());
    assert!(!Stamp::new(IdTree::zero(), EventTree::leaf(5)).is_growable());
    assert!(!Stamp::new(
        IdTree::one(),
        event_node(0, EventTree::leaf(1), EventTree::zero())
    )
    .is_growable());
    assert!(!Stamp::new(
        divided.clone(),
        event_node(0, event_node(0, EventTree::leaf(1), EventTree::zero()), EventTree::zero())
    )
    .is_growable());
    assert!(!Stamp::new(divided, EventTree::leaf(u32::MAX)).is_growable());
}

#[test]
fn canonical_form_of_histories() {
    assert!(EventTree::leaf(3).is_canonical());
    assert!(event_node(2, EventTree::leaf(1), EventTree::zero()).is_canonical());
    assert!(!event_node(2, EventTree::leaf(1), EventTree::leaf(1)).is_canonical());
    assert!(!event_node(2, EventTree::leaf(1), EventTree::leaf(2)).is_canonical());
    assert!(!event_node(
        0,
        EventTree::zero(),
        event_node(1, EventTree::leaf(2), EventTree::leaf(2))
    )
    .is_canonical());
    assert!(Stamp::seed().is_well_formed());
    assert!(!Stamp::new(
        id_node(IdTree::one(), IdTree::one()),
        EventTree::zero()
    )
    .is_well_formed());
}

#[test]
fn operations_keep_stamps_well_formed() {
    let seed = Stamp::seed();
    let (a, b) = seed.fork();
    let a = a.event();
    let (a, c) = a.fork();
    let c = c.event().event();
    let b = b.event();
    let (message, b) = b.send();
    let a = a.receive(&message);
    let bc = b.join(&c);
    let (x, y) = bc.sync(&a);
    for stamp in [&a, &b, &c, &bc, &message, &x, &y] {
        assert!(stamp.is_well_formed());
    }
    assert!(a.leq(&x));
    assert!(bc.leq(&y));
    assert_eq!(x.id_tree().sum(&y.id_tree()), IdTree::one());
}
