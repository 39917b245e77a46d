//! How an event changes a history: by filling where that changes anything,
//! by growing otherwise.

use vstd::prelude::*;

use crate::cost::{cheaper, shifted, stepped, CostModel};
use crate::counts::{greater, lesser, Counts};
use crate::id_tree::IdTree;
use crate::position::{lemma_through, onward, through, Position};

verus! {

/// The history `e` with the slack taken up that `i` is entitled to: wherever
/// `i` owns a whole interval, the counts in it are raised to one count, the
/// greatest that is already known there or, beside a sibling, the least of
/// that sibling if it is greater. What `i` does not own stays as it is.
pub open spec fn fill(i: IdTree, e: Counts) -> Counts
    decreases i,
{
    match i {
        IdTree::Leaf { i: owned } => if owned {
            Counts::leaf(e.max())
        } else {
            e
        },
        IdTree::Node { left: il, right: ir } => match e {
            Counts::Leaf { .. } => e,
            Counts::Node { n, left: el, right: er } => {
                if *il == IdTree::full() {
                    let right = fill(*ir, *er);
                    let left = Counts::leaf(greater(el.max(), right.min()));
                    Counts::node(n, left, right).norm()
                } else if *ir == IdTree::full() {
                    let left = fill(*il, *el);
                    let right = Counts::leaf(greater(er.max(), left.min()));
                    Counts::node(n, left, right).norm()
                } else {
                    Counts::node(n, fill(*il, *el), fill(*ir, *er)).norm()
                }
            },
        },
    }
}

/// Whether one more event can be recorded in `e` on behalf of `i`: wherever
/// `i` divides an interval it owns something in the half that it goes on
/// with, and `e` is a leaf wherever `i` owns a whole interval.
pub open spec fn can_grow(i: IdTree, e: Counts) -> bool
    decreases i,
{
    match i {
        IdTree::Leaf { i: owned } => owned && e is Leaf,
        IdTree::Node { left: il, right: ir } => {
            if *il == IdTree::empty() {
                can_grow(*ir, e.right_child())
            } else if *ir == IdTree::empty() {
                can_grow(*il, e.left_child())
            } else {
                can_grow(*il, e.left_child()) && can_grow(*ir, e.right_child())
            }
        },
    }
}

/// The history `e` with one more event recorded in a part that `i` owns, and
/// what that cost.
///
/// A leaf that `i` owns whole counts one more, at no cost. Where `i` divides
/// an interval, a leaf of `e` is opened into a node, which costs one
/// expansion, and the event goes to the half that `i` owns or, where it owns
/// part of both, to the cheaper half, to the right one if neither is
/// cheaper; every node on the way costs one step.
pub open spec fn grow(i: IdTree, e: Counts) -> (Counts, CostModel)
    decreases i,
{
    match i {
        IdTree::Leaf { .. } => (Counts::leaf(e.base() + 1), (0nat, 0nat)),
        IdTree::Node { left: il, right: ir } => {
            let n = e.base();
            let el = e.left_child();
            let er = e.right_child();
            let l = grow(*il, el);
            let r = grow(*ir, er);
            let grown = if *il == IdTree::empty() {
                (Counts::node(n, el, r.0), stepped(r.1))
            } else if *ir == IdTree::empty() {
                (Counts::node(n, l.0, er), stepped(l.1))
            } else if cheaper(l.1, r.1) {
                (Counts::node(n, l.0, er), stepped(l.1))
            } else {
                (Counts::node(n, el, r.0), stepped(r.1))
            };
            if e is Leaf {
                (grown.0, shifted(grown.1))
            } else {
                grown
            }
        },
    }
}

/// Whether growing `e` for the node `i` records the event in the left half.
pub open spec fn grows_left(i: IdTree, e: Counts) -> bool
    recommends
        i is Node,
{
    let il = i->left;
    let ir = i->right;
    if *il == IdTree::empty() {
        false
    } else if *ir == IdTree::empty() {
        true
    } else {
        cheaper(grow(*il, e.left_child()).1, grow(*ir, e.right_child()).1)
    }
}

/// Growing for an identity that is a node grows one half of the history and
/// leaves the other as it is.
pub proof fn lemma_grow_parts(i: IdTree, e: Counts)
    requires
        i is Node,
    ensures
        grows_left(i, e) ==> grow(i, e).0 == Counts::node(
            e.base(),
            grow(*i->left, e.left_child()).0,
            e.right_child(),
        ),
        !grows_left(i, e) ==> grow(i, e).0 == Counts::node(
            e.base(),
            e.left_child(),
            grow(*i->right, e.right_child()).0,
        ),
        can_grow(i, e) && grows_left(i, e) ==> can_grow(*i->left, e.left_child()),
        can_grow(i, e) && !grows_left(i, e) ==> can_grow(*i->right, e.right_child()),
        e is Node ==> e == Counts::node(e.base(), e.left_child(), e.right_child()),
        e is Leaf ==> e == Counts::leaf(e.base()),
{
}

/// The history after one more event of the owner of `i`: `e` filled, if
/// that changes it, and grown otherwise.
pub open spec fn advance(i: IdTree, e: Counts) -> Counts {
    if fill(i, e) != e {
        fill(i, e)
    } else {
        grow(i, e).0
    }
}

/// The tree of which the canonical form is `fill(i, e)`, where `i` and `e`
/// are both nodes.
pub open spec fn fill_parts(i: IdTree, e: Counts) -> (Counts, Counts)
    recommends
        i is Node,
        e is Node,
{
    let il = i->left;
    let ir = i->right;
    let el = e->left;
    let er = e->right;
    if *il == IdTree::full() {
        let right = fill(*ir, *er);
        (Counts::leaf(greater(el.max(), right.min())), right)
    } else if *ir == IdTree::full() {
        let left = fill(*il, *el);
        (left, Counts::leaf(greater(er.max(), left.min())))
    } else {
        (fill(*il, *el), fill(*ir, *er))
    }
}

/// Filling a node for an identity that is a node fills the two halves and
/// brings the result into canonical form.
pub proof fn lemma_fill_parts(i: IdTree, e: Counts)
    requires
        i is Node,
        e is Node,
    ensures
        fill(i, e) == Counts::node(e.base(), fill_parts(i, e).0, fill_parts(i, e).1).norm(),
{
}

/// Filling never lowers the least count and never raises the greatest.
pub proof fn lemma_fill_bounds(i: IdTree, e: Counts)
    ensures
        fill(i, e).max() <= e.max(),
        fill(i, e).min() >= e.min(),
    decreases i,
{
    e.lemma_at_bounds(Seq::empty());
    match i {
        IdTree::Leaf { .. } => {
            Counts::lemma_leaf(e.max(), Seq::empty());
        },
        IdTree::Node { left: il, right: ir } => match e {
            Counts::Leaf { .. } => {},
            Counts::Node { n, left: el, right: er } => {
                lemma_fill_bounds(*il, *el);
                lemma_fill_bounds(*ir, *er);
                lemma_fill_parts(i, e);
                let parts = fill_parts(i, e);
                el.lemma_at_bounds(Seq::empty());
                er.lemma_at_bounds(Seq::empty());
                parts.0.lemma_at_bounds(Seq::empty());
                parts.1.lemma_at_bounds(Seq::empty());
                Counts::lemma_leaf(greater(el.max(), parts.1.min()), Seq::empty());
                Counts::lemma_leaf(greater(er.max(), parts.0.min()), Seq::empty());
                Counts::lemma_node(n, parts.0, parts.1, Seq::empty());
                Counts::node(n, parts.0, parts.1).lemma_norm_bounds();
            },
        },
    }
}

/// Filling lowers no count, and changes none at a position that `i` does not
/// own.
pub proof fn lemma_fill_at(i: IdTree, e: Counts, p: Position)
    ensures
        fill(i, e).at(p) >= e.at(p),
        !i.owns(p) ==> fill(i, e).at(p) == e.at(p),
    decreases i,
{
    e.lemma_at_bounds(p);
    match i {
        IdTree::Leaf { .. } => {
            Counts::lemma_leaf(e.max(), p);
        },
        IdTree::Node { left: il, right: ir } => match e {
            Counts::Leaf { .. } => {},
            Counts::Node { n, left: el, right: er } => {
                let q = onward(p);
                lemma_fill_at(*il, *el, q);
                lemma_fill_at(*ir, *er, q);
                lemma_fill_parts(i, e);
                let parts = fill_parts(i, e);
                el.lemma_at_bounds(q);
                er.lemma_at_bounds(q);
                Counts::lemma_leaf(greater(el.max(), parts.1.min()), q);
                Counts::lemma_leaf(greater(er.max(), parts.0.min()), q);
                Counts::lemma_node(n, parts.0, parts.1, p);
                Counts::node(n, parts.0, parts.1).lemma_norm_at(p);
                assert(il.owns(q) || *il != IdTree::full());
                assert(ir.owns(q) || *ir != IdTree::full());
            },
        },
    }
}

/// Filling gives a canonical history, unless `i` owns nothing and `e` is not
/// canonical itself.
pub proof fn lemma_fill_normal(i: IdTree, e: Counts)
    requires
        i != IdTree::empty() || e.is_normal(),
    ensures
        fill(i, e).is_normal(),
{
    if i is Node && e is Node {
        lemma_fill_parts(i, e);
        Counts::node(e.base(), fill_parts(i, e).0, fill_parts(i, e).1).lemma_norm_is_normal();
    }
}

/// The history is below what filling makes of it.
pub proof fn lemma_fill_leq(i: IdTree, e: Counts)
    ensures
        e.leq(fill(i, e)),
{
    if i == IdTree::empty() {
        e.lemma_leq_reflexive();
    } else {
        lemma_fill_normal(i, e);
        assert forall|p: Position| e.at(p) <= fill(i, e).at(p) by {
            lemma_fill_at(i, e, p);
        }
        e.lemma_below_leq(fill(i, e));
    }
}

/// Neither part of the cost of growing is more than the height of `i`.
pub proof fn lemma_grow_cost(i: IdTree, e: Counts)
    ensures
        grow(i, e).1.0 <= i.height(),
        grow(i, e).1.1 <= i.height(),
    decreases i,
{
    match i {
        IdTree::Leaf { .. } => {},
        IdTree::Node { left: il, right: ir } => {
            lemma_grow_cost(*il, e.left_child());
            lemma_grow_cost(*ir, e.right_child());
        },
    }
}

/// Growing adds one event at some positions that `i` owns, and changes
/// nothing elsewhere.
pub proof fn lemma_grow_at(i: IdTree, e: Counts, p: Position)
    requires
        can_grow(i, e),
    ensures
        e.at(p) <= grow(i, e).0.at(p) <= e.at(p) + 1,
        grow(i, e).0.at(p) != e.at(p) ==> i.owns(p),
    decreases i,
{
    match i {
        IdTree::Leaf { .. } => {
            Counts::lemma_leaf(e.base() + 1, p);
        },
        IdTree::Node { left: il, right: ir } => {
            let q = onward(p);
            let el = e.left_child();
            let er = e.right_child();
            lemma_grow_parts(i, e);
            Counts::lemma_leaf(0, q);
            Counts::lemma_leaf(e.base(), p);
            Counts::lemma_node(e.base(), el, er, p);
            if grows_left(i, e) {
                lemma_grow_at(*il, el, q);
                Counts::lemma_node(e.base(), grow(*il, el).0, er, p);
            } else {
                lemma_grow_at(*ir, er, q);
                Counts::lemma_node(e.base(), el, grow(*ir, er).0, p);
            }
        },
    }
}

/// Growing adds one event at some position that `i` owns.
pub proof fn lemma_grow_advances(i: IdTree, e: Counts) -> (p: Position)
    requires
        can_grow(i, e),
    ensures
        i.owns(p),
        grow(i, e).0.at(p) == e.at(p) + 1,
    decreases i,
{
    match i {
        IdTree::Leaf { .. } => {
            Counts::lemma_leaf(e.base() + 1, Seq::empty());
            Seq::empty()
        },
        IdTree::Node { left: il, right: ir } => {
            let el = e.left_child();
            let er = e.right_child();
            lemma_grow_parts(i, e);
            let go_left = grows_left(i, e);
            let q = if go_left {
                lemma_grow_advances(*il, el)
            } else {
                lemma_grow_advances(*ir, er)
            };
            let p = through(!go_left, q);
            lemma_through(!go_left, q);
            Counts::lemma_leaf(0, q);
            Counts::lemma_leaf(e.base(), p);
            Counts::lemma_node(e.base(), el, grow(*ir, er).0, p);
            Counts::lemma_node(e.base(), grow(*il, el).0, er, p);
            Counts::lemma_node(e.base(), el, er, p);
            p
        },
    }
}

/// Growing raises the greatest count by one at most, and changes the history.
pub proof fn lemma_grow_max(i: IdTree, e: Counts)
    requires
        can_grow(i, e),
    ensures
        grow(i, e).0.max() <= e.max() + 1,
        grow(i, e).0 != e,
{
    let g = grow(i, e).0;
    let p = g.lemma_max_attained();
    lemma_grow_at(i, e, p);
    e.lemma_at_bounds(p);
    let q = lemma_grow_advances(i, e);
}

/// The history is below what growing makes of it.
pub proof fn lemma_grow_leq(i: IdTree, e: Counts)
    requires
        can_grow(i, e),
    ensures
        e.leq(grow(i, e).0),
    decreases i,
{
    match i {
        IdTree::Leaf { .. } => {},
        IdTree::Node { left: il, right: ir } => {
            match e {
                Counts::Leaf { .. } => {},
                Counts::Node { n, left: el, right: er } => {
                    lemma_grow_parts(i, e);
                    let g = grow(i, e).0;
                    el.lift(n).lemma_leq_reflexive();
                    er.lift(n).lemma_leq_reflexive();
                    if grows_left(i, e) {
                        lemma_grow_leq(*il, *el);
                        el.lemma_leq_lift(grow(*il, *el).0, n);
                        Counts::lemma_node(n, grow(*il, *el).0, *er, Seq::empty());
                    } else {
                        lemma_grow_leq(*ir, *er);
                        er.lemma_leq_lift(grow(*ir, *er).0, n);
                        Counts::lemma_node(n, *el, grow(*ir, *er).0, Seq::empty());
                    }
                    assert(e.left_half() == el.lift(n));
                    assert(e.right_half() == er.lift(n));
                    assert(g.base() == n);
                    assert(e.left_half().leq(g.left_half()));
                    assert(e.right_half().leq(g.right_half()));
                },
            }
        },
    }
}

/// A history that filling leaves as it is, filling leaves as it is in both
/// halves; and where the identity owns the whole of one half, the history is
/// a leaf there that holds no less than the least count of the other half.
pub proof fn lemma_fill_fixed_parts(i: IdTree, e: Counts)
    requires
        i is Node,
        fill(i, e) == e,
    ensures
        fill(*i->left, e.left_child()) == e.left_child(),
        fill(*i->right, e.right_child()) == e.right_child(),
        e is Node && *i->left == IdTree::full() ==> e.left_child() is Leaf
            && e.left_child().base() >= e.right_child().min(),
        e is Node && *i->right == IdTree::full() && *i->left != IdTree::full()
            ==> e.right_child() is Leaf && e.right_child().base() >= e.left_child().min(),
{
    let il = *i->left;
    let ir = *i->right;
    match e {
        Counts::Leaf { .. } => {
            Counts::lemma_leaf(0, Seq::empty());
        },
        Counts::Node { n, left: el, right: er } => {
            lemma_fill_parts(i, e);
            let parts = fill_parts(i, e);
            Counts::lemma_norm_same_base(n, parts.0, parts.1);
            assert(*el == parts.0.norm());
            assert(*er == parts.1.norm());
            if il != IdTree::empty() {
                lemma_fill_normal(il, *el);
                fill(il, *el).lemma_normal_is_fixed();
            }
            if ir != IdTree::empty() {
                lemma_fill_normal(ir, *er);
                fill(ir, *er).lemma_normal_is_fixed();
            }
            if il == IdTree::full() {
                let x = greater(el.max(), fill(ir, *er).min());
                Counts::lemma_leaf(x, Seq::empty());
                Counts::lemma_leaf(el.max(), Seq::empty());
                assert(*el == Counts::leaf(x));
            } else if ir == IdTree::full() {
                let x = greater(er.max(), fill(il, *el).min());
                Counts::lemma_leaf(x, Seq::empty());
                Counts::lemma_leaf(er.max(), Seq::empty());
                assert(*er == Counts::leaf(x));
            }
        },
    }
}

/// A history that filling leaves as it is can grow, for every canonical
/// identity that owns something.
pub proof fn lemma_filled_can_grow(i: IdTree, e: Counts)
    requires
        i.is_normal(),
        i != IdTree::empty(),
        fill(i, e) == e,
    ensures
        can_grow(i, e),
    decreases i,
{
    match i {
        IdTree::Leaf { .. } => {},
        IdTree::Node { left: il, right: ir } => {
            lemma_fill_fixed_parts(i, e);
            if *il != IdTree::empty() {
                lemma_filled_can_grow(*il, e.left_child());
            }
            if *ir != IdTree::empty() {
                lemma_filled_can_grow(*ir, e.right_child());
            }
        },
    }
}

/// Growing a canonical history that filling leaves as it is gives a
/// canonical history, for every canonical identity that owns something.
pub proof fn lemma_grow_normal(i: IdTree, e: Counts)
    requires
        i.is_normal(),
        i != IdTree::empty(),
        e.is_normal(),
        fill(i, e) == e,
    ensures
        grow(i, e).0.is_normal(),
    decreases i,
{
    match i {
        IdTree::Leaf { .. } => {},
        IdTree::Node { left: il, right: ir } => {
            let n = e.base();
            let el = e.left_child();
            let er = e.right_child();
            lemma_grow_parts(i, e);
            lemma_fill_fixed_parts(i, e);
            el.lemma_normal_min();
            er.lemma_normal_min();
            assert(el.is_normal() && er.is_normal());
            assert(lesser(el.base(), er.base()) == 0);
            if grows_left(i, e) {
                let g = grow(*il, el).0;
                lemma_grow_normal(*il, el);
                assert(g.is_normal());
                if *il is Node {
                    lemma_grow_parts(*il, el);
                    assert(g is Node && g.base() == el.base());
                } else {
                    assert(g == Counts::leaf(el.base() + 1));
                    assert(er.base() == 0);
                }
                assert(lesser(g.base(), er.base()) == 0);
                assert(Counts::node(n, g, er).is_normal());
            } else {
                let g = grow(*ir, er).0;
                lemma_grow_normal(*ir, er);
                assert(g.is_normal());
                if *ir is Node {
                    lemma_grow_parts(*ir, er);
                    assert(g is Node && g.base() == er.base());
                } else {
                    assert(g == Counts::leaf(er.base() + 1));
                    assert(el.base() == 0);
                }
                assert(lesser(el.base(), g.base()) == 0);
                assert(Counts::node(n, el, g).is_normal());
            }
        },
    }
}

/// One more event of an owner keeps a canonical history canonical, for every
/// canonical identity that owns something.
pub proof fn lemma_advance_normal(i: IdTree, e: Counts)
    requires
        i.is_normal(),
        i != IdTree::empty(),
        e.is_normal(),
    ensures
        advance(i, e).is_normal(),
{
    if fill(i, e) != e {
        lemma_fill_normal(i, e);
    } else {
        lemma_grow_normal(i, e);
    }
}

/// One more event of an owner leaves the history behind: for a canonical
/// identity that owns something, the history is below the advanced one and
/// differs from it. If the history is canonical, the advanced one is not
/// below it.
pub proof fn lemma_advance_progresses(i: IdTree, e: Counts)
    requires
        i.is_normal(),
        i != IdTree::empty(),
    ensures
        e.leq(advance(i, e)),
        advance(i, e) != e,
        fill(i, e) == e ==> can_grow(i, e),
        advance(i, e).max() <= e.max() + 1,
        e.is_normal() ==> !advance(i, e).leq(e),
{
    let a = advance(i, e);
    if fill(i, e) != e {
        lemma_fill_leq(i, e);
        lemma_fill_bounds(i, e);
        if e.is_normal() && a.leq(e) {
            lemma_fill_normal(i, e);
            a.lemma_leq_below(e);
            assert forall|p: Position| a.at(p) == e.at(p) by {
                lemma_fill_at(i, e, p);
                assert(a.at(p) <= e.at(p));
            }
            a.lemma_normal_unique(e);
        }
    } else {
        lemma_filled_can_grow(i, e);
        lemma_grow_leq(i, e);
        lemma_grow_max(i, e);
        if a.leq(e) {
            let p = lemma_grow_advances(i, e);
            a.lemma_leq_below(e);
            assert(a.at(p) <= e.at(p));
        }
    }
}

} // verus!
