//! Stamps and the operations of the clock.

use vstd::prelude::*;
use vstd::std_specs::cmp::PartialEqSpecImpl;

use crate::advance::{
    can_grow, fill, fill_parts, grow, lemma_advance_normal, lemma_advance_progresses,
    lemma_fill_at, lemma_fill_bounds, lemma_fill_parts, lemma_grow_at, lemma_grow_cost,
    lemma_grow_max, lemma_grow_parts,
};
use crate::cost::Cost;
use crate::counts::Counts;
use crate::event_tree::EventTree;
use crate::id_tree::IdTree;
use crate::ops::{IntervalTreeClock, LessThanOrEqual, Max, Min, Normalisable, Sum};
use crate::position::Position;
use crate::stamp_model::StampModel;

verus! {

/// The clock of one replica: what it owns of the identity space, and the
/// history that it has seen.
#[derive(Debug)]
pub struct Stamp {
    i: IdTree,
    e: EventTree,
}

impl View for Stamp {
    type V = StampModel;

    closed spec fn view(&self) -> StampModel {
        StampModel { id: self.i, history: self.e@ }
    }
}

/// `e` filled for `i`.
fn fill_tree(i: &IdTree, e: &EventTree) -> (r: EventTree)
    requires
        e.fits(),
    ensures
        r@ == fill(*i, e@),
        r.fits(),
    decreases *i,
{
    proof {
        lemma_fill_bounds(*i, e@);
    }
    match i {
        IdTree::Leaf { i: owned } => {
            if *owned {
                EventTree::leaf(e.max())
            } else {
                e.clone()
            }
        },
        IdTree::Node { left: il, right: ir } => match e {
            EventTree::Leaf { .. } => e.clone(),
            EventTree::Node { n, left: el, right: er } => {
                proof {
                    lemma_fill_parts(*i, e@);
                    let parts = fill_parts(*i, e@);
                    Counts::node(*n as nat, parts.0, parts.1).lemma_norm_bounds();
                }
                if il.same(&IdTree::one()) {
                    let new_right = fill_tree(ir, er);
                    let a = el.max();
                    let b = new_right.min();
                    let new_left = EventTree::leaf(if a >= b { a } else { b });
                    EventTree::node(*n, Box::new(new_left), Box::new(new_right)).norm()
                } else if ir.same(&IdTree::one()) {
                    let new_left = fill_tree(il, el);
                    let a = er.max();
                    let b = new_left.min();
                    let new_right = EventTree::leaf(if a >= b { a } else { b });
                    EventTree::node(*n, Box::new(new_left), Box::new(new_right)).norm()
                } else {
                    let new_left = fill_tree(il, el);
                    let new_right = fill_tree(ir, er);
                    EventTree::node(*n, Box::new(new_left), Box::new(new_right)).norm()
                }
            },
        },
    }
}

/// `e` grown for `i`, and what that cost.
fn grow_tree(i: &IdTree, e: &EventTree) -> (r: (EventTree, Cost))
    requires
        can_grow(*i, e@),
        e@.max() < u32::MAX,
        i.height() <= Cost::limit(),
    ensures
        r.0@ == grow(*i, e@).0,
        r.1@ == grow(*i, e@).1,
        r.0.fits(),
    decreases *i,
{
    proof {
        lemma_grow_max(*i, e@);
        lemma_grow_cost(*i, e@);
        e@.lemma_at_bounds(Seq::empty());
    }
    match i {
        IdTree::Leaf { .. } => (EventTree::leaf(e.n() + 1), Cost::zero()),
        IdTree::Node { left: il, right: ir } => {
            let n = e.n();
            let zero = EventTree::zero();
            let (el, er, opened): (&EventTree, &EventTree, bool) = match e {
                EventTree::Leaf { .. } => (&zero, &zero, true),
                EventTree::Node { left, right, .. } => (&**left, &**right, false),
            };
            proof {
                lemma_grow_parts(*i, e@);
                lemma_grow_cost(**il, el@);
                lemma_grow_cost(**ir, er@);
            }
            let (tree, cost) = if il.same(&IdTree::zero()) {
                let (new_right, c) = grow_tree(ir, er);
                (EventTree::node(n, Box::new(el.clone()), Box::new(new_right)), c.step())
            } else if ir.same(&IdTree::zero()) {
                let (new_left, c) = grow_tree(il, el);
                (EventTree::node(n, Box::new(new_left), Box::new(er.clone())), c.step())
            } else {
                let (new_right, c_right) = grow_tree(ir, er);
                let (new_left, c_left) = grow_tree(il, el);
                if c_left.less_than(&c_right) {
                    (EventTree::node(n, Box::new(new_left), Box::new(er.clone())), c_left.step())
                } else {
                    (
                        EventTree::node(n, Box::new(el.clone()), Box::new(new_right)),
                        c_right.step(),
                    )
                }
            };
            if opened {
                (tree, cost.shift())
            } else {
                (tree, cost)
            }
        },
    }
}

/// Whether `e` can grow for `i`.
fn growable_tree(i: &IdTree, e: &EventTree) -> (b: bool)
    ensures
        b == can_grow(*i, e@),
    decreases *i,
{
    match i {
        IdTree::Leaf { i: owned } => match e {
            EventTree::Leaf { .. } => *owned,
            EventTree::Node { .. } => false,
        },
        IdTree::Node { left: il, right: ir } => {
            let zero = EventTree::zero();
            let (el, er): (&EventTree, &EventTree) = match e {
                EventTree::Leaf { .. } => (&zero, &zero),
                EventTree::Node { left, right, .. } => (&**left, &**right),
            };
            if il.same(&IdTree::zero()) {
                growable_tree(ir, er)
            } else if ir.same(&IdTree::zero()) {
                growable_tree(il, el)
            } else {
                growable_tree(il, el) && growable_tree(ir, er)
            }
        },
    }
}

impl Stamp {
    /// The stamp from which all others derive: it owns everything and has
    /// seen nothing.
    pub fn seed() -> (r: Stamp)
        ensures
            r@ == StampModel::seed(),
    {
        Stamp::new(IdTree::one(), EventTree::zero())
    }

    /// The stamp with ownership `i` and history `e`.
    pub fn new(i: IdTree, e: EventTree) -> (r: Stamp)
        ensures
            r@.id == i,
            r@.history == e@,
    {
        Stamp { i, e }
    }

    /// The history that the stamp holds can be written with `u32` counts.
    pub open spec fn fits(&self) -> bool {
        self@.history.max() <= u32::MAX
    }

    /// Stamps that stand for the same are the same.
    pub proof fn lemma_view_injective(self, other: Stamp)
        requires
            self@ == other@,
        ensures
            self == other,
    {
        self.e.lemma_view_injective(other.e);
    }

    /// The history with the slack taken up that the stamp's ownership is
    /// entitled to.
    pub fn fill(&self) -> (r: EventTree)
        requires
            self.fits(),
        ensures
            r@ == fill(self@.id, self@.history),
            forall|p: Position| r@.at(p) >= self@.history.at(p),
            forall|p: Position| !self@.id.owns(p) ==> r@.at(p) == self@.history.at(p),
            r.fits(),
    {
        proof {
            assert forall|p: Position|
                fill(self@.id, self@.history).at(p) >= self@.history.at(p) by {
                lemma_fill_at(self@.id, self@.history, p);
            }
            assert forall|p: Position|
                !self@.id.owns(p) implies fill(self@.id, self@.history).at(p)
                    == self@.history.at(p) by {
                lemma_fill_at(self@.id, self@.history, p);
            }
        }
        fill_tree(&self.i, &self.e)
    }

    /// Whether the history can grow: the shapes of the two trees allow it,
    /// no count is the greatest `u32` already, and the cost can be counted.
    pub open spec fn growable(&self) -> bool {
        &&& can_grow(self@.id, self@.history)
        &&& self@.history.max() < u32::MAX
        &&& self@.id.height() <= Cost::limit()
    }

    /// Whether the history can grow.
    pub fn is_growable(&self) -> (b: bool)
        ensures
            b == self.growable(),
    {
        let below_limit = match self.e.checked_max() {
            None => false,
            Some(m) => m < u32::MAX,
        };
        below_limit && self.i.checked_height().is_some() && growable_tree(&self.i, &self.e)
    }

    /// The history with one more event recorded where the stamp owns, and
    /// what that cost.
    pub fn grow(&self) -> (r: (EventTree, Cost))
        requires
            self.growable(),
        ensures
            r.0@ == grow(self@.id, self@.history).0,
            r.1@ == grow(self@.id, self@.history).1,
            forall|p: Position|
                self@.history.at(p) <= #[trigger] r.0@.at(p) <= self@.history.at(p) + 1,
            forall|p: Position|
                #[trigger] r.0@.at(p) != self@.history.at(p) ==> self@.id.owns(p),
            r.0@ != self@.history,
            r.0.fits(),
    {
        proof {
            lemma_grow_max(self@.id, self@.history);
            assert forall|p: Position|
                self@.history.at(p) <= #[trigger] grow(self@.id, self@.history).0.at(p)
                    <= self@.history.at(p) + 1 by {
                lemma_grow_at(self@.id, self@.history, p);
            }
            assert forall|p: Position| #[trigger]
                grow(self@.id, self@.history).0.at(p) != self@.history.at(p)
                    implies self@.id.owns(p) by {
                lemma_grow_at(self@.id, self@.history, p);
            }
        }
        grow_tree(&self.i, &self.e)
    }

    /// Whether both trees are in canonical form.
    pub fn is_well_formed(&self) -> (b: bool)
        ensures
            b == self@.wf(),
    {
        self.i.is_canonical() && self.e.is_canonical()
    }

    /// Whether the history can be written with `u32` counts.
    pub fn counts_fit(&self) -> (b: bool)
        ensures
            b == self.fits(),
    {
        self.e.checked_max().is_some()
    }

    /// Whether the stamp can be joined with `other`.
    pub fn can_join(&self, other: &Stamp) -> (b: bool)
        ensures
            b == self.join_requires(other),
    {
        self.i.is_disjoint_from(&other.i) && self.counts_fit() && other.counts_fit()
    }

    /// Whether an event can be recorded in the stamp.
    pub fn can_event(&self) -> (b: bool)
        ensures
            b == self.event_requires(),
    {
        let below_limit = match self.e.checked_max() {
            None => false,
            Some(m) => m < u32::MAX,
        };
        self.i.is_canonical() && !self.i.same(&IdTree::zero()) && self.i.checked_height().is_some()
            && below_limit
    }

    /// Whether the stamp can receive `other`.
    pub fn can_receive(&self, other: &Stamp) -> (b: bool)
        ensures
            b == self.receive_requires(other),
    {
        let below_limit = match self.e.checked_max() {
            None => false,
            Some(m) => m < u32::MAX,
        };
        let other_below_limit = match other.e.checked_max() {
            None => false,
            Some(m) => m < u32::MAX,
        };
        let some_owner = !self.i.same(&IdTree::zero()) || !other.i.same(&IdTree::zero());
        self.i.is_disjoint_from(&other.i) && self.i.is_canonical() && other.i.is_canonical()
            && some_owner && self.i.checked_height().is_some() && other.i.checked_height().is_some()
            && below_limit && other_below_limit
    }

    /// A copy of the ownership tree.
    pub fn id_tree(&self) -> (r: IdTree)
        ensures
            r == self@.id,
    {
        self.i.clone()
    }

    /// A copy of the history.
    pub fn event_tree(&self) -> (r: EventTree)
        ensures
            r@ == self@.history,
    {
        self.e.clone()
    }

    /// Structural comparison; `==` on two stamps is this function.
    pub fn same(&self, other: &Stamp) -> (b: bool)
        ensures
            b == (*self == *other),
            b == (self@ == other@),
    {
        proof {
            if self@ == other@ {
                self.lemma_view_injective(*other);
            }
        }
        self.i.same(&other.i) && self.e.same(&other.e)
    }
}

impl Clone for Stamp {
    fn clone(&self) -> (r: Stamp)
        ensures
            r == *self,
    {
        Stamp { i: self.i.clone(), e: self.e.clone() }
    }
}

impl PartialEq for Stamp {
    fn eq(&self, other: &Stamp) -> (b: bool) {
        self.same(other)
    }
}

impl PartialEqSpecImpl for Stamp {
    open spec fn obeys_eq_spec() -> bool {
        true
    }

    open spec fn eq_spec(&self, other: &Stamp) -> bool {
        *self == *other
    }
}

impl Normalisable for Stamp {
    open spec fn norm_requires(&self) -> bool {
        self.fits()
    }

    /// Brings both trees into canonical form.
    fn norm(self) -> (r: Stamp)
        ensures
            r@ == self@.norm(),
            r.fits(),
    {
        Stamp::new(self.i.norm(), self.e.norm())
    }
}

impl LessThanOrEqual for Stamp {
    open spec fn leq_requires(&self, other: &Stamp) -> bool {
        self.fits() && other.fits()
    }

    /// The causal order: whether `self` has seen nothing that `other` has
    /// not.
    fn leq(&self, other: &Stamp) -> (b: bool)
        ensures
            b == self@.leq(other@),
    {
        self.e.leq(&other.e)
    }
}

impl IntervalTreeClock for Stamp {
    open spec fn join_requires(&self, other: &Stamp) -> bool {
        &&& self@.id.disjoint(other@.id)
        &&& self.fits()
        &&& other.fits()
    }

    open spec fn event_requires(&self) -> bool {
        &&& self@.id.is_normal()
        &&& self@.id != IdTree::empty()
        &&& self@.id.height() <= Cost::limit()
        &&& self@.history.max() < u32::MAX
    }

    open spec fn receive_requires(&self, other: &Stamp) -> bool {
        &&& self@.id.disjoint(other@.id)
        &&& self@.id.is_normal()
        &&& other@.id.is_normal()
        &&& self@.id != IdTree::empty() || other@.id != IdTree::empty()
        &&& self@.id.height() <= Cost::limit()
        &&& other@.id.height() <= Cost::limit()
        &&& self@.history.max() < u32::MAX
        &&& other@.history.max() < u32::MAX
    }

    /// A stamp that owns nothing and has this one's history, beside a copy
    /// of the stamp itself.
    fn peek(&self) -> (r: (Stamp, Stamp))
        ensures
            r.0@ == self@.peek().0,
            r.1@ == self@.peek().1,
    {
        let s1 = Stamp::new(IdTree::zero(), self.e.clone());
        let s2 = Stamp::new(self.i.clone(), self.e.clone());
        (s1, s2)
    }

    /// Two stamps that share the ownership of this one and both keep its
    /// history.
    fn fork(&self) -> (r: (Stamp, Stamp))
        ensures
            r.0@ == self@.fork().0,
            r.1@ == self@.fork().1,
            self@.leq(r.0@),
            self@.leq(r.1@),
            r.0@.id.disjoint(r.1@.id),
            r.0@.id.union(r.1@.id).normal_form() == self@.id.normal_form(),
            r.0@.id.height() <= self@.id.height() + 1,
            r.1@.id.height() <= self@.id.height() + 1,
            self@.id.is_normal() ==> r.0@.id.is_normal() && r.1@.id.is_normal(),
            self@.id.is_normal() && self@.owns_some() ==> r.0@.owns_some() && r.1@.owns_some(),
    {
        proof {
            self@.lemma_fork_ancestry();
            self@.id.lemma_halves_height();
            if self@.id.is_normal() {
                self@.id.lemma_halves_normal();
            }
        }
        let (left, right) = self.i.split_pair();
        let s1 = Stamp::new(left, self.e.clone());
        let s2 = Stamp::new(right, self.e.clone());
        (s1, s2)
    }

    /// The stamp that owns what either stamp owns and has seen what either
    /// has seen.
    fn join(&self, other: &Stamp) -> (r: Stamp)
        ensures
            r@ == self@.join(other@),
            self@.leq(r@),
            other@.leq(r@),
            self@.id.is_normal() && other@.id.is_normal() ==> r@.wf(),
            r@.history.is_normal(),
            r@.id.height() <= self@.id.height() || r@.id.height() <= other@.id.height(),
            r@.history.max() <= self@.history.max() || r@.history.max() <= other@.history.max(),
            r.fits(),
    {
        proof {
            self@.lemma_join_dominates(other@);
            self@.id.lemma_union_height(other@.id);
            self@.history.lemma_join_bounds(other@.history);
        }
        let sum_i = self.i.sum(&other.i);
        let join_e = self.e.join(&other.e);
        Stamp::new(sum_i, join_e)
    }

    /// The stamp after one more event of its owner.
    fn event(&self) -> (r: Stamp)
        ensures
            r@ == self@.event(),
            self@.leq(r@),
            r@ != self@,
            self@.history.is_normal() ==> r@.wf() && !r@.leq(self@),
            r@.history.max() <= self@.history.max() + 1,
            r.fits(),
    {
        proof {
            lemma_advance_progresses(self@.id, self@.history);
            if self@.history.is_normal() {
                lemma_advance_normal(self@.id, self@.history);
            }
        }
        let filled_e = self.fill();
        if !filled_e.same(&self.e) {
            Stamp::new(self.i.clone(), filled_e)
        } else {
            let (eprime, _c) = self.grow();
            Stamp::new(self.i.clone(), eprime)
        }
    }

    /// An event, then a message that carries the new history, beside the
    /// stamp that the sender keeps.
    fn send(&self) -> (r: (Stamp, Stamp))
        ensures
            r.0@ == self@.send().0,
            r.1@ == self@.send().1,
            self@.leq(r.0@),
            self@.leq(r.1@),
            r.1@ != self@,
    {
        self.event().peek()
    }

    /// Takes in what a message brought, then records an event.
    fn receive(&self, other: &Stamp) -> (r: Stamp)
        ensures
            r@ == self@.receive(other@),
            self@.leq(r@),
            other@.leq(r@),
            r.fits(),
    {
        proof {
            self@.id.lemma_union_height(other@.id);
            self@.history.lemma_join_bounds(other@.history);
            if self@.id.union(other@.id) == IdTree::empty() {
                self@.id.lemma_union_empty(other@.id);
            }
        }
        let joined = self.join(other);
        let r = joined.event();
        proof {
            self@.lemma_leq_transitive(joined@, r@);
            other@.lemma_leq_transitive(joined@, r@);
        }
        r
    }

    /// Joins two stamps and forks the result.
    fn sync(&self, other: &Stamp) -> (r: (Stamp, Stamp))
        ensures
            r.0@ == self@.sync(other@).0,
            r.1@ == self@.sync(other@).1,
            self@.leq(r.0@),
            other@.leq(r.0@),
            self@.leq(r.1@),
            other@.leq(r.1@),
    {
        self.join(other).fork()
    }
}

} // verus!
