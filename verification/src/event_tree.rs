//! Event trees: histories with `u32` counts. The view of an event tree is
//! its `Counts`, and every operation returns what the operation of the same
//! name on `Counts` gives, as long as all counts can be written as `u32`s.

use vstd::prelude::*;
use vstd::std_specs::cmp::PartialEqSpecImpl;

use crate::counts::{greater, Counts};
use crate::ops::{LessThanOrEqual, Max, Min, Normalisable};
use crate::position::Position;

verus! {

/// The causal history that a replica has seen, over the whole identity
/// space: how many events are known at each position.
///
/// A leaf holds one count for its whole interval. A node holds a base that
/// counts for both halves of its interval, and a child for each half.
#[derive(Debug)]
pub enum EventTree {
    Leaf { n: u32 },
    Node { n: u32, left: Box<EventTree>, right: Box<EventTree> },
}

impl View for EventTree {
    type V = Counts;

    open spec fn view(&self) -> Counts {
        self.counts()
    }
}

impl EventTree {
    /// The counts that the tree holds, as unbounded numbers. This is the
    /// tree's view.
    pub open spec fn counts(&self) -> Counts
        decreases self,
    {
        match self {
            EventTree::Leaf { n } => Counts::Leaf { n: *n as nat },
            EventTree::Node { n, left, right } => Counts::Node {
                n: *n as nat,
                left: Box::new(left.counts()),
                right: Box::new(right.counts()),
            },
        }
    }

    /// Every count that the tree holds can be written as a `u32`.
    pub open spec fn fits(&self) -> bool {
        self@.max() <= u32::MAX
    }

    /// Trees that hold the same counts in the same shape are the same tree.
    pub proof fn lemma_view_injective(self, other: EventTree)
        requires
            self@ == other@,
        ensures
            self == other,
        decreases self,
    {
        match (self, other) {
            (
                EventTree::Node { left: l1, right: r1, .. },
                EventTree::Node { left: l2, right: r2, .. },
            ) => {
                l1.lemma_view_injective(*l2);
                r1.lemma_view_injective(*r2);
            },
            _ => {},
        }
    }

    /// The numbers that a tree holds are `u32`s.
    pub proof fn lemma_view_storable(self)
        ensures
            self@.storable(),
        decreases self,
    {
        match self {
            EventTree::Leaf { .. } => {},
            EventTree::Node { left, right, .. } => {
                left.lemma_view_storable();
                right.lemma_view_storable();
            },
        }
    }

    /// The history in which nothing has happened.
    pub fn zero() -> (r: EventTree)
        ensures
            r == (EventTree::Leaf { n: 0 }),
            r@ == Counts::leaf(0),
    {
        EventTree::Leaf { n: 0 }
    }

    /// The history with `n` events at every position.
    pub fn leaf(n: u32) -> (r: EventTree)
        ensures
            r == (EventTree::Leaf { n }),
            r@ == Counts::leaf(n as nat),
    {
        EventTree::Leaf { n }
    }

    /// The history with base `n` over `left` and `right`.
    pub fn node(n: u32, left: Box<EventTree>, right: Box<EventTree>) -> (r: EventTree)
        ensures
            r == (EventTree::Node { n, left, right }),
            r@ == Counts::node(n as nat, left@, right@),
    {
        EventTree::Node { n, left, right }
    }

    /// The number at the root: a leaf's count, a node's base.
    pub fn n(&self) -> (r: u32)
        ensures
            r == self@.base(),
    {
        match self {
            EventTree::Leaf { n } => *n,
            EventTree::Node { n, .. } => *n,
        }
    }

    /// Adds `m` at the root, and so at every position.
    pub fn lift(self, m: u32) -> (r: EventTree)
        requires
            self@.base() + m <= u32::MAX,
        ensures
            r@ == self@.lift(m as nat),
    {
        match self {
            EventTree::Leaf { n } => EventTree::leaf(n + m),
            EventTree::Node { n, left, right } => EventTree::node(n + m, left, right),
        }
    }

    /// Takes `m` away at the root, and so at every position.
    pub fn sink(self, m: u32) -> (r: EventTree)
        requires
            m <= self@.base(),
        ensures
            r@ == self@.sink(m as nat),
    {
        match self {
            EventTree::Leaf { n } => EventTree::leaf(n - m),
            EventTree::Node { n, left, right } => EventTree::node(n - m, left, right),
        }
    }

    /// The join of `self` lifted by `up` with `other` lifted by `other_up`.
    fn join_from(&self, up: u32, other: &EventTree, other_up: u32) -> (r: EventTree)
        requires
            self@.max() + up <= u32::MAX,
            other@.max() + other_up <= u32::MAX,
        ensures
            r@ == self@.lift(up as nat).join(other@.lift(other_up as nat)),
            r.fits(),
        decreases self@.height() + other@.height(), 1nat,
    {
        let ghost a = self@.lift(up as nat);
        let ghost b = other@.lift(other_up as nat);
        proof {
            self@.lemma_lift_at(up as nat, Seq::empty());
            other@.lemma_lift_at(other_up as nat, Seq::empty());
            self@.lemma_at_bounds(Seq::empty());
            other@.lemma_at_bounds(Seq::empty());
        }
        let b1: u32 = self.n() + up;
        let b2: u32 = other.n() + other_up;
        let m: u32 = if b1 <= b2 { b1 } else { b2 };
        match self {
            EventTree::Leaf { .. } => match other {
                EventTree::Leaf { .. } => EventTree::leaf(if b1 >= b2 { b1 } else { b2 }),
                EventTree::Node { left: left2, right: right2, .. } => {
                    let leaf1 = EventTree::leaf(b1 - m);
                    proof {
                        a.lemma_join_parts(b, m as nat);
                        left2@.lemma_lift_sink(b2 as nat, m as nat);
                        right2@.lemma_lift_sink(b2 as nat, m as nat);
                        leaf1@.lemma_half_max();
                    }
                    EventTree::join_parts(m, &leaf1, &leaf1, 0, left2, right2, b2 - m)
                },
            },
            EventTree::Node { left: left1, right: right1, .. } => match other {
                EventTree::Leaf { .. } => {
                    let leaf2 = EventTree::leaf(b2 - m);
                    proof {
                        a.lemma_join_parts(b, m as nat);
                        left1@.lemma_lift_sink(b1 as nat, m as nat);
                        right1@.lemma_lift_sink(b1 as nat, m as nat);
                        leaf2@.lemma_half_max();
                    }
                    EventTree::join_parts(m, left1, right1, b1 - m, &leaf2, &leaf2, 0)
                },
                EventTree::Node { left: left2, right: right2, .. } => {
                    proof {
                        a.lemma_join_parts(b, m as nat);
                        left1@.lemma_lift_sink(b1 as nat, m as nat);
                        right1@.lemma_lift_sink(b1 as nat, m as nat);
                        left2@.lemma_lift_sink(b2 as nat, m as nat);
                        right2@.lemma_lift_sink(b2 as nat, m as nat);
                    }
                    EventTree::join_parts(m, left1, right1, b1 - m, left2, right2, b2 - m)
                },
            },
        }
    }

    /// The canonical form of the node with base `m` over the join of the two
    /// left trees and the join of the two right trees, the first pair lifted
    /// by `up1` and the second by `up2`.
    fn join_parts(
        m: u32,
        left1: &EventTree,
        right1: &EventTree,
        up1: u32,
        left2: &EventTree,
        right2: &EventTree,
        up2: u32,
    ) -> (r: EventTree)
        requires
            left1@.max() + up1 + m <= u32::MAX,
            right1@.max() + up1 + m <= u32::MAX,
            left2@.max() + up2 + m <= u32::MAX,
            right2@.max() + up2 + m <= u32::MAX,
        ensures
            r@ == Counts::node(
                m as nat,
                left1@.lift(up1 as nat).join(left2@.lift(up2 as nat)),
                right1@.lift(up1 as nat).join(right2@.lift(up2 as nat)),
            ).norm(),
            r.fits(),
        decreases
            greater(left1@.height() + left2@.height(), right1@.height() + right2@.height()),
            2nat,
    {
        proof {
            left1@.lemma_lift_at(up1 as nat, Seq::empty());
            right1@.lemma_lift_at(up1 as nat, Seq::empty());
            left2@.lemma_lift_at(up2 as nat, Seq::empty());
            right2@.lemma_lift_at(up2 as nat, Seq::empty());
            left1@.lift(up1 as nat).lemma_join_bounds(left2@.lift(up2 as nat));
            right1@.lift(up1 as nat).lemma_join_bounds(right2@.lift(up2 as nat));
        }
        let new_left = left1.join_from(up1, left2, up2);
        let new_right = right1.join_from(up1, right2, up2);
        EventTree::node(m, Box::new(new_left), Box::new(new_right)).norm()
    }

    /// The pointwise greater of two trees, in canonical form.
    pub fn join(&self, other: &EventTree) -> (r: EventTree)
        requires
            self.fits(),
            other.fits(),
        ensures
            r@ == self@.join(other@),
            r@.is_normal(),
            forall|p: Position| r@.at(p) == greater(self@.at(p), other@.at(p)),
            r.fits(),
    {
        proof {
            self@.lemma_half_max();
            other@.lemma_half_max();
            self@.lemma_join_bounds(other@);
            assert forall|p: Position|
                self@.join(other@).at(p) == greater(self@.at(p), other@.at(p)) by {
                self@.lemma_join_at(other@, p);
            }
        }
        self.join_from(0, other, 0)
    }

    /// Whether `self` lifted by `up` is below `other` lifted by `other_up`.
    fn leq_from(&self, up: u32, other: &EventTree, other_up: u32) -> (b: bool)
        requires
            self@.max() + up <= u32::MAX,
            other@.max() + other_up <= u32::MAX,
        ensures
            b == self@.lift(up as nat).leq(other@.lift(other_up as nat)),
        decreases *self,
    {
        proof {
            self@.lemma_at_bounds(Seq::empty());
            other@.lemma_at_bounds(Seq::empty());
        }
        let b1: u32 = self.n() + up;
        let b2: u32 = other.n() + other_up;
        match self {
            EventTree::Leaf { .. } => b1 <= b2,
            EventTree::Node { left: left1, right: right1, .. } => {
                let (left2, right2, up2): (&EventTree, &EventTree, u32) = match other {
                    EventTree::Leaf { .. } => (other, other, other_up),
                    EventTree::Node { left, right, .. } => (&**left, &**right, b2),
                };
                proof {
                    let a = self@.lift(up as nat);
                    let b = other@.lift(other_up as nat);
                    assert(left1@.lift(b1 as nat) == a.left_half());
                    assert(right1@.lift(b1 as nat) == a.right_half());
                    assert(left2@.lift(up2 as nat) == b.left_half());
                    assert(right2@.lift(up2 as nat) == b.right_half());
                }
                b1 <= b2 && left1.leq_from(b1, left2, up2) && right1.leq_from(b1, right2, up2)
            },
        }
    }

    /// Whether the tree is in canonical form.
    pub fn is_canonical(&self) -> (b: bool)
        ensures
            b == self@.is_normal(),
        decreases *self,
    {
        match self {
            EventTree::Leaf { .. } => true,
            EventTree::Node { left, right, .. } => {
                let twins = match &**left {
                    EventTree::Leaf { n: m1 } => match &**right {
                        EventTree::Leaf { n: m2 } => *m1 == *m2,
                        EventTree::Node { .. } => false,
                    },
                    EventTree::Node { .. } => false,
                };
                let one_is_zero = left.n() == 0 || right.n() == 0;
                !twins && one_is_zero && left.is_canonical() && right.is_canonical()
            },
        }
    }

    /// The greatest count at any position, if it is a `u32`.
    pub fn checked_max(&self) -> (r: Option<u32>)
        ensures
            match r {
                Some(m) => m == self@.max(),
                None => self@.max() > u32::MAX,
            },
        decreases *self,
    {
        match self {
            EventTree::Leaf { n } => Some(*n),
            EventTree::Node { n, left, right } => {
                let l = match left.checked_max() {
                    None => {
                        return None;
                    },
                    Some(m) => m,
                };
                let r = match right.checked_max() {
                    None => {
                        return None;
                    },
                    Some(m) => m,
                };
                let greater_child: u32 = if l >= r { l } else { r };
                if greater_child > u32::MAX - *n {
                    None
                } else {
                    Some(*n + greater_child)
                }
            },
        }
    }

    /// Structural comparison; `==` on two trees is this function.
    pub fn same(&self, other: &EventTree) -> (b: bool)
        ensures
            b == (*self == *other),
            b == (self@ == other@),
        decreases *self,
    {
        proof {
            if self@ == other@ {
                self.lemma_view_injective(*other);
            }
        }
        match self {
            EventTree::Leaf { n } => match other {
                EventTree::Leaf { n: n2 } => *n == *n2,
                EventTree::Node { .. } => false,
            },
            EventTree::Node { n, left, right } => match other {
                EventTree::Leaf { .. } => false,
                EventTree::Node { n: n2, left: l2, right: r2 } => {
                    *n == *n2 && left.same(l2) && right.same(r2)
                },
            },
        }
    }
}

impl Clone for EventTree {
    fn clone(&self) -> (r: EventTree)
        ensures
            r == *self,
        decreases *self,
    {
        match self {
            EventTree::Leaf { n } => EventTree::Leaf { n: *n },
            EventTree::Node { n, left, right } => EventTree::Node {
                n: *n,
                left: Box::new((**left).clone()),
                right: Box::new((**right).clone()),
            },
        }
    }
}

impl PartialEq for EventTree {
    fn eq(&self, other: &EventTree) -> (b: bool) {
        self.same(other)
    }
}

impl PartialEqSpecImpl for EventTree {
    open spec fn obeys_eq_spec() -> bool {
        true
    }

    open spec fn eq_spec(&self, other: &EventTree) -> bool {
        *self == *other
    }
}

impl Min<u32> for EventTree {
    open spec fn min_requires(&self) -> bool {
        self.fits()
    }

    /// The least count at any position.
    fn min(&self) -> (r: u32)
        ensures
            r == self@.min(),
        decreases *self,
    {
        match self {
            EventTree::Leaf { n } => *n,
            EventTree::Node { n, left, right } => {
                proof {
                    left@.lemma_at_bounds(Seq::empty());
                    right@.lemma_at_bounds(Seq::empty());
                }
                let l = left.min();
                let r = right.min();
                if l <= r {
                    *n + l
                } else {
                    *n + r
                }
            },
        }
    }
}

impl Max<u32> for EventTree {
    open spec fn max_requires(&self) -> bool {
        self.fits()
    }

    /// The greatest count at any position.
    fn max(&self) -> (r: u32)
        ensures
            r == self@.max(),
        decreases *self,
    {
        match self {
            EventTree::Leaf { n } => *n,
            EventTree::Node { n, left, right } => {
                let l = left.max();
                let r = right.max();
                if l >= r {
                    *n + l
                } else {
                    *n + r
                }
            },
        }
    }
}

impl Normalisable for EventTree {
    open spec fn norm_requires(&self) -> bool {
        self.fits()
    }

    /// Brings the tree into canonical form.
    fn norm(self) -> (r: EventTree)
        ensures
            r@ == self@.norm(),
            r@.is_normal(),
            r@.alike(self@),
            r.fits(),
        decreases self,
    {
        proof {
            self@.lemma_norm_is_normal();
            self@.lemma_norm_bounds();
        }
        match self {
            EventTree::Leaf { n } => EventTree::Leaf { n },
            EventTree::Node { n, left, right } => {
                let norm_left = (*left).norm();
                let norm_right = (*right).norm();
                proof {
                    left@.lemma_norm_bounds();
                    right@.lemma_norm_bounds();
                    norm_left@.lemma_at_bounds(Seq::empty());
                    norm_right@.lemma_at_bounds(Seq::empty());
                }
                if let EventTree::Leaf { n: m1 } = norm_left {
                    if let EventTree::Leaf { n: m2 } = norm_right {
                        if m1 == m2 {
                            return EventTree::leaf(n + m1);
                        }
                    }
                }
                let min_left = norm_left.n();
                let min_right = norm_right.n();
                let m = if min_left <= min_right {
                    min_left
                } else {
                    min_right
                };
                EventTree::node(n + m, Box::new(norm_left.sink(m)), Box::new(norm_right.sink(m)))
            },
        }
    }
}

impl LessThanOrEqual for EventTree {
    open spec fn leq_requires(&self, other: &EventTree) -> bool {
        self.fits() && other.fits()
    }

    /// The causal order: whether `self` holds no more than `other`.
    fn leq(&self, other: &EventTree) -> (b: bool)
        ensures
            b == self@.leq(other@),
            b ==> self@.below(other@),
            other@.is_normal() ==> b == self@.below(other@),
    {
        proof {
            self@.lemma_half_max();
            other@.lemma_half_max();
            if self@.leq(other@) {
                self@.lemma_leq_below(other@);
            }
            if other@.is_normal() && self@.below(other@) {
                self@.lemma_below_leq(other@);
            }
        }
        self.leq_from(0, other, 0)
    }
}

} // verus!
