//! Ownership trees.
//!
//! What a tree means is given by `owns`: the set of positions that it owns.
//! Two trees that own the same positions have the same canonical form, and
//! the operations are characterised by the positions that their results own.

use vstd::prelude::*;
use vstd::std_specs::cmp::PartialEqSpecImpl;

use crate::ops::{Normalisable, Split, Sum};
use crate::position::{lemma_through, onward, through, turns_right, Position};

verus! {

/// Which part of the identity space a replica owns.
///
/// The identity space is the unit interval, halved again and again. A leaf
/// says that the whole of its interval is owned (`true`) or not (`false`); a
/// node divides its interval between its two children.
#[derive(Debug)]
pub enum IdTree {
    Leaf { i: bool },
    Node { left: Box<IdTree>, right: Box<IdTree> },
}

impl IdTree {
    /// The tree that owns nothing.
    pub open spec fn empty() -> IdTree {
        IdTree::Leaf { i: false }
    }

    /// The tree that owns everything.
    pub open spec fn full() -> IdTree {
        IdTree::Leaf { i: true }
    }

    /// The tree that divides its interval between `left` and `right`.
    pub open spec fn branch(left: IdTree, right: IdTree) -> IdTree {
        IdTree::Node { left: Box::new(left), right: Box::new(right) }
    }

    /// Whether the tree owns position `p`.
    pub open spec fn owns(self, p: Position) -> bool
        decreases self,
    {
        match self {
            IdTree::Leaf { i } => i,
            IdTree::Node { left, right } => if turns_right(p) {
                right.owns(onward(p))
            } else {
                left.owns(onward(p))
            },
        }
    }

    /// The number of nodes on the longest way from the root to a leaf.
    pub open spec fn height(self) -> nat
        decreases self,
    {
        match self {
            IdTree::Leaf { .. } => 0,
            IdTree::Node { left, right } => if left.height() >= right.height() {
                left.height() + 1
            } else {
                right.height() + 1
            },
        }
    }

    /// Canonical form: no node has two equal leaves as its children.
    pub open spec fn is_normal(self) -> bool
        decreases self,
    {
        match self {
            IdTree::Leaf { .. } => true,
            IdTree::Node { left, right } => {
                &&& left.is_normal()
                &&& right.is_normal()
                &&& !(*left is Leaf && *left == *right)
            },
        }
    }

    /// The canonical form of the tree: every node whose children come out as
    /// two equal leaves is replaced by that leaf.
    pub open spec fn normal_form(self) -> IdTree
        decreases self,
    {
        match self {
            IdTree::Leaf { .. } => self,
            IdTree::Node { left, right } => {
                let l = left.normal_form();
                let r = right.normal_form();
                if l is Leaf && l == r {
                    l
                } else {
                    IdTree::branch(l, r)
                }
            },
        }
    }

    /// The two shares into which the tree is split.
    ///
    /// Nothing splits into nothing twice. Everything splits into its left
    /// half and its right half. Where one child of a node is the empty leaf,
    /// the other child is split and each share keeps the empty leaf beside
    /// it; otherwise one share takes the left child and the other the right.
    pub open spec fn halves(self) -> (IdTree, IdTree)
        decreases self,
    {
        match self {
            IdTree::Leaf { i } => if i {
                (
                    IdTree::branch(IdTree::full(), IdTree::empty()),
                    IdTree::branch(IdTree::empty(), IdTree::full()),
                )
            } else {
                (IdTree::empty(), IdTree::empty())
            },
            IdTree::Node { left, right } => if *left == IdTree::empty() {
                let h = right.halves();
                (IdTree::branch(IdTree::empty(), h.0), IdTree::branch(IdTree::empty(), h.1))
            } else if *right == IdTree::empty() {
                let h = left.halves();
                (IdTree::branch(h.0, IdTree::empty()), IdTree::branch(h.1, IdTree::empty()))
            } else {
                (IdTree::branch(*left, IdTree::empty()), IdTree::branch(IdTree::empty(), *right))
            },
        }
    }

    /// Two trees that can be told apart shape by shape: wherever one of them
    /// owns anything, the other has the empty leaf.
    pub open spec fn disjoint(self, other: IdTree) -> bool
        decreases self,
    {
        ||| self == IdTree::empty()
        ||| other == IdTree::empty()
        ||| {
            &&& self matches IdTree::Node { left: l1, right: r1 }
            &&& other matches IdTree::Node { left: l2, right: r2 }
            &&& l1.disjoint(*l2)
            &&& r1.disjoint(*r2)
        }
    }

    /// The two trees put together: where one of them is the empty leaf, the
    /// other; else the unions of their children under one node, in canonical
    /// form. Meant for disjoint trees.
    pub open spec fn union(self, other: IdTree) -> IdTree
        decreases self,
    {
        if self == IdTree::empty() {
            other
        } else if other == IdTree::empty() {
            self
        } else {
            match (self, other) {
                (IdTree::Node { left: l1, right: r1 }, IdTree::Node { left: l2, right: r2 }) => {
                    IdTree::branch(l1.union(*l2), r1.union(*r2)).normal_form()
                },
                _ => self,
            }
        }
    }

    /// A leaf that owns its whole interval, or nothing of it.
    pub fn leaf(i: bool) -> (r: IdTree)
        ensures
            r == (IdTree::Leaf { i }),
    {
        IdTree::Leaf { i }
    }

    /// The tree that owns nothing.
    pub fn zero() -> (r: IdTree)
        ensures
            r == IdTree::empty(),
    {
        IdTree::Leaf { i: false }
    }

    /// The tree that owns everything.
    pub fn one() -> (r: IdTree)
        ensures
            r == IdTree::full(),
    {
        IdTree::Leaf { i: true }
    }

    /// The tree that divides its interval between `left` and `right`.
    pub fn node(left: Box<IdTree>, right: Box<IdTree>) -> (r: IdTree)
        ensures
            r == IdTree::branch(*left, *right),
    {
        IdTree::Node { left, right }
    }

    /// The canonical form is canonical.
    pub proof fn lemma_normal_form_is_normal(self)
        ensures
            self.normal_form().is_normal(),
        decreases self,
    {
        match self {
            IdTree::Leaf { .. } => {},
            IdTree::Node { left, right } => {
                left.lemma_normal_form_is_normal();
                right.lemma_normal_form_is_normal();
            },
        }
    }

    /// The canonical form owns what the tree owns.
    pub proof fn lemma_normal_form_owns(self, p: Position)
        ensures
            self.normal_form().owns(p) == self.owns(p),
        decreases self,
    {
        match self {
            IdTree::Leaf { .. } => {},
            IdTree::Node { left, right } => {
                left.lemma_normal_form_owns(onward(p));
                right.lemma_normal_form_owns(onward(p));
            },
        }
    }

    /// A canonical tree is its own canonical form.
    pub proof fn lemma_normal_is_fixed(self)
        requires
            self.is_normal(),
        ensures
            self.normal_form() == self,
        decreases self,
    {
        match self {
            IdTree::Leaf { .. } => {},
            IdTree::Node { left, right } => {
                left.lemma_normal_is_fixed();
                right.lemma_normal_is_fixed();
            },
        }
    }

    /// Bringing a tree into canonical form twice is the same as doing so once.
    pub proof fn lemma_norm_idempotent(self)
        ensures
            self.normal_form().normal_form() == self.normal_form(),
    {
        self.lemma_normal_form_is_normal();
        self.normal_form().lemma_normal_is_fixed();
    }

    /// A canonical tree that owns every position, or none, is a leaf.
    pub proof fn lemma_normal_constant(self, b: bool)
        requires
            self.is_normal(),
            forall|p: Position| self.owns(p) == b,
        ensures
            self == (IdTree::Leaf { i: b }),
        decreases self,
    {
        match self {
            IdTree::Leaf { i } => {
                assert(self.owns(Seq::empty()) == b);
            },
            IdTree::Node { left, right } => {
                assert forall|p: Position| left.owns(p) == b by {
                    lemma_through(false, p);
                    assert(self.owns(through(false, p)) == b);
                }
                assert forall|p: Position| right.owns(p) == b by {
                    lemma_through(true, p);
                    assert(self.owns(through(true, p)) == b);
                }
                left.lemma_normal_constant(b);
                right.lemma_normal_constant(b);
            },
        }
    }

    /// Two canonical trees that own the same positions are the same tree.
    pub proof fn lemma_normal_unique(self, other: IdTree)
        requires
            self.is_normal(),
            other.is_normal(),
            forall|p: Position| self.owns(p) == other.owns(p),
        ensures
            self == other,
        decreases self,
    {
        match self {
            IdTree::Leaf { i } => {
                assert forall|p: Position| other.owns(p) == i by {
                    assert(self.owns(p) == i);
                }
                other.lemma_normal_constant(i);
            },
            IdTree::Node { left, right } => {
                match other {
                    IdTree::Leaf { i } => {
                        assert forall|p: Position| self.owns(p) == i by {
                            assert(other.owns(p) == i);
                        }
                        self.lemma_normal_constant(i);
                    },
                    IdTree::Node { left: l2, right: r2 } => {
                        assert forall|p: Position| left.owns(p) == l2.owns(p) by {
                            lemma_through(false, p);
                            assert(self.owns(through(false, p)) == other.owns(through(false, p)));
                        }
                        assert forall|p: Position| right.owns(p) == r2.owns(p) by {
                            lemma_through(true, p);
                            assert(self.owns(through(true, p)) == other.owns(through(true, p)));
                        }
                        left.lemma_normal_unique(*l2);
                        right.lemma_normal_unique(*r2);
                    },
                }
            },
        }
    }

    /// The two shares of a split have no position in common, and between
    /// them own what the tree owns.
    pub proof fn lemma_halves_owns(self, p: Position)
        ensures
            self.owns(p) == (self.halves().0.owns(p) || self.halves().1.owns(p)),
            !(self.halves().0.owns(p) && self.halves().1.owns(p)),
        decreases self,
    {
        reveal_with_fuel(IdTree::owns, 3);
        match self {
            IdTree::Leaf { .. } => {},
            IdTree::Node { left, right } => {
                left.lemma_halves_owns(onward(p));
                right.lemma_halves_owns(onward(p));
            },
        }
    }

    /// The two shares of a split are disjoint.
    pub proof fn lemma_halves_disjoint(self)
        ensures
            self.halves().0.disjoint(self.halves().1),
        decreases self,
    {
        reveal_with_fuel(IdTree::disjoint, 3);
        match self {
            IdTree::Leaf { .. } => {},
            IdTree::Node { left, right } => {
                left.lemma_halves_disjoint();
                right.lemma_halves_disjoint();
            },
        }
    }

    /// Neither share of a split is higher than the tree by more than one node.
    pub proof fn lemma_halves_height(self)
        ensures
            self.halves().0.height() <= self.height() + 1,
            self.halves().1.height() <= self.height() + 1,
        decreases self,
    {
        reveal_with_fuel(IdTree::height, 3);
        match self {
            IdTree::Leaf { .. } => {},
            IdTree::Node { left, right } => {
                left.lemma_halves_height();
                right.lemma_halves_height();
            },
        }
    }

    /// Splitting a canonical tree that owns something gives two canonical
    /// shares that each own something.
    pub proof fn lemma_halves_normal(self)
        requires
            self.is_normal(),
        ensures
            self.halves().0.is_normal(),
            self.halves().1.is_normal(),
            self != IdTree::empty() ==> self.halves().0 != IdTree::empty() && self.halves().1
                != IdTree::empty(),
        decreases self,
    {
        reveal_with_fuel(IdTree::is_normal, 3);
        match self {
            IdTree::Leaf { .. } => {},
            IdTree::Node { left, right } => {
                left.lemma_halves_normal();
                right.lemma_halves_normal();
            },
        }
    }

    /// Disjoint trees have no position in common.
    pub proof fn lemma_disjoint_owns(self, other: IdTree, p: Position)
        requires
            self.disjoint(other),
        ensures
            !(self.owns(p) && other.owns(p)),
        decreases self,
    {
        if self != IdTree::empty() && other != IdTree::empty() {
            match (self, other) {
                (IdTree::Node { left: l1, right: r1 }, IdTree::Node { left: l2, right: r2 }) => {
                    l1.lemma_disjoint_owns(*l2, onward(p));
                    r1.lemma_disjoint_owns(*r2, onward(p));
                },
                _ => {},
            }
        }
    }

    /// Canonical trees with no position in common are disjoint.
    pub proof fn lemma_normal_disjoint(self, other: IdTree)
        requires
            self.is_normal(),
            other.is_normal(),
            forall|p: Position| !(self.owns(p) && other.owns(p)),
        ensures
            self.disjoint(other),
        decreases self,
    {
        if self != IdTree::empty() && other != IdTree::empty() {
            match self {
                IdTree::Leaf { i } => {
                    assert forall|p: Position| other.owns(p) == false by {
                        assert(self.owns(p));
                    }
                    other.lemma_normal_constant(false);
                },
                IdTree::Node { left: l1, right: r1 } => {
                    match other {
                        IdTree::Leaf { i } => {
                            assert forall|p: Position| self.owns(p) == false by {
                                assert(other.owns(p));
                            }
                            self.lemma_normal_constant(false);
                        },
                        IdTree::Node { left: l2, right: r2 } => {
                            assert forall|p: Position| !(l1.owns(p) && l2.owns(p)) by {
                                lemma_through(false, p);
                                let q = through(false, p);
                                assert(!(self.owns(q) && other.owns(q)));
                            }
                            assert forall|p: Position| !(r1.owns(p) && r2.owns(p)) by {
                                lemma_through(true, p);
                                let q = through(true, p);
                                assert(!(self.owns(q) && other.owns(q)));
                            }
                            l1.lemma_normal_disjoint(*l2);
                            r1.lemma_normal_disjoint(*r2);
                        },
                    }
                },
            }
        }
    }

    /// Disjointness does not depend on the order of the two trees.
    pub proof fn lemma_disjoint_symmetric(self, other: IdTree)
        requires
            self.disjoint(other),
        ensures
            other.disjoint(self),
        decreases self,
    {
        if self != IdTree::empty() && other != IdTree::empty() {
            match (self, other) {
                (IdTree::Node { left: l1, right: r1 }, IdTree::Node { left: l2, right: r2 }) => {
                    l1.lemma_disjoint_symmetric(*l2);
                    r1.lemma_disjoint_symmetric(*r2);
                },
                _ => {},
            }
        }
    }

    /// The union of two disjoint trees owns what either of them owns.
    pub proof fn lemma_union_owns(self, other: IdTree, p: Position)
        requires
            self.disjoint(other),
        ensures
            self.union(other).owns(p) == (self.owns(p) || other.owns(p)),
        decreases self,
    {
        if self != IdTree::empty() && other != IdTree::empty() {
            match (self, other) {
                (IdTree::Node { left: l1, right: r1 }, IdTree::Node { left: l2, right: r2 }) => {
                    l1.lemma_union_owns(*l2, onward(p));
                    r1.lemma_union_owns(*r2, onward(p));
                    IdTree::branch(l1.union(*l2), r1.union(*r2)).lemma_normal_form_owns(p);
                },
                _ => {},
            }
        }
    }

    /// The union of two canonical trees is canonical.
    pub proof fn lemma_union_normal(self, other: IdTree)
        requires
            self.is_normal(),
            other.is_normal(),
        ensures
            self.union(other).is_normal(),
    {
        if self != IdTree::empty() && other != IdTree::empty() {
            match (self, other) {
                (IdTree::Node { left: l1, right: r1 }, IdTree::Node { left: l2, right: r2 }) => {
                    IdTree::branch(l1.union(*l2), r1.union(*r2)).lemma_normal_form_is_normal();
                },
                _ => {},
            }
        }
    }

    /// The union of two disjoint canonical trees owns nothing only if neither
    /// of them owns anything.
    pub proof fn lemma_union_empty(self, other: IdTree)
        requires
            self.disjoint(other),
            self.is_normal(),
            other.is_normal(),
            self.union(other) == IdTree::empty(),
        ensures
            self == IdTree::empty(),
            other == IdTree::empty(),
    {
        assert forall|p: Position| self.owns(p) == false by {
            self.lemma_union_owns(other, p);
        }
        assert forall|p: Position| other.owns(p) == false by {
            self.lemma_union_owns(other, p);
        }
        self.lemma_normal_constant(false);
        other.lemma_normal_constant(false);
    }

    /// The union of two disjoint trees is, up to canonical form, the same in
    /// either order.
    pub proof fn lemma_union_commutes(self, other: IdTree)
        requires
            self.disjoint(other),
        ensures
            other.disjoint(self),
            self.union(other).normal_form() == other.union(self).normal_form(),
    {
        self.lemma_disjoint_symmetric(other);
        let a = self.union(other);
        let b = other.union(self);
        a.lemma_normal_form_is_normal();
        b.lemma_normal_form_is_normal();
        assert forall|p: Position| a.normal_form().owns(p) == b.normal_form().owns(p) by {
            a.lemma_normal_form_owns(p);
            b.lemma_normal_form_owns(p);
            self.lemma_union_owns(other, p);
            other.lemma_union_owns(self, p);
        }
        a.normal_form().lemma_normal_unique(b.normal_form());
    }

    /// The union of two trees is no higher than the higher of them.
    pub proof fn lemma_union_height(self, other: IdTree)
        ensures
            self.union(other).height() <= self.height() || self.union(other).height()
                <= other.height(),
        decreases self,
    {
        if self != IdTree::empty() && other != IdTree::empty() {
            match (self, other) {
                (IdTree::Node { left: l1, right: r1 }, IdTree::Node { left: l2, right: r2 }) => {
                    l1.lemma_union_height(*l2);
                    r1.lemma_union_height(*r2);
                    IdTree::branch(l1.union(*l2), r1.union(*r2)).lemma_normal_form_height();
                },
                _ => {},
            }
        }
    }

    /// The canonical form is no higher than the tree.
    pub proof fn lemma_normal_form_height(self)
        ensures
            self.normal_form().height() <= self.height(),
        decreases self,
    {
        match self {
            IdTree::Leaf { .. } => {},
            IdTree::Node { left, right } => {
                left.lemma_normal_form_height();
                right.lemma_normal_form_height();
            },
        }
    }

    /// Splitting a tree and putting the two shares together again gives the
    /// tree back, up to canonical form.
    pub proof fn lemma_split_then_sum(self)
        ensures
            self.halves().0.disjoint(self.halves().1),
            self.halves().0.union(self.halves().1).normal_form() == self.normal_form(),
    {
        let h = self.halves();
        let u = h.0.union(h.1);
        self.lemma_halves_disjoint();
        u.lemma_normal_form_is_normal();
        self.lemma_normal_form_is_normal();
        assert forall|p: Position| u.normal_form().owns(p) == self.normal_form().owns(p) by {
            u.lemma_normal_form_owns(p);
            self.lemma_normal_form_owns(p);
            h.0.lemma_union_owns(h.1, p);
            self.lemma_halves_owns(p);
        }
        u.normal_form().lemma_normal_unique(self.normal_form());
    }

    /// The two shares into which the tree is split.
    pub fn split_pair(&self) -> (r: (IdTree, IdTree))
        ensures
            r == self.halves(),
            r.0.disjoint(r.1),
            forall|p: Position| self.owns(p) == (r.0.owns(p) || r.1.owns(p)),
            forall|p: Position| !(r.0.owns(p) && r.1.owns(p)),
            self.is_normal() ==> r.0.is_normal() && r.1.is_normal(),
        decreases *self,
    {
        proof {
            self.lemma_halves_disjoint();
            if self.is_normal() {
                self.lemma_halves_normal();
            }
            assert forall|p: Position|
                self.owns(p) == (self.halves().0.owns(p) || self.halves().1.owns(p)) by {
                self.lemma_halves_owns(p);
            }
            assert forall|p: Position|
                !(self.halves().0.owns(p) && self.halves().1.owns(p)) by {
                self.lemma_halves_owns(p);
            }
        }
        match self {
            IdTree::Leaf { i } => {
                if *i {
                    (
                        IdTree::node(Box::new(IdTree::one()), Box::new(IdTree::zero())),
                        IdTree::node(Box::new(IdTree::zero()), Box::new(IdTree::one())),
                    )
                } else {
                    (IdTree::zero(), IdTree::zero())
                }
            },
            IdTree::Node { left, right } => {
                if left.same(&IdTree::zero()) {
                    let (i1, i2) = right.split_pair();
                    (
                        IdTree::node(Box::new(IdTree::zero()), Box::new(i1)),
                        IdTree::node(Box::new(IdTree::zero()), Box::new(i2)),
                    )
                } else if right.same(&IdTree::zero()) {
                    let (i1, i2) = left.split_pair();
                    (
                        IdTree::node(Box::new(i1), Box::new(IdTree::zero())),
                        IdTree::node(Box::new(i2), Box::new(IdTree::zero())),
                    )
                } else {
                    (
                        IdTree::node(left.clone(), Box::new(IdTree::zero())),
                        IdTree::node(Box::new(IdTree::zero()), right.clone()),
                    )
                }
            },
        }
    }

    /// Whether the tree is in canonical form.
    pub fn is_canonical(&self) -> (b: bool)
        ensures
            b == self.is_normal(),
        decreases *self,
    {
        match self {
            IdTree::Leaf { .. } => true,
            IdTree::Node { left, right } => {
                let twins = match &**left {
                    IdTree::Leaf { .. } => left.same(right),
                    IdTree::Node { .. } => false,
                };
                !twins && left.is_canonical() && right.is_canonical()
            },
        }
    }

    /// Whether the two trees are disjoint.
    pub fn is_disjoint_from(&self, other: &IdTree) -> (b: bool)
        ensures
            b == self.disjoint(*other),
        decreases *self,
    {
        if self.same(&IdTree::zero()) || other.same(&IdTree::zero()) {
            return true;
        }
        match self {
            IdTree::Leaf { .. } => false,
            IdTree::Node { left: left1, right: right1 } => match other {
                IdTree::Leaf { .. } => false,
                IdTree::Node { left: left2, right: right2 } => {
                    left1.is_disjoint_from(left2) && right1.is_disjoint_from(right2)
                },
            },
        }
    }

    /// The height of the tree, if it is a `u64`.
    pub fn checked_height(&self) -> (r: Option<u64>)
        ensures
            match r {
                Some(h) => h == self.height(),
                None => self.height() > u64::MAX,
            },
        decreases *self,
    {
        match self {
            IdTree::Leaf { .. } => Some(0),
            IdTree::Node { left, right } => {
                let l = match left.checked_height() {
                    None => {
                        return None;
                    },
                    Some(h) => h,
                };
                let r = match right.checked_height() {
                    None => {
                        return None;
                    },
                    Some(h) => h,
                };
                let higher: u64 = if l >= r { l } else { r };
                if higher == u64::MAX {
                    None
                } else {
                    Some(higher + 1)
                }
            },
        }
    }

    /// Structural comparison; `==` on two trees is this function.
    pub fn same(&self, other: &IdTree) -> (b: bool)
        ensures
            b == (*self == *other),
        decreases *self,
    {
        match self {
            IdTree::Leaf { i } => match other {
                IdTree::Leaf { i: j } => *i == *j,
                IdTree::Node { .. } => false,
            },
            IdTree::Node { left, right } => match other {
                IdTree::Leaf { .. } => false,
                IdTree::Node { left: l2, right: r2 } => left.same(l2) && right.same(r2),
            },
        }
    }
}

impl Normalisable for IdTree {
    open spec fn norm_requires(&self) -> bool {
        true
    }

    /// Brings the tree into canonical form.
    fn norm(self) -> (r: IdTree)
        ensures
            r == self.normal_form(),
            r.is_normal(),
            forall|p: Position| r.owns(p) == self.owns(p),
        decreases self,
    {
        proof {
            self.lemma_normal_form_is_normal();
            assert forall|p: Position| self.normal_form().owns(p) == self.owns(p) by {
                self.lemma_normal_form_owns(p);
            }
        }
        match self {
            IdTree::Leaf { i } => IdTree::Leaf { i },
            IdTree::Node { left, right } => {
                let norm_left = (*left).norm();
                let norm_right = (*right).norm();
                if let IdTree::Leaf { i: i1 } = norm_left {
                    if let IdTree::Leaf { i: i2 } = norm_right {
                        if i1 == i2 {
                            return norm_left;
                        }
                    }
                }
                IdTree::node(Box::new(norm_left), Box::new(norm_right))
            },
        }
    }
}

impl Split for IdTree {
    /// Splits the tree into two shares, returned as the children of a node.
    fn split(&self) -> (r: IdTree)
        ensures
            r == IdTree::branch(self.halves().0, self.halves().1),
    {
        let (left, right) = self.split_pair();
        IdTree::node(Box::new(left), Box::new(right))
    }
}

impl Sum for IdTree {
    open spec fn sum_requires(&self, other: &IdTree) -> bool {
        self.disjoint(*other)
    }

    /// Puts two disjoint trees together.
    fn sum(&self, other: &IdTree) -> (r: IdTree)
        ensures
            r == self.union(*other),
            forall|p: Position| r.owns(p) == (self.owns(p) || other.owns(p)),
            self.is_normal() && other.is_normal() ==> r.is_normal(),
        decreases *self,
    {
        proof {
            if self.is_normal() && other.is_normal() {
                self.lemma_union_normal(*other);
            }
            assert forall|p: Position|
                self.union(*other).owns(p) == (self.owns(p) || other.owns(p)) by {
                self.lemma_union_owns(*other, p);
            }
        }
        match self {
            IdTree::Leaf { i } => {
                if *i {
                    self.clone()
                } else {
                    other.clone()
                }
            },
            IdTree::Node { left: left1, right: right1 } => {
                match other {
                    IdTree::Leaf { .. } => self.clone(),
                    IdTree::Node { left: left2, right: right2 } => {
                        let new_left = Box::new(left1.sum(left2));
                        let new_right = Box::new(right1.sum(right2));
                        IdTree::node(new_left, new_right).norm()
                    },
                }
            },
        }
    }
}

impl Clone for IdTree {
    fn clone(&self) -> (r: IdTree)
        ensures
            r == *self,
        decreases *self,
    {
        match self {
            IdTree::Leaf { i } => IdTree::Leaf { i: *i },
            IdTree::Node { left, right } => IdTree::Node {
                left: Box::new((**left).clone()),
                right: Box::new((**right).clone()),
            },
        }
    }
}

impl PartialEq for IdTree {
    fn eq(&self, other: &IdTree) -> (b: bool) {
        self.same(other)
    }
}

impl PartialEqSpecImpl for IdTree {
    open spec fn obeys_eq_spec() -> bool {
        true
    }

    open spec fn eq_spec(&self, other: &IdTree) -> bool {
        *self == *other
    }
}

} // verus!
