//! The counts of a history as unbounded numbers, and the algebra of
//! histories.
//!
//! What a tree means is given by `at`: the count that it holds at each
//! position. Two trees that hold the same counts have the same canonical
//! form, so a canonical tree is known by the counts that it holds.

use vstd::prelude::*;

use crate::position::{lemma_through, onward, through, turns_right, Position};

verus! {

/// The event counts that a history holds, as unbounded numbers.
///
/// A leaf gives one count to every position of its interval. A node gives
/// every position of its interval the base `n` plus what the child that the
/// position enters gives it.
pub enum Counts {
    Leaf { n: nat },
    Node { n: nat, left: Box<Counts>, right: Box<Counts> },
}

/// The lesser of two numbers.
pub open spec fn lesser(a: nat, b: nat) -> nat {
    if a <= b {
        a
    } else {
        b
    }
}

/// The greater of two numbers.
pub open spec fn greater(a: nat, b: nat) -> nat {
    if a >= b {
        a
    } else {
        b
    }
}

impl Counts {
    /// The tree that gives `n` to every position.
    pub open spec fn leaf(n: nat) -> Counts {
        Counts::Leaf { n }
    }

    /// The tree with base `n` over `left` and `right`.
    pub open spec fn node(n: nat, left: Counts, right: Counts) -> Counts {
        Counts::Node { n, left: Box::new(left), right: Box::new(right) }
    }

    /// The number at the root: a leaf's count, a node's base.
    pub open spec fn base(self) -> nat {
        match self {
            Counts::Leaf { n } => n,
            Counts::Node { n, .. } => n,
        }
    }

    /// The tree with `m` added at the root, and so at every position.
    pub open spec fn lift(self, m: nat) -> Counts {
        match self {
            Counts::Leaf { n } => Counts::Leaf { n: n + m },
            Counts::Node { n, left, right } => Counts::Node { n: n + m, left, right },
        }
    }

    /// The tree with `m` taken away at the root; meant for `m <= self.base()`.
    pub open spec fn sink(self, m: nat) -> Counts {
        match self {
            Counts::Leaf { n } => Counts::Leaf { n: (n - m) as nat },
            Counts::Node { n, left, right } => Counts::Node { n: (n - m) as nat, left, right },
        }
    }

    /// The counts of the left half of the interval, as a tree of its own. A
    /// leaf stands for two children equal to itself.
    pub open spec fn left_half(self) -> Counts {
        match self {
            Counts::Leaf { .. } => self,
            Counts::Node { n, left, .. } => left.lift(n),
        }
    }

    /// The counts of the right half of the interval, as a tree of its own.
    pub open spec fn right_half(self) -> Counts {
        match self {
            Counts::Leaf { .. } => self,
            Counts::Node { n, right, .. } => right.lift(n),
        }
    }

    /// The left child. A leaf stands for its count as base over two leaves of
    /// zero.
    pub open spec fn left_child(self) -> Counts {
        match self {
            Counts::Leaf { .. } => Counts::leaf(0),
            Counts::Node { left, .. } => *left,
        }
    }

    /// The right child.
    pub open spec fn right_child(self) -> Counts {
        match self {
            Counts::Leaf { .. } => Counts::leaf(0),
            Counts::Node { right, .. } => *right,
        }
    }

    /// Whether every number in the tree can be written as a `u32`.
    pub open spec fn storable(self) -> bool
        decreases self,
    {
        match self {
            Counts::Leaf { n } => n <= u32::MAX,
            Counts::Node { n, left, right } => {
                &&& n <= u32::MAX
                &&& left.storable()
                &&& right.storable()
            },
        }
    }

    /// The number of nodes on the longest way from the root to a leaf.
    pub open spec fn height(self) -> nat
        decreases self,
    {
        match self {
            Counts::Leaf { .. } => 0,
            Counts::Node { left, right, .. } => greater(left.height(), right.height()) + 1,
        }
    }

    /// The count at position `p`.
    pub open spec fn at(self, p: Position) -> nat
        decreases self,
    {
        match self {
            Counts::Leaf { n } => n,
            Counts::Node { n, left, right } => if turns_right(p) {
                n + right.at(onward(p))
            } else {
                n + left.at(onward(p))
            },
        }
    }

    /// The least count at any position.
    pub open spec fn min(self) -> nat
        decreases self,
    {
        match self {
            Counts::Leaf { n } => n,
            Counts::Node { n, left, right } => n + lesser(left.min(), right.min()),
        }
    }

    /// The greatest count at any position.
    pub open spec fn max(self) -> nat
        decreases self,
    {
        match self {
            Counts::Leaf { n } => n,
            Counts::Node { n, left, right } => n + greater(left.max(), right.max()),
        }
    }

    /// Canonical form: below every node one child has base zero, and the two
    /// children are not leaves with the same count.
    pub open spec fn is_normal(self) -> bool
        decreases self,
    {
        match self {
            Counts::Leaf { .. } => true,
            Counts::Node { left, right, .. } => {
                &&& left.is_normal()
                &&& right.is_normal()
                &&& lesser(left.base(), right.base()) == 0
                &&& !(*left is Leaf && *right is Leaf && left.base() == right.base())
            },
        }
    }

    /// The canonical form of the tree. Two children that come out as leaves
    /// with the same count are taken into one leaf; otherwise the lesser base
    /// of the two children moves up into their parent.
    pub open spec fn norm(self) -> Counts
        decreases self,
    {
        match self {
            Counts::Leaf { .. } => self,
            Counts::Node { n, left, right } => {
                let l = left.norm();
                let r = right.norm();
                if l is Leaf && r is Leaf && l.base() == r.base() {
                    Counts::leaf(n + l.base())
                } else {
                    let m = lesser(l.base(), r.base());
                    Counts::node(n + m, l.sink(m), r.sink(m))
                }
            },
        }
    }

    /// The pointwise greater of two trees, in canonical form. Two leaves give
    /// the leaf with the greater count. Otherwise the lesser base becomes the
    /// base, and below it the left halves are joined, and the right halves,
    /// each taken down by that base.
    pub open spec fn join(self, other: Counts) -> Counts
        decreases self.height() + other.height(),
        via Self::join_decreases
    {
        if self is Leaf && other is Leaf {
            Counts::leaf(greater(self.base(), other.base()))
        } else {
            let m = lesser(self.base(), other.base());
            Counts::node(
                m,
                self.left_half().sink(m).join(other.left_half().sink(m)),
                self.right_half().sink(m).join(other.right_half().sink(m)),
            ).norm()
        }
    }

    /// The causal order as it is tested. A leaf is below whatever has at least
    /// its count as base. A node is below what has at least its base as base,
    /// and in each half holds at least what the node holds there.
    pub open spec fn leq(self, other: Counts) -> bool
        decreases self.height(),
        via Self::leq_decreases
    {
        match self {
            Counts::Leaf { n } => n <= other.base(),
            Counts::Node { n, .. } => {
                &&& n <= other.base()
                &&& self.left_half().leq(other.left_half())
                &&& self.right_half().leq(other.right_half())
            },
        }
    }

    #[via_fn]
    proof fn join_decreases(self, other: Counts) {
        let m = lesser(self.base(), other.base());
        self.lemma_half_height();
        other.lemma_half_height();
        self.left_half().lemma_sink_at(m, Seq::empty());
        self.right_half().lemma_sink_at(m, Seq::empty());
        other.left_half().lemma_sink_at(m, Seq::empty());
        other.right_half().lemma_sink_at(m, Seq::empty());
    }

    #[via_fn]
    proof fn leq_decreases(self, other: Counts) {
        self.lemma_half_height();
    }

    /// Neither half of a tree is higher than the tree, and both halves of a
    /// node are less high than the node.
    pub proof fn lemma_half_height(self)
        ensures
            self.left_half().height() <= self.height(),
            self.right_half().height() <= self.height(),
            self is Node ==> self.left_half().height() < self.height(),
            self is Node ==> self.right_half().height() < self.height(),
            self.base() <= self.left_half().base(),
            self.base() <= self.right_half().base(),
    {
        match self {
            Counts::Leaf { .. } => {},
            Counts::Node { n, left, right } => {
                left.lemma_lift_at(n, Seq::empty());
                right.lemma_lift_at(n, Seq::empty());
            },
        }
    }

    /// No position holds more in `self` than in `other`.
    pub open spec fn below(self, other: Counts) -> bool {
        forall|p: Position| self.at(p) <= other.at(p)
    }

    /// Every position holds the same in `self` as in `other`.
    pub open spec fn alike(self, other: Counts) -> bool {
        forall|p: Position| self.at(p) == other.at(p)
    }

    /// What a leaf holds.
    pub proof fn lemma_leaf(n: nat, p: Position)
        ensures
            Counts::leaf(n).at(p) == n,
            Counts::leaf(n).min() == n,
            Counts::leaf(n).max() == n,
            Counts::leaf(n).height() == 0,
            Counts::leaf(n).is_normal(),
            Counts::leaf(n).norm() == Counts::leaf(n),
    {
    }

    /// What a node holds.
    pub proof fn lemma_node(n: nat, left: Counts, right: Counts, p: Position)
        ensures
            Counts::node(n, left, right).at(p) == if turns_right(p) {
                n + right.at(onward(p))
            } else {
                n + left.at(onward(p))
            },
            Counts::node(n, left, right).min() == n + lesser(left.min(), right.min()),
            Counts::node(n, left, right).max() == n + greater(left.max(), right.max()),
            Counts::node(n, left, right).left_half() == left.lift(n),
            Counts::node(n, left, right).right_half() == right.lift(n),
    {
    }

    /// Adding at the root adds at every position.
    pub proof fn lemma_lift_at(self, m: nat, p: Position)
        ensures
            self.lift(m).at(p) == self.at(p) + m,
            self.lift(m).min() == self.min() + m,
            self.lift(m).max() == self.max() + m,
            self.lift(m).height() == self.height(),
            self.lift(m).is_normal() == self.is_normal(),
    {
    }

    /// Taking away at the root takes away at every position.
    pub proof fn lemma_sink_at(self, m: nat, p: Position)
        requires
            m <= self.base(),
        ensures
            self.sink(m).at(p) == self.at(p) - m,
            self.sink(m).min() == self.min() - m,
            self.sink(m).max() == self.max() - m,
            self.sink(m).height() == self.height(),
            self.sink(m).is_normal() == self.is_normal(),
            self.sink(m).lift(m) == self,
            self.lift(m).sink(m) == self,
    {
    }

    /// The two halves of a tree hold what the tree holds in them.
    pub proof fn lemma_half_at(self, p: Position)
        ensures
            self.at(p) == if turns_right(p) {
                self.right_half().at(onward(p))
            } else {
                self.left_half().at(onward(p))
            },
            self.left_half().at(p) == self.at(through(false, p)),
            self.right_half().at(p) == self.at(through(true, p)),
            self.base() <= self.left_half().base(),
            self.base() <= self.right_half().base(),
            self.is_normal() ==> self.left_half().is_normal() && self.right_half().is_normal(),
    {
        lemma_through(false, p);
        lemma_through(true, p);
        match self {
            Counts::Leaf { .. } => {},
            Counts::Node { n, left, right } => {
                left.lemma_lift_at(n, p);
                right.lemma_lift_at(n, p);
                left.lemma_lift_at(n, onward(p));
                right.lemma_lift_at(n, onward(p));
            },
        }
    }

    /// Neither half of a tree holds a greater count than the tree does.
    pub proof fn lemma_half_max(self)
        ensures
            self.left_half().max() <= self.max(),
            self.right_half().max() <= self.max(),
            self.left_half().min() >= self.min(),
            self.right_half().min() >= self.min(),
            self.lift(0) == self,
    {
        match self {
            Counts::Leaf { .. } => {},
            Counts::Node { n, left, right } => {
                left.lemma_lift_at(n, Seq::empty());
                right.lemma_lift_at(n, Seq::empty());
            },
        }
    }

    /// Adding `up` and then taking `m` away is adding the difference.
    pub proof fn lemma_lift_sink(self, up: nat, m: nat)
        requires
            m <= up,
        ensures
            self.lift(up).sink(m) == self.lift((up - m) as nat),
    {
    }

    /// What the join of two trees that are not both leaves is made of.
    pub proof fn lemma_join_parts(self, other: Counts, m: nat)
        requires
            !(self is Leaf && other is Leaf),
            m == lesser(self.base(), other.base()),
        ensures
            self.join(other) == Counts::node(
                m,
                self.left_half().sink(m).join(other.left_half().sink(m)),
                self.right_half().sink(m).join(other.right_half().sink(m)),
            ).norm(),
            self.left_half().sink(m).height() + other.left_half().sink(m).height() < self.height()
                + other.height(),
            self.right_half().sink(m).height() + other.right_half().sink(m).height()
                < self.height() + other.height(),
            self.left_half().sink(m).max() + m <= self.max(),
            self.right_half().sink(m).max() + m <= self.max(),
            other.left_half().sink(m).max() + m <= other.max(),
            other.right_half().sink(m).max() + m <= other.max(),
    {
        self.lemma_half_height();
        other.lemma_half_height();
        self.lemma_half_max();
        other.lemma_half_max();
        self.left_half().lemma_sink_at(m, Seq::empty());
        self.right_half().lemma_sink_at(m, Seq::empty());
        other.left_half().lemma_sink_at(m, Seq::empty());
        other.right_half().lemma_sink_at(m, Seq::empty());
    }

    /// Every count lies between the least and the greatest.
    pub proof fn lemma_at_bounds(self, p: Position)
        ensures
            self.base() <= self.min() <= self.at(p) <= self.max(),
        decreases self,
    {
        match self {
            Counts::Leaf { .. } => {},
            Counts::Node { n, left, right } => {
                left.lemma_at_bounds(onward(p));
                right.lemma_at_bounds(onward(p));
            },
        }
    }

    /// Some position holds the least count.
    pub proof fn lemma_min_attained(self) -> (p: Position)
        ensures
            self.at(p) == self.min(),
        decreases self,
    {
        match self {
            Counts::Leaf { .. } => Seq::empty(),
            Counts::Node { n, left, right } => {
                if left.min() <= right.min() {
                    let q = left.lemma_min_attained();
                    lemma_through(false, q);
                    through(false, q)
                } else {
                    let q = right.lemma_min_attained();
                    lemma_through(true, q);
                    through(true, q)
                }
            },
        }
    }

    /// Some position holds the greatest count.
    pub proof fn lemma_max_attained(self) -> (p: Position)
        ensures
            self.at(p) == self.max(),
        decreases self,
    {
        match self {
            Counts::Leaf { .. } => Seq::empty(),
            Counts::Node { n, left, right } => {
                if left.max() >= right.max() {
                    let q = left.lemma_max_attained();
                    lemma_through(false, q);
                    through(false, q)
                } else {
                    let q = right.lemma_max_attained();
                    lemma_through(true, q);
                    through(true, q)
                }
            },
        }
    }

    /// In a canonical tree the base is the least count.
    pub proof fn lemma_normal_min(self)
        requires
            self.is_normal(),
        ensures
            self.min() == self.base(),
        decreases self,
    {
        match self {
            Counts::Leaf { .. } => {},
            Counts::Node { n, left, right } => {
                left.lemma_normal_min();
                right.lemma_normal_min();
            },
        }
    }

    /// The canonical form is canonical.
    pub proof fn lemma_norm_is_normal(self)
        ensures
            self.norm().is_normal(),
        decreases self,
    {
        match self {
            Counts::Leaf { .. } => {},
            Counts::Node { n, left, right } => {
                left.lemma_norm_is_normal();
                right.lemma_norm_is_normal();
                let l = left.norm();
                let r = right.norm();
                let m = lesser(l.base(), r.base());
                l.lemma_sink_at(m, Seq::empty());
                r.lemma_sink_at(m, Seq::empty());
            },
        }
    }

    /// The canonical form holds the same count at every position.
    pub proof fn lemma_norm_at(self, p: Position)
        ensures
            self.norm().at(p) == self.at(p),
        decreases self,
    {
        match self {
            Counts::Leaf { .. } => {},
            Counts::Node { n, left, right } => {
                left.lemma_norm_at(onward(p));
                right.lemma_norm_at(onward(p));
                let l = left.norm();
                let r = right.norm();
                let m = lesser(l.base(), r.base());
                l.lemma_sink_at(m, onward(p));
                r.lemma_sink_at(m, onward(p));
            },
        }
    }

    /// A canonical tree is its own canonical form.
    pub proof fn lemma_normal_is_fixed(self)
        requires
            self.is_normal(),
        ensures
            self.norm() == self,
        decreases self,
    {
        match self {
            Counts::Leaf { .. } => {},
            Counts::Node { n, left, right } => {
                left.lemma_normal_is_fixed();
                right.lemma_normal_is_fixed();
                left.lemma_sink_at(0, Seq::empty());
                right.lemma_sink_at(0, Seq::empty());
                assert(left.sink(0) == *left);
                assert(right.sink(0) == *right);
            },
        }
    }

    /// Where the canonical form of a node is a node with the same base, its
    /// children are the canonical forms of the node's children.
    pub proof fn lemma_norm_same_base(n: nat, left: Counts, right: Counts)
        requires
            Counts::node(n, left, right).norm() is Node,
            Counts::node(n, left, right).norm().base() == n,
        ensures
            Counts::node(n, left, right).norm() == Counts::node(n, left.norm(), right.norm()),
    {
        left.norm().lemma_sink_at(0, Seq::empty());
        right.norm().lemma_sink_at(0, Seq::empty());
        left.norm().lemma_half_max();
        right.norm().lemma_half_max();
    }

    /// Bringing a tree into canonical form twice is the same as doing so once.
    pub proof fn lemma_norm_idempotent(self)
        ensures
            self.norm().norm() == self.norm(),
    {
        self.lemma_norm_is_normal();
        self.norm().lemma_normal_is_fixed();
    }
    /// A canonical tree that holds one count everywhere is a leaf.
    pub proof fn lemma_normal_constant(self, c: nat)
        requires
            self.is_normal(),
            forall|p: Position| self.at(p) == c,
        ensures
            self == Counts::leaf(c),
        decreases self,
    {
        assert(self.at(Seq::empty()) == c);
        match self {
            Counts::Leaf { .. } => {},
            Counts::Node { n, left, right } => {
                self.lemma_at_bounds(Seq::empty());
                let d = (c - n) as nat;
                assert forall|p: Position| left.at(p) == d by {
                    lemma_through(false, p);
                    assert(self.at(through(false, p)) == c);
                }
                assert forall|p: Position| right.at(p) == d by {
                    lemma_through(true, p);
                    assert(self.at(through(true, p)) == c);
                }
                left.lemma_normal_constant(d);
                right.lemma_normal_constant(d);
            },
        }
    }

    /// Two canonical trees that hold the same counts are the same tree.
    pub proof fn lemma_normal_unique(self, other: Counts)
        requires
            self.is_normal(),
            other.is_normal(),
            self.alike(other),
        ensures
            self == other,
        decreases self,
    {
        match self {
            Counts::Leaf { n } => {
                assert forall|p: Position| other.at(p) == n by {
                    assert(self.at(p) == n);
                }
                other.lemma_normal_constant(n);
            },
            Counts::Node { n, left, right } => {
                match other {
                    Counts::Leaf { n: c } => {
                        assert forall|p: Position| self.at(p) == c by {
                            assert(other.at(p) == c);
                        }
                        self.lemma_normal_constant(c);
                    },
                    Counts::Node { n: n2, left: l2, right: r2 } => {
                        self.lemma_alike_bounds(other);
                        self.lemma_normal_min();
                        other.lemma_normal_min();
                        assert forall|p: Position| left.at(p) == l2.at(p) by {
                            lemma_through(false, p);
                            assert(self.at(through(false, p)) == other.at(through(false, p)));
                        }
                        assert forall|p: Position| right.at(p) == r2.at(p) by {
                            lemma_through(true, p);
                            assert(self.at(through(true, p)) == other.at(through(true, p)));
                        }
                        left.lemma_normal_unique(*l2);
                        right.lemma_normal_unique(*r2);
                    },
                }
            },
        }
    }

    /// A tree that is nowhere above another has no greater least count and
    /// no greater greatest count.
    pub proof fn lemma_below_bounds(self, other: Counts)
        requires
            self.below(other),
        ensures
            self.min() <= other.min(),
            self.max() <= other.max(),
    {
        let p = other.lemma_min_attained();
        self.lemma_at_bounds(p);
        assert(self.at(p) <= other.at(p));
        let q = self.lemma_max_attained();
        other.lemma_at_bounds(q);
        assert(self.at(q) <= other.at(q));
    }

    /// Trees that hold the same counts have the same least and greatest count.
    pub proof fn lemma_alike_bounds(self, other: Counts)
        requires
            self.alike(other),
        ensures
            self.min() == other.min(),
            self.max() == other.max(),
    {
        assert(self.below(other)) by {
            assert forall|p: Position| self.at(p) <= other.at(p) by {
                assert(self.at(p) == other.at(p));
            }
        }
        assert(other.below(self)) by {
            assert forall|p: Position| other.at(p) <= self.at(p) by {
                assert(self.at(p) == other.at(p));
            }
        }
        self.lemma_below_bounds(other);
        other.lemma_below_bounds(self);
    }

    /// The canonical form has the same least and greatest count as the tree.
    pub proof fn lemma_norm_bounds(self)
        ensures
            self.norm().min() == self.min(),
            self.norm().max() == self.max(),
            self.norm().alike(self),
    {
        assert forall|p: Position| self.norm().at(p) == self.at(p) by {
            self.lemma_norm_at(p);
        }
        self.norm().lemma_alike_bounds(self);
    }

    /// The join holds at every position the greater of the two counts.
    pub proof fn lemma_join_at(self, other: Counts, p: Position)
        ensures
            self.join(other).at(p) == greater(self.at(p), other.at(p)),
        decreases self.height() + other.height(),
    {
        if !(self is Leaf && other is Leaf) {
            let m = lesser(self.base(), other.base());
            let q = onward(p);
            self.lemma_half_height();
            other.lemma_half_height();
            self.lemma_half_at(p);
            other.lemma_half_at(p);
            self.left_half().lemma_sink_at(m, q);
            self.right_half().lemma_sink_at(m, q);
            other.left_half().lemma_sink_at(m, q);
            other.right_half().lemma_sink_at(m, q);
            let left = self.left_half().sink(m).join(other.left_half().sink(m));
            let right = self.right_half().sink(m).join(other.right_half().sink(m));
            self.left_half().sink(m).lemma_join_at(other.left_half().sink(m), q);
            self.right_half().sink(m).lemma_join_at(other.right_half().sink(m), q);
            Counts::node(m, left, right).lemma_norm_at(p);
        }
    }

    /// The join is canonical, dominates both trees, and its greatest count is
    /// the greater of theirs.
    pub proof fn lemma_join_bounds(self, other: Counts)
        ensures
            self.join(other).is_normal(),
            self.below(self.join(other)),
            other.below(self.join(other)),
            self.join(other).max() == greater(self.max(), other.max()),
            self.join(other).min() >= greater(self.min(), other.min()),
    {
        let j = self.join(other);
        if !(self is Leaf && other is Leaf) {
            let m = lesser(self.base(), other.base());
            Counts::node(
                m,
                self.left_half().sink(m).join(other.left_half().sink(m)),
                self.right_half().sink(m).join(other.right_half().sink(m)),
            ).lemma_norm_is_normal();
        }
        assert forall|p: Position| self.at(p) <= j.at(p) by {
            self.lemma_join_at(other, p);
        }
        assert forall|p: Position| other.at(p) <= j.at(p) by {
            self.lemma_join_at(other, p);
        }
        self.lemma_below_bounds(j);
        other.lemma_below_bounds(j);
        let q = j.lemma_max_attained();
        self.lemma_join_at(other, q);
        self.lemma_at_bounds(q);
        other.lemma_at_bounds(q);
    }

    /// The order in which two trees are joined does not matter.
    pub proof fn lemma_join_commutes(self, other: Counts)
        ensures
            self.join(other) == other.join(self),
    {
        self.lemma_join_bounds(other);
        other.lemma_join_bounds(self);
        assert forall|p: Position| self.join(other).at(p) == other.join(self).at(p) by {
            self.lemma_join_at(other, p);
            other.lemma_join_at(self, p);
        }
        self.join(other).lemma_normal_unique(other.join(self));
    }

    /// A tree joined with itself is its canonical form.
    pub proof fn lemma_join_idempotent(self)
        ensures
            self.join(self) == self.norm(),
    {
        self.lemma_join_bounds(self);
        self.lemma_norm_is_normal();
        assert forall|p: Position| self.join(self).at(p) == self.norm().at(p) by {
            self.lemma_join_at(self, p);
            self.lemma_norm_at(p);
        }
        self.join(self).lemma_normal_unique(self.norm());
    }

    /// Every tree is below itself.
    pub proof fn lemma_leq_reflexive(self)
        ensures
            self.leq(self),
        decreases self.height(),
    {
        if self is Node {
            self.lemma_half_height();
            self.left_half().lemma_leq_reflexive();
            self.right_half().lemma_leq_reflexive();
        }
    }

    /// What is below a tree that is below a third is below the third.
    pub proof fn lemma_leq_transitive(self, mid: Counts, other: Counts)
        requires
            self.leq(mid),
            mid.leq(other),
        ensures
            self.leq(other),
        decreases self.height(),
    {
        if self is Node {
            self.lemma_half_height();
            other.lemma_half_height();
            self.left_half().lemma_leq_transitive(mid.left_half(), other.left_half());
            self.right_half().lemma_leq_transitive(mid.right_half(), other.right_half());
        }
    }

    /// A tree that tests as below another holds no more than it anywhere.
    pub proof fn lemma_leq_below(self, other: Counts)
        requires
            self.leq(other),
        ensures
            self.below(other),
        decreases self.height(),
    {
        if self is Node {
            self.lemma_half_height();
            self.left_half().lemma_leq_below(other.left_half());
            self.right_half().lemma_leq_below(other.right_half());
        }
        assert forall|p: Position| self.at(p) <= other.at(p) by {
            other.lemma_at_bounds(p);
            self.lemma_half_at(p);
            other.lemma_half_at(p);
            if self is Node {
                assert(self.left_half().at(onward(p)) <= other.left_half().at(onward(p)));
                assert(self.right_half().at(onward(p)) <= other.right_half().at(onward(p)));
            }
        }
    }

    /// A tree that holds no more anywhere than a canonical tree tests as
    /// below it.
    pub proof fn lemma_below_leq(self, other: Counts)
        requires
            self.below(other),
            other.is_normal(),
        ensures
            self.leq(other),
        decreases self.height(),
    {
        self.lemma_below_bounds(other);
        other.lemma_normal_min();
        self.lemma_at_bounds(Seq::empty());
        if self is Node {
            self.lemma_half_height();
            other.lemma_half_at(Seq::empty());
            assert forall|p: Position| self.left_half().at(p) <= other.left_half().at(p) by {
                self.lemma_half_at(p);
                other.lemma_half_at(p);
                assert(self.at(through(false, p)) <= other.at(through(false, p)));
            }
            assert forall|p: Position| self.right_half().at(p) <= other.right_half().at(p) by {
                self.lemma_half_at(p);
                other.lemma_half_at(p);
                assert(self.at(through(true, p)) <= other.at(through(true, p)));
            }
            self.left_half().lemma_below_leq(other.left_half());
            self.right_half().lemma_below_leq(other.right_half());
        }
    }

    /// Two trees that are each below the other have the same canonical form.
    pub proof fn lemma_leq_antisymmetric(self, other: Counts)
        requires
            self.leq(other),
            other.leq(self),
        ensures
            self.norm() == other.norm(),
    {
        self.lemma_leq_below(other);
        other.lemma_leq_below(self);
        self.lemma_norm_is_normal();
        other.lemma_norm_is_normal();
        assert forall|p: Position| self.norm().at(p) == other.norm().at(p) by {
            self.lemma_norm_at(p);
            other.lemma_norm_at(p);
            assert(self.at(p) <= other.at(p));
            assert(other.at(p) <= self.at(p));
        }
        self.norm().lemma_normal_unique(other.norm());
    }

    /// Adding the same number on both sides keeps the order.
    pub proof fn lemma_leq_lift(self, other: Counts, m: nat)
        requires
            self.leq(other),
        ensures
            self.lift(m).leq(other.lift(m)),
        decreases self.height(),
    {
        if self is Node {
            self.lemma_half_height();
            self.left_half().lemma_leq_lift(other.left_half(), m);
            self.right_half().lemma_leq_lift(other.right_half(), m);
            assert(self.lift(m).left_half() == self.left_half().lift(m));
            assert(self.lift(m).right_half() == self.right_half().lift(m));
            assert(other.lift(m).left_half() == other.left_half().lift(m));
            assert(other.lift(m).right_half() == other.right_half().lift(m));
        }
    }

    /// Both trees are below their join.
    pub proof fn lemma_join_dominates(self, other: Counts)
        ensures
            self.leq(self.join(other)),
            other.leq(self.join(other)),
    {
        self.lemma_join_bounds(other);
        self.lemma_below_leq(self.join(other));
        other.lemma_below_leq(self.join(other));
    }
}

} // verus!
