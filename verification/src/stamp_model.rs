//! What a stamp stands for, the operations of the clock on it, and the laws
//! that they obey.

use vstd::prelude::*;

use crate::advance::{advance, lemma_advance_normal, lemma_advance_progresses};
use crate::counts::Counts;
use crate::id_tree::IdTree;

verus! {

/// What a stamp stands for: the part of the identity space that a replica
/// owns, and the counts of the history that it has seen.
pub struct StampModel {
    pub id: IdTree,
    pub history: Counts,
}

impl StampModel {
    /// The stamp from which all others derive: it owns everything and has
    /// seen nothing.
    pub open spec fn seed() -> StampModel {
        StampModel { id: IdTree::full(), history: Counts::leaf(0) }
    }

    /// Well-formed stamps have both trees in canonical form.
    pub open spec fn wf(self) -> bool {
        self.id.is_normal() && self.history.is_normal()
    }

    /// Whether the stamp owns anything. Said of a well-formed stamp.
    pub open spec fn owns_some(self) -> bool {
        self.id != IdTree::empty()
    }

    /// The causal order: histories are compared, ownership plays no part.
    pub open spec fn leq(self, other: StampModel) -> bool {
        self.history.leq(other.history)
    }

    /// Both trees in canonical form.
    pub open spec fn norm(self) -> StampModel {
        StampModel { id: self.id.normal_form(), history: self.history.norm() }
    }

    /// The two stamps that share the ownership of this one and both keep its
    /// history.
    pub open spec fn fork(self) -> (StampModel, StampModel) {
        (
            StampModel { id: self.id.halves().0, history: self.history },
            StampModel { id: self.id.halves().1, history: self.history },
        )
    }

    /// A stamp that owns nothing and has this one's history, beside the
    /// stamp itself.
    pub open spec fn peek(self) -> (StampModel, StampModel) {
        (StampModel { id: IdTree::empty(), history: self.history }, self)
    }

    /// The stamp that owns what either stamp owns and has seen what either
    /// has seen.
    pub open spec fn join(self, other: StampModel) -> StampModel {
        StampModel { id: self.id.union(other.id), history: self.history.join(other.history) }
    }

    /// The stamp after one more event of its owner.
    pub open spec fn event(self) -> StampModel {
        StampModel { id: self.id, history: advance(self.id, self.history) }
    }

    /// An event, then a message that carries the new history, beside the
    /// stamp that the sender keeps.
    pub open spec fn send(self) -> (StampModel, StampModel) {
        self.event().peek()
    }

    /// What a message brought is taken in, then an event.
    pub open spec fn receive(self, other: StampModel) -> StampModel {
        self.join(other).event()
    }

    /// Two stamps are joined and the result is forked.
    pub open spec fn sync(self, other: StampModel) -> (StampModel, StampModel) {
        self.join(other).fork()
    }

    /// The seed is well formed, and every operation gives well-formed stamps
    /// for well-formed stamps; an event, for those that own something. A fork
    /// of a stamp that owns something gives two stamps that own something,
    /// and an event leaves ownership as it is.
    pub proof fn lemma_wf_is_kept(self, other: StampModel)
        requires
            self.wf(),
            other.wf(),
        ensures
            StampModel::seed().wf(),
            StampModel::seed().owns_some(),
            self.norm() == self,
            self.fork().0.wf(),
            self.fork().1.wf(),
            self.owns_some() ==> self.fork().0.owns_some() && self.fork().1.owns_some(),
            self.peek().0.wf(),
            self.peek().1.wf(),
            self.join(other).wf(),
            self.sync(other).0.wf(),
            self.sync(other).1.wf(),
            self.owns_some() ==> self.event().wf() && self.event().owns_some(),
            self.owns_some() ==> self.send().0.wf() && self.send().1.wf(),
            self.join(other).owns_some() ==> self.receive(other).wf(),
    {
        self.id.lemma_normal_is_fixed();
        self.history.lemma_normal_is_fixed();
        self.id.lemma_halves_normal();
        self.id.lemma_union_normal(other.id);
        self.history.lemma_join_bounds(other.history);
        self.id.union(other.id).lemma_halves_normal();
        if self.owns_some() {
            lemma_advance_normal(self.id, self.history);
        }
        if self.join(other).owns_some() {
            lemma_advance_normal(self.join(other).id, self.join(other).history);
        }
    }

    /// Every stamp is below itself.
    pub proof fn lemma_leq_reflexive(self)
        ensures
            self.leq(self),
    {
        self.history.lemma_leq_reflexive();
    }

    /// What is below a stamp that is below a third is below the third.
    pub proof fn lemma_leq_transitive(self, mid: StampModel, other: StampModel)
        requires
            self.leq(mid),
            mid.leq(other),
        ensures
            self.leq(other),
    {
        self.history.lemma_leq_transitive(mid.history, other.history);
    }

    /// Two stamps that are each below the other have the same history, up to
    /// canonical form.
    pub proof fn lemma_leq_antisymmetric(self, other: StampModel)
        requires
            self.leq(other),
            other.leq(self),
        ensures
            self.norm().history == other.norm().history,
    {
        self.history.lemma_leq_antisymmetric(other.history);
    }

    /// A stamp is below both stamps that it forks into; the two share its
    /// ownership without overlap, and joined again they own what it owned.
    pub proof fn lemma_fork_ancestry(self)
        ensures
            self.leq(self.fork().0),
            self.leq(self.fork().1),
            self.fork().0.id.disjoint(self.fork().1.id),
            self.fork().0.id.union(self.fork().1.id).normal_form() == self.id.normal_form(),
    {
        self.history.lemma_leq_reflexive();
        self.id.lemma_split_then_sum();
    }

    /// A stamp is below what it is after an event of its owner, and differs
    /// from it, if its ownership is canonical and not empty. If its history
    /// is canonical too, the stamp after the event is not below it.
    pub proof fn lemma_event_progresses(self)
        requires
            self.id.is_normal(),
            self.id != IdTree::empty(),
        ensures
            self.leq(self.event()),
            self.event() != self,
            self.history.is_normal() ==> !self.event().leq(self),
    {
        lemma_advance_progresses(self.id, self.history);
    }

    /// Both stamps are below their join.
    pub proof fn lemma_join_dominates(self, other: StampModel)
        ensures
            self.leq(self.join(other)),
            other.leq(self.join(other)),
    {
        self.history.lemma_join_dominates(other.history);
    }

    /// Joining two stamps of disjoint ownership gives the same in either
    /// order, up to canonical form.
    pub proof fn lemma_join_commutes(self, other: StampModel)
        requires
            self.id.disjoint(other.id),
        ensures
            self.join(other).norm() == other.join(self).norm(),
    {
        self.id.lemma_union_commutes(other.id);
        self.history.lemma_join_commutes(other.history);
    }

    /// Joining a stamp with itself leaves its history as it is, up to
    /// canonical form.
    pub proof fn lemma_join_idempotent(self)
        ensures
            self.join(self).norm().history == self.norm().history,
    {
        self.history.lemma_join_idempotent();
        self.history.lemma_norm_idempotent();
    }
}

} // verus!
