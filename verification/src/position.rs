//! Positions of the identity space.

use vstd::prelude::*;

verus! {

/// A position in the identity space, given as the turns taken from the root
/// of a tree: `false` for the left half of an interval, `true` for the right
/// half. Past its last turn a position keeps to the left, so every position
/// reaches a leaf of every tree.
pub type Position = Seq<bool>;

/// Whether `p` enters the right half of the interval it starts in.
pub open spec fn turns_right(p: Position) -> bool {
    p.len() > 0 && p[0]
}

/// The position `p` as seen from the half that it enters.
pub open spec fn onward(p: Position) -> Position {
    if p.len() == 0 {
        p
    } else {
        p.drop_first()
    }
}

/// The position that first takes `turn` and then follows `p`.
pub open spec fn through(turn: bool, p: Position) -> Position {
    seq![turn] + p
}

pub proof fn lemma_through(turn: bool, p: Position)
    ensures
        turns_right(through(turn, p)) == turn,
        onward(through(turn, p)) == p,
{
    assert(through(turn, p).drop_first() =~= p);
}

} // verus!
