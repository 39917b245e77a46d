//! Interval tree clocks: causality tracking for a set of replicas that grows
//! and shrinks while the system runs.
//!
//! Every replica holds a [`Stamp`]: an ownership tree ([`IdTree`]) that says
//! which part of the identity space is the replica's own, and an event tree
//! ([`EventTree`]) that says how many events the replica knows of at each
//! position of that space. A stamp is forked when a replica divides, joined
//! when two replicas merge, advanced by an event, and compared with another
//! stamp to learn whether one history is part of the other.
//!
//! The modules, leaves first:
//!
//! - `position`: the positions of the identity space.
//! - `id_tree`: ownership trees, their canonical form, split and sum.
//! - `counts`: the counts of a history as unbounded numbers, with the
//!   algebra of histories and its laws. This is the view of an event tree.
//! - `event_tree`: event trees with `u32` counts.
//! - `cost`: what it costs to grow a history.
//! - `advance`: how an event changes a history, by filling or by growing.
//! - `stamp_model`: what a stamp stands for, with the laws of the clock.
//! - `stamp`: stamps and the operations of the clock.
//! - `decimal`, `codec`: the encoding of a stamp as text.
//! - `ops`: the traits that name the operations.
//!
//! Executable functions state in their contracts what they return, over the
//! models in `id_tree`, `counts` and `stamp_model`; the laws of the algebra
//! are proof functions beside those models.

pub mod advance;
pub mod codec;
pub mod cost;
pub mod counts;
pub mod decimal;
pub mod event_tree;
pub mod id_tree;
pub mod ops;
pub mod position;
pub mod stamp;
pub mod stamp_model;

pub use codec::{decode, encode, leaf_of_marker, DecodeError};
pub use cost::Cost;
pub use event_tree::EventTree;
pub use id_tree::IdTree;
pub use ops::{IntervalTreeClock, LessThanOrEqual, Max, Min, Normalisable, Split, Sum};
pub use stamp::Stamp;
