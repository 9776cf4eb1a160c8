//! Rating of multi-team, multi-place contests by message passing on a factor
//! graph.
//!
//! The library decides which messages are computed, from which, and in what
//! order. It does no arithmetic on beliefs itself: a contest becomes a factor
//! graph ([`graph`]), every node of the graph a short program of operations
//! on message slots ([`nodes`], [`message`]), and the rating of the contest a
//! sequence of such programs that the caller executes step by step
//! ([`inference`]). What the programs compute is stated for every message
//! algebra ([`semantics`], [`setup`]).

pub mod graph;
pub mod inference;
pub mod message;
pub mod nodes;
pub mod rating_system;
pub mod semantics;
pub mod setup;
pub mod shape;
pub mod standings;
