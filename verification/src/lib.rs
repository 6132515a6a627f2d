//! A dependency-graph sequencer.
//!
//! Callers build a directed graph of opaque items. The [`Sequencer`] tracks
//! which items are ready to start, which are in progress and which are
//! finished.
//!
//! Every operation is specified against the mathematical model in [`graph`].
//! That the invariant of the model is kept by every transition is proved in
//! [`preservation`]; what follows for every sequencer is stated in [`laws`].
//! Handles are issued by a `slotmap::SlotMap`, behind the contracts in
//! [`handle`].
pub mod graph;
pub mod handle;
pub mod laws;
pub mod node;
pub mod preservation;
pub mod seqs;
pub mod sequencer;
pub mod shape;

pub use graph::{Graph, NodeView};
pub use handle::{SeqKey, MAX_NODES};
pub use node::{NodeStatus, SeqNode};
pub use sequencer::{SeqError, Sequencer};
