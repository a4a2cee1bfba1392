//! A replicated sequence of characters (a text CRDT in the YATA family).
//!
//! Each replica edits a local document and exchanges updates with its
//! peers. Characters are addressed by identifiers (replica id, logical
//! clock) minted per character, items are runs of characters kept in a
//! tombstoned doubly linked list, and remote operations are placed
//! deterministically by a pluggable conflict-resolution strategy, with
//! causally blocked operations buffered until their anchors arrive.
//! Re-delivery is idempotent and concurrent insertions at one shared anchor
//! commute (both proved in `laws`). A split mints a fresh identifier for
//! its left half, as the item lifecycle prescribes, so replicas that split
//! a run their peers already hold label its leading characters differently;
//! texts that only ever grow at run boundaries, or that follow one editing
//! replica, synchronise exactly.

mod conflict;
mod doc;
mod id;
mod integrate;
mod item;
mod laws;
mod list;
mod state;
mod traits;

pub use conflict::{ConflictResolver, YataResolver};
pub use doc::{Doc, DocIterator};
pub use id::ID;
pub use item::{CrdtError, Item};
pub use state::StateVector;
pub use traits::{Crdt, SequenceCrdt};
