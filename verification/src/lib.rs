//! A collaborative text CRDT in the Fugue style: a replicated text object
//! that converges under unordered merge.
//!
//! A [`FugueText`] replica keeps a store of immutable text blocks strictly
//! ordered by globally unique identifiers (the document order), a Lamport
//! clock for causality, a rendered buffer for the visible text, and a
//! position cache that resolves user-facing grapheme positions to origin
//! identifiers by binary search. Local inserts and deletes edit the buffer
//! at the user's position and record blocks and tombstones in the store;
//! merging joins a remote store in and rebuilds the buffer.
//!
//! The merge laws — idempotence, commutativity on compatible replicas, and
//! associativity — are proved in [`store`] over the store model, so
//! replicas that have seen the same operations render the same text.

pub mod block;
pub mod buffer;
pub mod clock;
pub mod errors;
pub mod node;
pub mod segment;
pub mod store;
pub mod text;

pub use block::Block;
pub use clock::LamportClock;
pub use errors::TextError;
pub use node::NodeId;
pub use text::FugueText;
