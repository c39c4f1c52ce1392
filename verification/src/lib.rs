//! A verified bridging layer between a dynamically typed host runtime and an
//! external CRDT document engine.
//!
//! The library converts values across the runtime boundary, manages the
//! lifetime and aliasing of short-lived mutation transactions against a
//! longer-lived document, and rebroadcasts container mutations as structured
//! change events.  The CRDT engine itself (merge algorithm, binary update
//! format, causal ordering) is an external collaborator reached through a
//! small set of trusted wrappers.

pub mod delta;
pub mod engine;
pub mod engine_any;
pub mod error;
pub mod ydoc;
pub mod yarray;
pub mod yawareness;
pub mod ymap;
pub mod ytext;
pub mod ytransaction;
pub mod yvalue;
pub mod yxml;

