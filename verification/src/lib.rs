//! A keyed-list reconciliation engine.
//!
//! Given a previous rendering of a keyed collection and a new collection,
//! the engine computes the structural operations (removals, moves,
//! additions, or a full clear) that bring a retained child-state array and,
//! when the list is mounted, a live output tree into agreement with the new
//! collection, preserving per-item identity across updates.
//!
//! The pieces, leaf to root: `ops` holds the diff's operation types;
//! `index_set` the insertion-ordered index of unique identity keys;
//! `diffing` the positional diff engine with its move-coalescing pass;
//! `unpack` the re-expansion of coalesced moves into an ascending
//! execution order; `apply` the reconciler that carries a diff onto the
//! retained slots and emits the live-tree instructions; `keyed` the list
//! type itself with its retained state; `laws` the properties proved of
//! the whole; and `stable_id` the stable naming of template occurrences.

pub mod apply;
pub mod diffing;
pub mod index_set;
pub mod keyed;
pub mod laws;
pub mod ops;
pub mod stable_id;
pub mod unpack;
