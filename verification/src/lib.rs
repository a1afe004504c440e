//! A typed bump allocator: values of one type are allocated one at a time or
//! in batches into growable chunk storage, every element keeps its position
//! for the whole life of the allocator, and everything is released together.
//!
//! Elements are addressed by handles: the handle of an element is its
//! position in allocation order, and it stays valid however many allocations
//! follow, because a chunk is never resized, reordered or dropped while the
//! arena lives. Storage grows by retiring the current chunk and opening a
//! larger one; retired chunks are frozen and never written again.

mod model;
mod chunks;
mod arena;
mod iterable;
mod laws;

pub use arena::Arena;
pub use arena::initial_capacity;
pub use iterable::Iter;
pub use iterable::IterableArena;
pub use laws::lemma_handle_stability;
pub use laws::lemma_handle_stability_iterable;
pub use laws::lemma_iteration_tolerates_growth;
pub use laws::lemma_order_preservation;

pub use model::extends;
pub use model::flat_of;
pub use model::lemma_extends_trans;
pub use model::grown_capacity;
pub use model::next_pow2;
pub use model::spliced_capacity;
