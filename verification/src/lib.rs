//! A slot map with a double-buffered refresh protocol.
//!
//! The map keeps two copies of a slot container. One copy (the front) is the
//! one readers observe; the other (the back) is owned by the writer. Every
//! write stages a single operation, brings the back buffer up to date by
//! replaying the previously staged operation, applies the new operation,
//! swaps the two buffers, and records the readers' epoch counters. The core
//! invariant is that at any moment the two buffers differ by exactly the one
//! staged operation, so no operation log is needed.
//!
//! This crate verifies that protocol as a sequential state machine: the slot
//! container, the operations, the replay-and-swap step, the epoch counter
//! discipline and the writer's quiescence decision. The concurrent envelope
//! (atomic pointer cell, fences, suppressed-drop storage) cannot be expressed
//! in verified safe code and lives outside the library.

pub mod epoch;
pub mod inner;
pub mod laws;
pub mod read;
pub mod registry;
pub mod slots;
pub mod write;

pub use epoch::epoch_after_pin;
pub use epoch::epoch_after_release;
pub use epoch::reader_has_moved_on;
pub use epoch::PARKED_BIT;
pub use inner::Operation;
pub use laws::lemma_clear_idempotent;
pub use laws::lemma_generation_monotone;
pub use laws::lemma_insert_key_new;
pub use laws::lemma_insert_remove_len;
pub use laws::lemma_key_survives;
pub use laws::lemma_write_visible;
pub use laws::sp_run;
pub use read::MapKey;
pub use read::MapReadRef;
pub use registry::Registry;
pub use slots::lemma_len_zero_iff_empty;
pub use slots::lemma_snapshot_round_trip;
pub use slots::SlotKey;
pub use slots::SlotMap;
pub use write::WriteHandle;
