//! Epoch-based reclamation and the queues and stacks built on it, as
//! executable models with machine-checked contracts.
//!
//! `mem::epoch` holds the reclamation scheme: the allocator's books
//! (`heap`), the garbage bags (`garbage`), the participants and their list
//! (`participant`, `participants`), the shared state with the collection
//! protocol (`global`), and the pin guards and pointer cells (`epoch`
//! itself). Every operation takes the shared state and the caller's
//! participant, and runs as one step. `mem::epoch::protocol` cuts pinning
//! and collecting into the steps between which other threads may run.
//!
//! `sync` holds the containers: `treiber_stack`, `ms_queue` and
//! `seg_queue` on top of the reclamation scheme, the two single-producer
//! single-consumer queues `spsc_queue` and `spsc_bufferqueue`, and the
//! load-linked word `exclusive`. `sync::order` states what first-in
//! first-out and last-in first-out mean for a history of operations.
//! `sync::treiber_steps`, `sync::ms_steps` and `sync::spsc_steps` run the
//! stack, the Michael-Scott queue and the ring buffer one access to shared
//! memory at a time, under any schedule.

pub mod mem;
pub mod sync;
