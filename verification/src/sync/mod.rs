//! Queues and stacks.

pub mod exclusive;
pub mod ms_queue;
pub mod ms_steps;
pub mod order;
pub mod seg_queue;
pub mod spsc_bufferqueue;
pub mod spsc_queue;
pub mod spsc_steps;
pub mod treiber_stack;
pub mod treiber_steps;
