//! The stack, the unbounded queue and the bounded ring queue.
pub mod stack;
pub mod queue;
