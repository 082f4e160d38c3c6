//! Last-in-first-out and first-in-first-out containers whose nodes live in
//! index-addressed arenas, together with a few integer routines.
//!
//! Every container operation takes `&mut self` and is one step of the
//! container's abstract history: `push`, `pop`, `enqueue` and `dequeue` are
//! specified over a `Seq` view, and the laws that relate several calls are
//! proved beside them as public proof functions.
pub mod lfs;
pub mod math;
