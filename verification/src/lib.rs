//! A minimal single-threaded future/promise mechanism: a value that becomes
//! available later, with transformations attached before it arrives.
//!
//! - [`movecell`]: the single-slot cell that hands a value in and out.
//! - [`state`]: the model of completion states and of single assignment.
//! - [`future`]: the engine that holds the states, promises, futures, and
//!   futures driven by a fulfiller.
//! - [`laws`]: what holds of every delivery, and the laws that follow.
//! - [`lazy`] and [`error`]: a memoizing cell, and the error value that
//!   collaborators report with.
//! - [`reactor`]: which readers an event loop invokes after a poll.

pub mod error;
pub mod future;
pub mod laws;
pub mod lazy;
pub mod movecell;
pub mod reactor;
pub mod state;
