//! A process-lifecycle and timed-suspension scheduler kernel core.
//!
//! The crate models a cooperatively multiplexed single execution unit: a
//! process table with parent/child edges, a FIFO ready queue, a wake-ordered
//! sleep queue driven by a monotonic tick counter, and the lifecycle
//! operations `fork`, `exit`, `waitpid`, `sleep`, `yield` and `get_time`.

pub mod kernel;
pub mod laws;
pub mod process;
pub mod table;
