use vstd::prelude::*;

verus! {

/// Milliseconds per scheduler tick: the fixed granularity of the timer.
pub const TICK_GRANULARITY_MS: u64 = 10;

/// What a `waitpid` call is waiting for.
#[derive(Clone, Copy, PartialEq, Eq, Structural, Debug)]
pub enum WaitTarget {
    /// Any child of the caller.
    AnyChild,
    /// Exactly the child with this pid.
    Child(usize),
}

/// Scheduling state of one process.
#[derive(Clone, Copy, PartialEq, Eq, Structural, Debug)]
pub enum ProcState {
    /// Eligible to run; sits in the ready queue.
    Ready,
    /// The single process currently executing.
    Running,
    /// Suspended until the tick counter reaches `wake_tick`.
    Sleeping { wake_tick: u64 },
    /// Suspended in `waitpid` until a matching child terminates.
    BlockedOnWait { target: WaitTarget },
    /// Terminated; `exit_code` is retained until the process is reaped.
    Zombie { exit_code: i32 },
}

/// Execution context owned exclusively by one descriptor and duplicated,
/// never shared, on `fork`. `ret_val` models the register through which a
/// syscall return value is delivered to a process when it resumes.
#[derive(Clone, Copy, PartialEq, Eq, Structural, Debug)]
pub struct ExecContext {
    pub ret_val: i64,
    pub stack_top: u64,
    pub addr_space: u64,
}

/// One process: identity, family edges, scheduling state and context.
#[derive(Debug)]
pub struct ProcessDescriptor {
    /// Unique identifier; equals the descriptor's index in the table.
    pub pid: usize,
    /// Weak back-reference to the creator; may name an already-reaped pid.
    pub parent: Option<usize>,
    /// Pids of the not-yet-reaped children, in creation (ascending) order.
    pub children: Vec<usize>,
    pub state: ProcState,
    pub ctx: ExecContext,
}

/// Error taxonomy of the kernel core.
#[derive(Clone, Copy, PartialEq, Eq, Structural, Debug)]
pub enum KernelError {
    /// A pid lookup missed.
    NotFound,
    /// The operation is invalid for the descriptor's current state.
    InvalidState,
    /// `waitpid` was called by a process with no children at all.
    NoChildren,
    /// `waitpid` targeted a pid that is not a child of the caller.
    NoSuchChild,
    /// A counter (tick or pid space) is exhausted; fatal, never wrapped.
    Overflow,
}

/// Successful outcome of a `waitpid` call.
#[derive(Clone, Copy, PartialEq, Eq, Structural, Debug)]
pub enum WaitOutcome {
    /// A matching zombie child was reaped: its pid and exit code.
    Reaped { pid: usize, exit_code: i32 },
    /// A matching child exists but none has terminated yet; the caller was
    /// suspended and must reissue the call once it runs again.
    WouldBlock,
}

} // verus!
