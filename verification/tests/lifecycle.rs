use proc_sched::kernel::Kernel;
use proc_sched::process::{ExecContext, KernelError, ProcState, WaitOutcome, WaitTarget};
use proc_sched::table::ProcessTable;

fn boot_ctx() -> ExecContext {
    ExecContext { ret_val: 0, stack_top: 0x8000, addr_space: 1 }
}

#[test]
fn boot_starts_root_running() {
    let k = Kernel::boot(boot_ctx());
    assert_eq!(k.get_time(), 0);
    assert_eq!(k.current_pid(), Some(0));
    let root = k.table.lookup(0).unwrap();
    assert_eq!(root.pid, 0);
    assert_eq!(root.parent, None);
    assert!(root.children.is_empty());
    assert!(matches!(root.state, ProcState::Running));
}

#[test]
fn fork_dual_return_values() {
    let mut k = Kernel::boot(boot_ctx());
    // the parent observes the new pid as the call's result
    let child = k.sys_fork().unwrap();
    assert_eq!(child, 1);
    assert_eq!(k.current_pid(), Some(0));
    // the child observes 0 through its syscall-return register
    let d = k.table.lookup(child).unwrap();
    assert_eq!(d.ctx.ret_val, 0);
    assert_eq!(d.parent, Some(0));
    assert!(matches!(d.state, ProcState::Ready));
    // the context was duplicated, not shared
    assert_eq!(d.ctx.stack_top, 0x8000);
    assert_eq!(d.ctx.addr_space, 1);
    // the child is recorded with its parent
    let p = k.table.lookup(0).unwrap();
    assert_eq!(p.children, vec![1]);
}

#[test]
fn fork_then_wait_reaps_exited_child() {
    let mut k = Kernel::boot(boot_ctx());
    let child = k.sys_fork().unwrap();
    // parent waits for exactly this child; it has not exited, so the
    // parent is suspended and the child is scheduled
    let r = k.sys_waitpid(WaitTarget::Child(child)).unwrap();
    assert_eq!(r, WaitOutcome::WouldBlock);
    assert_eq!(k.current_pid(), Some(child));
    // the child exits with code 0: the parent is woken and runs again
    k.sys_exit(0);
    assert_eq!(k.current_pid(), Some(0));
    // the reissued wait succeeds at once
    let r = k.sys_waitpid(WaitTarget::Child(child)).unwrap();
    assert_eq!(r, WaitOutcome::Reaped { pid: child, exit_code: 0 });
    // the child descriptor no longer exists
    assert_eq!(k.table.lookup(child).unwrap_err(), KernelError::NotFound);
    let p = k.table.lookup(0).unwrap();
    assert!(p.children.is_empty());
}

#[test]
fn wait_for_foreign_pid_fails_no_such_child() {
    let mut k = Kernel::boot(boot_ctx());
    let child = k.sys_fork().unwrap();
    // a pid that exists globally but is not a child of the caller
    let r = k.sys_waitpid(WaitTarget::Child(99));
    assert_eq!(r.unwrap_err(), KernelError::NoSuchChild);
    // the caller was not suspended
    assert_eq!(k.current_pid(), Some(0));
    // the child itself waits for its own parent's pid: also refused
    k.sys_yield();
    assert_eq!(k.current_pid(), Some(child));
    let r = k.sys_waitpid(WaitTarget::Child(0));
    assert_eq!(r.unwrap_err(), KernelError::NoSuchChild);
}

#[test]
fn wait_with_no_children_fails_without_blocking() {
    let mut k = Kernel::boot(boot_ctx());
    let r = k.sys_waitpid(WaitTarget::AnyChild);
    assert_eq!(r.unwrap_err(), KernelError::NoChildren);
    // immediate: the caller is still the running process
    assert_eq!(k.current_pid(), Some(0));
}

#[test]
fn wildcard_wait_reaps_lowest_pid_zombie() {
    let mut k = Kernel::boot(boot_ctx());
    let c1 = k.sys_fork().unwrap();
    let c2 = k.sys_fork().unwrap();
    assert_eq!((c1, c2), (1, 2));
    // run both children; each exits immediately
    k.sys_yield();
    assert_eq!(k.current_pid(), Some(c1));
    k.sys_exit(7);
    assert_eq!(k.current_pid(), Some(c2));
    k.sys_exit(8);
    assert_eq!(k.current_pid(), Some(0));
    // both are zombies; the wildcard wait picks the lowest pid first
    let r = k.sys_waitpid(WaitTarget::AnyChild).unwrap();
    assert_eq!(r, WaitOutcome::Reaped { pid: c1, exit_code: 7 });
    let r = k.sys_waitpid(WaitTarget::AnyChild).unwrap();
    assert_eq!(r, WaitOutcome::Reaped { pid: c2, exit_code: 8 });
    let r = k.sys_waitpid(WaitTarget::AnyChild);
    assert_eq!(r.unwrap_err(), KernelError::NoChildren);
}

#[test]
fn exit_does_not_cascade_to_children() {
    let mut k = Kernel::boot(boot_ctx());
    let c1 = k.sys_fork().unwrap();
    k.sys_yield();
    assert_eq!(k.current_pid(), Some(c1));
    // the child forks a grandchild, then exits; the grandchild lives on
    let g = k.sys_fork().unwrap();
    k.sys_exit(3);
    let gd = k.table.lookup(g).unwrap();
    assert!(matches!(gd.state, ProcState::Ready));
    let cd = k.table.lookup(c1).unwrap();
    assert!(matches!(cd.state, ProcState::Zombie { exit_code: 3 }));
}

#[test]
fn zombie_keeps_exit_code_until_reaped() {
    let mut k = Kernel::boot(boot_ctx());
    let c1 = k.sys_fork().unwrap();
    k.sys_yield();
    k.sys_exit(42);
    // unrelated activity: forks, yields, ticks
    let c2 = k.sys_fork().unwrap();
    k.sys_yield();
    k.sys_yield();
    k.advance_tick().unwrap();
    k.schedule();
    let d = k.table.lookup(c1).unwrap();
    assert!(matches!(d.state, ProcState::Zombie { exit_code: 42 }));
    let _ = c2;
}

#[test]
fn table_lookup_miss_is_not_found() {
    let k = Kernel::boot(boot_ctx());
    assert_eq!(k.table.lookup(99).unwrap_err(), KernelError::NotFound);
}

#[test]
fn table_destroy_rejects_non_zombie() {
    let mut k = Kernel::boot(boot_ctx());
    // destroying the live, running root is an invalid-state error
    assert_eq!(k.table.destroy(0).unwrap_err(), KernelError::InvalidState);
    assert_eq!(k.table.destroy(5).unwrap_err(), KernelError::NotFound);
}

#[test]
fn table_create_rejects_dead_parent() {
    let mut t = ProcessTable::new();
    assert_eq!(t.create(0).unwrap_err(), KernelError::NotFound);
}

#[test]
fn fork_from_the_child_builds_a_chain() {
    let mut k = Kernel::boot(boot_ctx());
    let c1 = k.sys_fork().unwrap();
    k.sys_yield();
    let g = k.sys_fork().unwrap();
    assert_eq!(g, 2);
    let gd = k.table.lookup(g).unwrap();
    assert_eq!(gd.parent, Some(c1));
}
