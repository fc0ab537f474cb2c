use proc_sched::kernel::{ms_to_ticks, Kernel};
use proc_sched::process::{ExecContext, KernelError, ProcState, WaitOutcome, WaitTarget};

fn boot_ctx() -> ExecContext {
    ExecContext { ret_val: 0, stack_top: 0x8000, addr_space: 1 }
}

/// Drive the timer until some process is scheduled again.
fn idle_until_scheduled(k: &mut Kernel) {
    while k.current_pid().is_none() {
        k.advance_tick().unwrap();
        k.schedule();
    }
}

#[test]
fn ms_to_ticks_rounds_up() {
    assert_eq!(ms_to_ticks(0), 0);
    assert_eq!(ms_to_ticks(1), 1);
    assert_eq!(ms_to_ticks(9), 1);
    assert_eq!(ms_to_ticks(10), 1);
    assert_eq!(ms_to_ticks(11), 2);
    assert_eq!(ms_to_ticks(100), 10);
    assert_eq!(ms_to_ticks(505), 51);
}

#[test]
fn get_time_is_monotonic() {
    let mut k = Kernel::boot(boot_ctx());
    let mut last = k.get_time();
    for _ in 0..5 {
        k.advance_tick().unwrap();
        assert!(k.get_time() >= last);
        last = k.get_time();
    }
    assert_eq!(last, 5);
}

#[test]
fn sleep_never_resumes_early() {
    let mut k = Kernel::boot(boot_ctx());
    let start = k.get_time();
    // 100 ms at 10 ms per tick: the sleeper may not run for 10 ticks
    k.sys_sleep(100).unwrap();
    assert_eq!(k.current_pid(), None);
    for _ in 0..9 {
        k.advance_tick().unwrap();
        k.schedule();
        assert_eq!(k.current_pid(), None);
    }
    k.advance_tick().unwrap();
    k.schedule();
    assert_eq!(k.current_pid(), Some(0));
    assert!(k.get_time() - start >= 10);
}

#[test]
fn sleep_zero_degenerates_to_yield() {
    let mut k = Kernel::boot(boot_ctx());
    let child = k.sys_fork().unwrap();
    // a zero sleep must not busy-wait or suspend: the caller yields the
    // rest of its slice and the queue head runs
    k.sys_sleep(0).unwrap();
    assert_eq!(k.current_pid(), Some(child));
    let parent = k.table.lookup(0).unwrap();
    assert!(matches!(parent.state, ProcState::Ready));
    assert_eq!(k.get_time(), 0);
}

#[test]
fn equal_wake_ticks_wake_in_pid_order() {
    let mut k = Kernel::boot(boot_ctx());
    let c1 = k.sys_fork().unwrap();
    let c2 = k.sys_fork().unwrap();
    // let child 2 go to sleep first, so that ascending-pid order in the
    // wake-up cannot be mere insertion order
    k.sys_yield();
    assert_eq!(k.current_pid(), Some(c1));
    k.sys_yield();
    assert_eq!(k.current_pid(), Some(c2));
    k.sys_sleep(100).unwrap();
    assert_eq!(k.current_pid(), Some(0));
    k.sys_yield();
    // now child 1 runs and sleeps until the same wake tick
    assert_eq!(k.current_pid(), Some(c1));
    k.sys_sleep(100).unwrap();
    // the parent keeps the unit busy while the timer runs down
    assert_eq!(k.current_pid(), Some(0));
    for _ in 0..10 {
        k.advance_tick().unwrap();
    }
    // both woke at the same tick; ascending pid order breaks the tie
    assert_eq!(k.ready_queue, vec![c1, c2]);
}

#[test]
fn sleepers_with_distinct_wake_ticks_wake_in_tick_order() {
    let mut k = Kernel::boot(boot_ctx());
    let c1 = k.sys_fork().unwrap();
    let c2 = k.sys_fork().unwrap();
    k.sys_yield();
    assert_eq!(k.current_pid(), Some(c1));
    k.sys_sleep(200).unwrap();
    assert_eq!(k.current_pid(), Some(c2));
    k.sys_sleep(100).unwrap();
    assert_eq!(k.current_pid(), Some(0));
    for _ in 0..20 {
        k.advance_tick().unwrap();
    }
    // child 2 was due at tick 10, child 1 only at tick 20
    assert_eq!(k.ready_queue, vec![c2, c1]);
}

#[test]
fn sleep_overflow_is_fatal_and_changes_nothing() {
    let mut k = Kernel::boot(boot_ctx());
    k.tick = u64::MAX - 5;
    let r = k.sys_sleep(100);
    assert_eq!(r.unwrap_err(), KernelError::Overflow);
    assert_eq!(k.current_pid(), Some(0));
    assert_eq!(k.get_time(), u64::MAX - 5);
}

#[test]
fn tick_overflow_is_fatal() {
    let mut k = Kernel::boot(boot_ctx());
    k.tick = u64::MAX;
    assert_eq!(k.advance_tick().unwrap_err(), KernelError::Overflow);
    assert_eq!(k.get_time(), u64::MAX);
}

#[test]
fn sleepy_child_end_to_end() {
    // parent forks; the child sleeps 100 ms five times, then exits 0; the
    // parent blocks in waitpid and afterwards observes exit code 0, the
    // child's pid, and at least 500 ms of elapsed time in tick units
    let mut k = Kernel::boot(boot_ctx());
    let start = k.get_time();
    let child = k.sys_fork().unwrap();
    // the parent waits; the child is scheduled
    let r = k.sys_waitpid(WaitTarget::Child(child)).unwrap();
    assert_eq!(r, WaitOutcome::WouldBlock);
    assert_eq!(k.current_pid(), Some(child));
    let mut laps: u32 = 0;
    for _ in 0..5 {
        k.sys_sleep(100).unwrap();
        idle_until_scheduled(&mut k);
        assert_eq!(k.current_pid(), Some(child));
        laps += 1;
    }
    assert_eq!(laps, 5);
    k.sys_exit(0);
    // the parent was woken by the exit and reaps the child
    assert_eq!(k.current_pid(), Some(0));
    let r = k.sys_waitpid(WaitTarget::Child(child)).unwrap();
    assert_eq!(r, WaitOutcome::Reaped { pid: child, exit_code: 0 });
    let elapsed = k.get_time() - start;
    assert!(elapsed >= ms_to_ticks(500));
    assert_eq!(k.table.lookup(child).unwrap_err(), KernelError::NotFound);
}

#[test]
fn waking_does_not_preempt_the_running_process() {
    let mut k = Kernel::boot(boot_ctx());
    let child = k.sys_fork().unwrap();
    k.sys_yield();
    assert_eq!(k.current_pid(), Some(child));
    k.sys_sleep(10).unwrap();
    // the parent runs; the child becomes ready while the parent holds the
    // unit, and waits at the back of the queue rather than preempting
    assert_eq!(k.current_pid(), Some(0));
    k.advance_tick().unwrap();
    k.schedule();
    assert_eq!(k.current_pid(), Some(0));
    assert_eq!(k.ready_queue, vec![child]);
}
