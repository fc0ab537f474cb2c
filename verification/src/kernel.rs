use vstd::prelude::*;

use crate::process::{
    ExecContext, KernelError, ProcState, ProcessDescriptor, WaitOutcome, WaitTarget,
    TICK_GRANULARITY_MS,
};
use crate::table::ProcessTable;

verus! {

/// One entry of the wake-ordered sleep queue.
#[derive(Clone, Copy, PartialEq, Eq, Structural, Debug)]
pub struct SleepEntry {
    pub wake_tick: u64,
    pub pid: usize,
}

/// The kernel core: process table, scheduler queues, the running process
/// and the monotonic tick counter. Exactly one process is `Running` at any
/// instant; all mutation happens inside one call, which models the single
/// global critical section of a cooperatively multiplexed execution unit.
pub struct Kernel {
    pub table: ProcessTable,
    /// FIFO queue of the `Ready` processes.
    pub ready_queue: Vec<usize>,
    /// `Sleeping` processes, strictly ordered by (wake tick, pid).
    pub sleep_queue: Vec<SleepEntry>,
    /// The single `Running` process, or `None` when the unit idles.
    pub current: Option<usize>,
    /// Ticks elapsed since boot; monotonically non-decreasing.
    pub tick: u64,
}

/// Strict order of the sleep queue: earlier wake tick first, ties broken by
/// ascending pid so that simultaneous wake-ups are deterministic.
pub open spec fn entry_lt(a: SleepEntry, b: SleepEntry) -> bool {
    a.wake_tick < b.wake_tick || (a.wake_tick == b.wake_tick && a.pid < b.pid)
}

/// Ticks needed to cover `ms` milliseconds: `ceil(ms / granularity)`.
pub open spec fn ticks_for_ms(ms: u64) -> int {
    (ms as int + TICK_GRANULARITY_MS as int - 1) / (TICK_GRANULARITY_MS as int)
}

/// Convert a duration in milliseconds to whole ticks, rounding up so that a
/// sleep never ends before the requested duration has elapsed.
pub fn ms_to_ticks(ms: u64) -> (t: u64)
    ensures
        t as int == ticks_for_ms(ms),
        ms == 0 <==> t == 0,
{
    let q = ms / TICK_GRANULARITY_MS;
    let r = ms % TICK_GRANULARITY_MS;
    proof {
        assert(ms == q * TICK_GRANULARITY_MS + r && r < TICK_GRANULARITY_MS) by {
            vstd::arithmetic::div_mod::lemma_fundamental_div_mod(
                ms as int,
                TICK_GRANULARITY_MS as int,
            );
        }
        assert(r == 0 ==> q as int == ticks_for_ms(ms)) by (nonlinear_arith)
            requires
                ms == q * TICK_GRANULARITY_MS + r,
                r < TICK_GRANULARITY_MS,
                TICK_GRANULARITY_MS == 10,
        ;
        assert(r != 0 ==> q as int + 1 == ticks_for_ms(ms)) by (nonlinear_arith)
            requires
                ms == q * TICK_GRANULARITY_MS + r,
                r < TICK_GRANULARITY_MS,
                TICK_GRANULARITY_MS == 10,
        ;
        assert(q < u64::MAX) by (nonlinear_arith)
            requires
                ms == q * TICK_GRANULARITY_MS + r,
                r < TICK_GRANULARITY_MS,
                TICK_GRANULARITY_MS == 10,
                ms <= u64::MAX,
        ;
    }
    if r == 0 {
        q
    } else {
        q + 1
    }
}

/// Does a wait for `t` match the termination of child `child`?
pub open spec fn wait_matches(t: WaitTarget, child: usize) -> bool {
    match t {
        WaitTarget::AnyChild => true,
        WaitTarget::Child(p) => p == child,
    }
}

/// The pids carried by a sequence of sleep-queue entries, in queue order.
pub open spec fn pids_of(s: Seq<SleepEntry>) -> Seq<usize> {
    s.map_values(|e: SleepEntry| e.pid)
}

/// Every process that was a zombie before a step is still a zombie with the
/// same exit code after it: termination is irreversible short of reaping.
pub open spec fn zombies_preserved(pre: Kernel, post: Kernel) -> bool {
    forall|p: int|
        #[trigger] pre.is_zombie(p) ==> post.is_zombie(p) && post.zombie_code(p)
            == pre.zombie_code(p)
}

impl Kernel {
    pub open spec fn n(self) -> int {
        self.table.n()
    }

    pub open spec fn slot_of(self, p: int) -> Option<ProcessDescriptor> {
        self.table.slot_of(p)
    }

    pub open spec fn live(self, p: int) -> bool {
        self.table.is_live(p)
    }

    pub open spec fn desc_of(self, p: int) -> ProcessDescriptor {
        self.table.desc(p)
    }

    pub open spec fn st_of(self, p: int) -> ProcState {
        self.table.desc(p).state
    }

    pub open spec fn is_ready(self, p: int) -> bool {
        self.live(p) && self.st_of(p) is Ready
    }

    pub open spec fn is_running(self, p: int) -> bool {
        self.live(p) && self.st_of(p) is Running
    }

    pub open spec fn is_sleeping(self, p: int) -> bool {
        self.live(p) && self.st_of(p) is Sleeping
    }

    pub open spec fn is_blocked(self, p: int) -> bool {
        self.live(p) && self.st_of(p) is BlockedOnWait
    }

    pub open spec fn is_zombie(self, p: int) -> bool {
        self.live(p) && self.st_of(p) is Zombie
    }

    pub open spec fn zombie_code(self, p: int) -> i32 {
        self.st_of(p)->exit_code
    }

    pub open spec fn wake_of(self, p: int) -> u64 {
        self.st_of(p)->wake_tick
    }

    pub open spec fn children_of(self, p: int) -> Seq<usize> {
        self.table.desc(p).children@
    }

    pub open spec fn parent_of(self, p: int) -> Option<usize> {
        self.table.desc(p).parent
    }

    pub open spec fn rq(self) -> Seq<usize> {
        self.ready_queue@
    }

    pub open spec fn sq(self) -> Seq<SleepEntry> {
        self.sleep_queue@
    }

    /// Well-formedness of the table: each live slot holds its own pid.
    pub open spec fn wf_table(self) -> bool {
        self.table.wf()
    }

    /// `current` and the `Running` state coincide: the process named by
    /// `current` is live and `Running`, and no other process is `Running`.
    pub open spec fn wf_current(self) -> bool {
        &&& (self.current matches Some(c) ==> self.is_running(c as int))
        &&& (forall|p: int| #[trigger] self.is_running(p) ==> self.current == Some(p as usize))
    }

    /// The ready queue holds exactly the `Ready` processes, each once.
    pub open spec fn wf_ready_queue(self) -> bool {
        &&& (forall|i: int| 0 <= i < self.rq().len() ==> self.is_ready(#[trigger] self.rq()[i] as int))
        &&& (forall|i: int, j: int|
            0 <= i < j < self.rq().len() ==> self.rq()[i] != self.rq()[j])
        &&& (forall|p: int| #[trigger] self.is_ready(p) ==> self.rq().contains(p as usize))
    }

    /// The sleep queue holds exactly the `Sleeping` processes, strictly
    /// ordered by (wake tick, pid), every wake tick still in the future.
    pub open spec fn wf_sleep_queue(self) -> bool {
        &&& (forall|i: int|
            0 <= i < self.sq().len() ==> {
                let e = #[trigger] self.sq()[i];
                self.is_sleeping(e.pid as int) && self.wake_of(e.pid as int) == e.wake_tick
            })
        &&& (forall|i: int, j: int|
            0 <= i < j < self.sq().len() ==> entry_lt(self.sq()[i], self.sq()[j]))
        &&& (forall|p: int|
            #[trigger] self.is_sleeping(p) ==> exists|i: int|
                0 <= i < self.sq().len() && (#[trigger] self.sq()[i]).pid == p)
    }

    /// Every wake tick still lies strictly in the future: no sleeper is
    /// overdue once an operation has completed.
    pub open spec fn sleep_wakes_future(self) -> bool {
        forall|i: int|
            0 <= i < self.sq().len() ==> (#[trigger] self.sq()[i]).wake_tick > self.tick
    }

    /// Parent/child edges: every entry of a live process's `children` list
    /// is a live process created later than its parent whose back-reference
    /// names that parent, and the list is strictly ascending (creation
    /// order; pids are monotone, so also ascending pid order).
    pub open spec fn wf_children(self) -> bool {
        &&& (forall|p: int, i: int|
            self.live(p) && 0 <= i < self.children_of(p).len() ==> {
                let c = (#[trigger] self.children_of(p)[i]) as int;
                &&& self.live(c)
                &&& self.parent_of(c) == Some((p as usize))
                &&& c > p
            })
        &&& (forall|p: int, i: int, j: int|
            self.live(p) && 0 <= i < j < self.children_of(p).len()
                ==> #[trigger] self.children_of(p)[i] < #[trigger] self.children_of(p)[j])
    }

    /// The exit of process `c` unblocks its parent: the parent is live and
    /// sits in `BlockedOnWait` with a target that `c`'s termination matches.
    pub open spec fn exit_wakes_parent(self, c: int) -> bool {
        match self.parent_of(c) {
            Some(q) => self.live(q as int) && (self.st_of(q as int)
                matches ProcState::BlockedOnWait { target } && wait_matches(target, (c as usize))),
            None => false,
        }
    }

    /// The first zombie among the pids of `s`, scanned front to back.
    /// Applied to a `children` list, which is ascending, this is the
    /// lowest-pid zombie child: the deterministic pick of a wildcard wait.
    pub open spec fn first_zombie_in(self, s: Seq<usize>) -> Option<usize>
        decreases s.len(),
    {
        if s.len() == 0 {
            None
        } else if self.is_zombie(s[0] as int) {
            Some(s[0])
        } else {
            self.first_zombie_in(s.skip(1))
        }
    }

    /// The child that a `waitpid` by `c` for `target` can reap right away:
    /// the targeted child if it is a zombie, or the first (lowest-pid)
    /// zombie child for a wildcard wait. `None` when the caller must block.
    pub open spec fn wait_ready_child(self, c: int, target: WaitTarget) -> Option<usize> {
        match target {
            WaitTarget::Child(t) => if self.children_of(c).contains(t) && self.is_zombie(
                t as int,
            ) {
                Some(t)
            } else {
                None
            },
            WaitTarget::AnyChild => self.first_zombie_in(self.children_of(c)),
        }
    }

    /// The single kernel invariant: every constructor establishes it and
    /// every operation preserves it.
    pub open spec fn wf(self) -> bool {
        &&& self.wf_table()
        &&& self.wf_current()
        &&& self.wf_ready_queue()
        &&& self.wf_sleep_queue()
        &&& self.sleep_wakes_future()
        &&& self.wf_children()
    }

    /// Kernel bootstrap: a table holding only the root process (pid 0),
    /// already `Running`, with empty queues and the tick counter at zero.
    pub fn boot(root_ctx: ExecContext) -> (k: Kernel)
        ensures
            k.wf(),
            k.n() == 1,
            k.live(0),
            k.st_of(0) is Running,
            k.parent_of(0) is None,
            k.children_of(0).len() == 0,
            k.desc_of(0).ctx == root_ctx,
            k.current == Some(0usize),
            k.tick == 0,
            k.rq().len() == 0,
            k.sq().len() == 0,
    {
        let root = ProcessDescriptor {
            pid: 0,
            parent: None,
            children: Vec::new(),
            state: ProcState::Running,
            ctx: root_ctx,
        };
        let mut table = ProcessTable::new();
        table.slots.push(Some(root));
        Kernel {
            table,
            ready_queue: Vec::new(),
            sleep_queue: Vec::new(),
            current: Some(0),
            tick: 0,
        }
    }

    /// After replacing one slot with a descriptor that differs only in its
    /// `state`, everything but that process's state is as it was.
    proof fn lemma_state_update_frame(pre: Kernel, post: Kernel, c: int, st: ProcState)
        requires
            pre.wf_table(),
            pre.live(c),
            post.table.slots@ == pre.table.slots@.update(
                c,
                Some((ProcessDescriptor { state: st, ..pre.desc_of(c) })),
            ),
        ensures
            post.n() == pre.n(),
            forall|p: int| #[trigger] post.live(p) == pre.live(p),
            forall|p: int| p != c ==> #[trigger] post.slot_of(p) == pre.slot_of(p),
            forall|p: int| p != c ==> #[trigger] post.st_of(p) == pre.st_of(p),
            forall|p: int|
                pre.live(p) ==> #[trigger] post.children_of(p) == pre.children_of(p)
                    && post.parent_of(p) == pre.parent_of(p),
            post.live(c),
            post.st_of(c) == st,
            post.desc_of(c).ctx == pre.desc_of(c).ctx,
            post.desc_of(c).pid == pre.desc_of(c).pid,
            post.wf_table(),
    {
        assert(post.n() == pre.n());
        assert forall|p: int| #[trigger] post.live(p) == pre.live(p) by {
            if p != c {
                assert(post.slot_of(p) == pre.slot_of(p));
            }
        }
        assert forall|p: int| pre.live(p) implies #[trigger] post.children_of(p)
            == pre.children_of(p) && post.parent_of(p) == pre.parent_of(p) by {
            if p != c {
                assert(post.slot_of(p) == pre.slot_of(p));
            }
        }
        assert forall|p: int| #[trigger] post.table.is_live(p) implies post.table.desc(p).pid
            == p by {
            if p != c {
                assert(post.slot_of(p) == pre.slot_of(p));
                assert(pre.table.is_live(p));
            } else {
                assert(pre.table.is_live(c));
                assert(pre.table.desc(c).pid == c);
                assert(post.table.desc(c).pid == pre.desc_of(c).pid);
            }
        }
    }

    /// Parent/child well-formedness depends only on liveness and on the
    /// `children` and `parent` fields; a step that keeps those keeps it.
    proof fn lemma_children_frame(pre: Kernel, post: Kernel)
        requires
            pre.wf_children(),
            forall|p: int| #[trigger] post.live(p) == pre.live(p),
            forall|p: int|
                pre.live(p) ==> #[trigger] post.children_of(p) == pre.children_of(p)
                    && post.parent_of(p) == pre.parent_of(p),
        ensures
            post.wf_children(),
    {
        assert forall|p: int, i: int|
            post.live(p) && 0 <= i < post.children_of(p).len() implies {
                let c = (#[trigger] post.children_of(p)[i]) as int;
                &&& post.live(c)
                &&& post.parent_of(c) == Some((p as usize))
                &&& c > p
            } by {
            assert(pre.live(p));
            assert(post.children_of(p) == pre.children_of(p));
            let c = post.children_of(p)[i] as int;
            assert(pre.children_of(p)[i] == post.children_of(p)[i]);
            assert(pre.live(c) && pre.parent_of(c) == Some((p as usize)) && c > p);
            assert(post.live(c) == pre.live(c));
            assert(post.children_of(c) == pre.children_of(c) && post.parent_of(c)
                == pre.parent_of(c));
        }
        assert forall|p: int, i: int, j: int|
            post.live(p) && 0 <= i < j < post.children_of(p).len() implies #[trigger] post
            .children_of(p)[i] < #[trigger] post.children_of(p)[j] by {
            assert(post.children_of(p) == pre.children_of(p));
            assert(pre.children_of(p)[i] == post.children_of(p)[i]);
            assert(pre.children_of(p)[j] == post.children_of(p)[j]);
        }
    }

    /// Sleep-queue well-formedness survives a step that keeps the queue,
    /// the tick, liveness, and the state of every sleeping process.
    proof fn lemma_sleep_frame(pre: Kernel, post: Kernel)
        requires
            pre.wf_sleep_queue(),
            pre.sleep_wakes_future(),
            post.sq() == pre.sq(),
            post.tick == pre.tick,
            forall|p: int| #[trigger] post.live(p) == pre.live(p),
            forall|p: int|
                pre.live(p) && (pre.st_of(p) is Sleeping || post.st_of(p) is Sleeping)
                    ==> #[trigger] post.st_of(p) == pre.st_of(p),
        ensures
            post.wf_sleep_queue(),
            post.sleep_wakes_future(),
    {
        assert forall|i: int| 0 <= i < post.sq().len() implies (#[trigger] post.sq()[i]).wake_tick
            > post.tick by {
            assert(pre.sq()[i] == post.sq()[i]);
        }
        assert forall|i: int| 0 <= i < post.sq().len() implies {
            let e = #[trigger] post.sq()[i];
            post.is_sleeping(e.pid as int) && post.wake_of(e.pid as int) == e.wake_tick
        } by {
            assert(pre.sq()[i] == post.sq()[i]);
            let e = post.sq()[i];
            assert(pre.is_sleeping(e.pid as int));
        }
        assert forall|p: int| #[trigger] post.is_sleeping(p) implies exists|i: int|
            0 <= i < post.sq().len() && (#[trigger] post.sq()[i]).pid == p by {
            assert(pre.is_sleeping(p));
            let i = choose|i: int| 0 <= i < pre.sq().len() && (#[trigger] pre.sq()[i]).pid == p;
            assert(0 <= i < post.sq().len() && post.sq()[i].pid == p);
        }
    }

    /// Make the head of the ready queue the running process; idle if the
    /// queue is empty. Callers have already suspended the previous process.
    fn pick_next(&mut self)
        requires
            old(self).wf(),
            old(self).current is None,
        ensures
            final(self).wf(),
            final(self).tick == old(self).tick,
            final(self).sq() == old(self).sq(),
            final(self).n() == old(self).n(),
            zombies_preserved(*old(self), *final(self)),
            old(self).rq().len() == 0 ==> *final(self) == *old(self),
            old(self).rq().len() > 0 ==> {
                let c = old(self).rq()[0];
                &&& final(self).current == Some(c)
                &&& final(self).is_running(c as int)
                &&& final(self).rq() == old(self).rq().skip(1)
                &&& (forall|p: int|
                    p != c as int ==> #[trigger] final(self).slot_of(p) == old(self).slot_of(p))
                &&& final(self).desc_of(c as int) == (ProcessDescriptor {
                    state: ProcState::Running,
                    ..old(self).desc_of(c as int)
                })
            },
    {
        if self.ready_queue.len() == 0 {
            return ;
        }
        let ghost pre = *self;
        let c = self.ready_queue.remove(0);
        let _ = self.table.set_state(c, ProcState::Running);
        self.current = Some(c);
        proof {
            let post = *self;
            assert(pre.is_ready(c as int));
            Self::lemma_state_update_frame(pre, post, c as int, ProcState::Running);
            assert(post.rq() =~= pre.rq().skip(1));
            // well-formedness of the new state
            assert forall|p: int| #[trigger] post.is_running(p) implies post.current == Some(
                (p as usize),
            ) by {
                if p != c as int {
                    assert(pre.st_of(p) == post.st_of(p));
                    assert(pre.is_running(p));
                }
            }
            assert forall|i: int| 0 <= i < post.rq().len() implies post.is_ready(
                #[trigger] post.rq()[i] as int,
            ) by {
                assert(post.rq()[i] == pre.rq()[i + 1]);
                assert(pre.is_ready(pre.rq()[i + 1] as int));
                assert(pre.rq()[i + 1] != pre.rq()[0]);
            }
            assert forall|p: int| #[trigger] post.is_ready(p) implies post.rq().contains(
                (p as usize),
            ) by {
                assert(p != c as int);
                assert(pre.is_ready(p));
                let j = choose|j: int| 0 <= j < pre.rq().len() && pre.rq()[j] == (p as usize);
                assert(pre.rq()[j] != pre.rq()[0]);
                assert(j != 0);
                assert(post.rq()[j - 1] == (p as usize));
            }
            Self::lemma_sleep_frame(pre, post);
            Self::lemma_children_frame(pre, post);
            assert(post.wf());
        }
    }

    /// `yield_current()`: the running process moves to the back of the
    /// ready queue and the head of the queue runs; with an empty queue the
    /// caller itself is picked again at once.
    pub fn sys_yield(&mut self)
        requires
            old(self).wf(),
            old(self).current is Some,
        ensures
            final(self).wf(),
            final(self).tick == old(self).tick,
            final(self).sq() == old(self).sq(),
            final(self).n() == old(self).n(),
            zombies_preserved(*old(self), *final(self)),
            old(self).rq().len() == 0 ==> final(self).table.slots@ == old(self).table.slots@
                && final(self).rq() == old(self).rq() && final(self).current == old(self).current,
            old(self).rq().len() > 0 ==> {
                let c = old(self).current.unwrap();
                let h = old(self).rq()[0];
                &&& final(self).current == Some(h)
                &&& final(self).is_running(h as int)
                &&& final(self).is_ready(c as int)
                &&& final(self).desc_of(h as int) == (ProcessDescriptor {
                    state: ProcState::Running,
                    ..old(self).desc_of(h as int)
                })
                &&& final(self).desc_of(c as int) == (ProcessDescriptor {
                    state: ProcState::Ready,
                    ..old(self).desc_of(c as int)
                })
                &&& final(self).rq() == old(self).rq().skip(1).push(c)
                &&& (forall|p: int|
                    p != c as int && p != h as int ==> #[trigger] final(self).slot_of(p) == old(self).slot_of(p))
            },
    {
        let ghost pre = *self;
        let c = self.current.unwrap();
        let _ = self.table.set_state(c, ProcState::Ready);
        self.ready_queue.push(c);
        self.current = None;
        proof {
            let mid = *self;
            assert(pre.is_running(c as int));
            Self::lemma_state_update_frame(pre, mid, c as int, ProcState::Ready);
            // the suspended caller is Ready and last in the queue
            assert(mid.rq() == pre.rq().push(c));
            assert forall|p: int| #[trigger] mid.is_running(p) implies mid.current == Some(
                (p as usize),
            ) by {
                if p != c as int {
                    assert(pre.is_running(p));
                    assert(pre.current == Some((p as usize)));
                }
                assert(false);
            }
            assert forall|i: int| 0 <= i < mid.rq().len() implies mid.is_ready(
                #[trigger] mid.rq()[i] as int,
            ) by {
                if i < pre.rq().len() {
                    assert(mid.rq()[i] == pre.rq()[i]);
                    assert(pre.is_ready(pre.rq()[i] as int));
                    assert(pre.rq()[i] != c);
                } else {
                    assert(mid.rq()[i] == c);
                }
            }
            assert forall|i: int, j: int| 0 <= i < j < mid.rq().len() implies mid.rq()[i]
                != mid.rq()[j] by {
                if j < pre.rq().len() {
                } else {
                    assert(mid.rq()[j] == c);
                    assert(pre.is_ready(pre.rq()[i] as int));
                    assert(pre.rq()[i] != c);
                }
            }
            assert forall|p: int| #[trigger] mid.is_ready(p) implies mid.rq().contains(
                (p as usize),
            ) by {
                if p == c as int {
                    assert(mid.rq()[mid.rq().len() - 1] == (p as usize));
                } else {
                    assert(pre.is_ready(p));
                    let j = choose|j: int| 0 <= j < pre.rq().len() && pre.rq()[j] == (p as usize);
                    assert(mid.rq()[j] == (p as usize));
                }
            }
            Self::lemma_sleep_frame(pre, mid);
            Self::lemma_children_frame(pre, mid);
            assert(mid.wf());
        }
        let ghost mid = *self;
        self.pick_next();
        proof {
            if pre.rq().len() == 0 {
                assert(mid.rq().len() == 1);
                assert(mid.rq()[0] == c);
                assert(pre.st_of(c as int) is Running);
                assert(pre.st_of(c as int) == ProcState::Running);
                assert(self.desc_of(c as int) == (ProcessDescriptor {
                    state: ProcState::Running,
                    ..mid.desc_of(c as int)
                }));
                assert(mid.desc_of(c as int) == (ProcessDescriptor {
                    state: ProcState::Ready,
                    ..pre.desc_of(c as int)
                }));
                assert(self.desc_of(c as int) == pre.desc_of(c as int));
                assert forall|p: int|
                    0 <= p < self.table.slots@.len() implies self.table.slots@[p]
                    == pre.table.slots@[p] by {
                    if p != c as int {
                        assert(self.slot_of(p) == mid.slot_of(p));
                        assert(mid.slot_of(p) == pre.slot_of(p));
                    } else {
                        assert(self.slot_of(p) == Some(self.desc_of(p)));
                        assert(pre.slot_of(p) == Some(pre.desc_of(p)));
                    }
                }
                assert(self.table.slots@ =~= pre.table.slots@);
                assert(self.rq() =~= pre.rq());
            } else {
                assert(mid.rq()[0] == pre.rq()[0]);
                assert(self.rq() =~= pre.rq().skip(1).push(c));
                let h = pre.rq()[0];
                assert(pre.is_ready(h as int));
                assert(h != c);
                assert(self.slot_of(c as int) == mid.slot_of(c as int));
                assert(mid.is_ready(c as int));
                assert(self.is_ready(c as int));
                assert(mid.desc_of(c as int) == (ProcessDescriptor {
                    state: ProcState::Ready,
                    ..pre.desc_of(c as int)
                }));
                assert(self.desc_of(c as int) == mid.desc_of(c as int));
                assert(mid.slot_of(h as int) == pre.slot_of(h as int));
                assert(self.desc_of(h as int) == (ProcessDescriptor {
                    state: ProcState::Running,
                    ..mid.desc_of(h as int)
                }));
                assert(self.desc_of(h as int) == (ProcessDescriptor {
                    state: ProcState::Running,
                    ..pre.desc_of(h as int)
                }));
                assert forall|p: int|
                    p != c as int && p != h as int implies #[trigger] self.slot_of(p)
                    == pre.slot_of(p) by {
                    assert(self.slot_of(p) == mid.slot_of(p));
                    assert(mid.slot_of(p) == pre.slot_of(p));
                }
            }
            assert forall|p: int| #[trigger] pre.is_zombie(p) implies self.is_zombie(p)
                && self.zombie_code(p) == pre.zombie_code(p) by {
                assert(p != c as int);
                assert(mid.slot_of(p) == pre.slot_of(p));
                assert(mid.is_zombie(p));
            }
        }
    }

    /// `fork()`: duplicate the running process. The child starts `Ready`
    /// at the back of the ready queue, owning a copy of the parent's
    /// execution context whose syscall-return register reads `0`; the
    /// parent keeps running and receives the child's pid. This return-value
    /// duality (`0` in the child, the new pid in the parent) is the
    /// invariant callers depend on. Fails with `Overflow` only when the pid
    /// space is exhausted.
    pub fn sys_fork(&mut self) -> (r: Result<usize, KernelError>)
        requires
            old(self).wf(),
            old(self).current is Some,
        ensures
            final(self).wf(),
            final(self).tick == old(self).tick,
            final(self).sq() == old(self).sq(),
            final(self).current == old(self).current,
            zombies_preserved(*old(self), *final(self)),
            old(self).n() == usize::MAX as int ==> r == Err::<usize, KernelError>(
                KernelError::Overflow,
            ) && *final(self) == *old(self),
            old(self).n() < usize::MAX as int ==> {
                let c = old(self).current.unwrap() as int;
                let child = old(self).n();
                &&& r == Ok::<usize, KernelError>((child as usize))
                &&& final(self).n() == child + 1
                &&& final(self).live(child)
                &&& final(self).st_of(child) is Ready
                &&& final(self).parent_of(child) == Some(old(self).current.unwrap())
                &&& final(self).children_of(child).len() == 0
                &&& final(self).desc_of(child).ctx == (ExecContext {
                    ret_val: 0,
                    ..old(self).desc_of(c).ctx
                })
                &&& final(self).children_of(c) == old(self).children_of(c).push((child as usize))
                &&& final(self).st_of(c) == old(self).st_of(c)
                &&& final(self).desc_of(c).ctx == old(self).desc_of(c).ctx
                &&& final(self).parent_of(c) == old(self).parent_of(c)
                &&& final(self).desc_of(c).pid == old(self).desc_of(c).pid
                &&& final(self).rq() == old(self).rq().push((child as usize))
                &&& (forall|q: int|
                    q != c && q != child ==> #[trigger] final(self).slot_of(q) == old(self).slot_of(q))
            },
    {
        if self.table.slots.len() == usize::MAX {
            return Err(KernelError::Overflow);
        }
        let ghost pre = *self;
        let cur = self.current.unwrap();
        let child = match self.table.create(cur) {
            Ok(p) => p,
            Err(_) => vstd::pervasive::unreached(),
        };
        let ghost a = *self;
        let _ = self.table.set_syscall_ret(child, 0);
        self.ready_queue.push(child);
        proof {
            let post = *self;
            assert(pre.is_running(cur as int));
            let c = cur as int;
            let ch = child as int;
            assert(ch == pre.n());
            assert(c < pre.n());
            // effect of zeroing the child's syscall-return register
            assert(post.table.slots@ == a.table.slots@.update(
                ch,
                Some(
                    (ProcessDescriptor {
                        ctx: (ExecContext { ret_val: 0, ..a.desc_of(ch).ctx }),
                        ..a.desc_of(ch)
                    }),
                ),
            ));
            assert forall|q: int| q != ch implies #[trigger] post.slot_of(q) == a.slot_of(q) by {}
            assert forall|q: int|
                q != c && q != ch implies #[trigger] post.slot_of(q) == pre.slot_of(q) by {
                assert(a.slot_of(q) == pre.slot_of(q));
            }
            assert(post.st_of(ch) is Ready);
            assert(post.children_of(c) == pre.children_of(c).push(child));
            assert(post.st_of(c) == pre.st_of(c));
            assert(post.parent_of(c) == pre.parent_of(c));
            assert(post.desc_of(c).pid == pre.desc_of(c).pid);
            // table well-formedness: pids unchanged
            assert forall|p: int| #[trigger] post.table.is_live(p) implies post.table.desc(p).pid
                == p by {
                if p != ch {
                    assert(post.slot_of(p) == a.slot_of(p));
                    assert(a.table.is_live(p));
                    assert(a.table.desc(p).pid == p);
                } else {
                    assert(a.table.desc(ch).pid == child);
                }
            }
            // exactly one running process, the unchanged current
            assert forall|p: int| #[trigger] post.is_running(p) implies post.current == Some(
                (p as usize),
            ) by {
                if p != c && p != ch {
                    assert(post.slot_of(p) == pre.slot_of(p));
                    assert(pre.is_running(p));
                }
            }
            // ready queue: old entries kept, the child appended once
            assert forall|i: int| 0 <= i < post.rq().len() implies post.is_ready(
                #[trigger] post.rq()[i] as int,
            ) by {
                if i < pre.rq().len() {
                    assert(post.rq()[i] == pre.rq()[i]);
                    assert(pre.is_ready(pre.rq()[i] as int));
                    let q = pre.rq()[i] as int;
                    assert(q != c && q != ch);
                    assert(post.slot_of(q) == pre.slot_of(q));
                } else {
                    assert(post.rq()[i] == child);
                }
            }
            assert forall|i: int, j: int| 0 <= i < j < post.rq().len() implies post.rq()[i]
                != post.rq()[j] by {
                if j < pre.rq().len() {
                } else {
                    assert(post.rq()[j] == child);
                    let q = pre.rq()[i] as int;
                    assert(pre.is_ready(q));
                    assert(q < pre.n());
                }
            }
            assert forall|p: int| #[trigger] post.is_ready(p) implies post.rq().contains(
                (p as usize),
            ) by {
                if p == ch {
                    assert(post.rq()[post.rq().len() - 1] == (p as usize));
                } else if p != c {
                    assert(post.slot_of(p) == pre.slot_of(p));
                    assert(pre.is_ready(p));
                    let j = choose|j: int|
                        0 <= j < pre.rq().len() && pre.rq()[j] == (p as usize);
                    assert(post.rq()[j] == (p as usize));
                }
            }
            // sleep queue untouched; no sleeper's state changed
            assert forall|i: int| 0 <= i < post.sq().len() implies {
                let e = #[trigger] post.sq()[i];
                post.is_sleeping(e.pid as int) && post.wake_of(e.pid as int) == e.wake_tick
            } by {
                assert(post.sq()[i] == pre.sq()[i]);
                let e = post.sq()[i];
                assert(pre.is_sleeping(e.pid as int));
                let q = e.pid as int;
                assert(q != c && q != ch);
                assert(post.slot_of(q) == pre.slot_of(q));
            }
            assert forall|i: int, j: int| 0 <= i < j < post.sq().len() implies entry_lt(
                post.sq()[i],
                post.sq()[j],
            ) by {
                assert(post.sq()[i] == pre.sq()[i]);
                assert(post.sq()[j] == pre.sq()[j]);
            }
            assert forall|p: int| #[trigger] post.is_sleeping(p) implies exists|i: int|
                0 <= i < post.sq().len() && (#[trigger] post.sq()[i]).pid == p by {
                assert(p != ch && p != c);
                assert(post.slot_of(p) == pre.slot_of(p));
                assert(pre.is_sleeping(p));
                let i = choose|i: int|
                    0 <= i < pre.sq().len() && (#[trigger] pre.sq()[i]).pid == p;
                assert(0 <= i < post.sq().len() && post.sq()[i].pid == p);
            }
            assert forall|i: int| 0 <= i < post.sq().len() implies (#[trigger] post.sq()[i]).wake_tick
                > post.tick by {
                assert(post.sq()[i] == pre.sq()[i]);
            }
            // parent/child edges
            assert forall|p: int, i: int|
                post.live(p) && 0 <= i < post.children_of(p).len() implies {
                    let q = (#[trigger] post.children_of(p)[i]) as int;
                    &&& post.live(q)
                    &&& post.parent_of(q) == Some((p as usize))
                    &&& q > p
                } by {
                if p == ch {
                } else if p == c && i == pre.children_of(c).len() {
                    assert(post.children_of(p)[i] == child);
                    assert(post.parent_of(ch) == Some(cur));
                } else {
                    let q = post.children_of(p)[i] as int;
                    if p == c {
                        assert(post.children_of(p)[i] == pre.children_of(p)[i]);
                    } else {
                        assert(post.slot_of(p) == pre.slot_of(p));
                        assert(post.children_of(p) == pre.children_of(p));
                    }
                    assert(pre.children_of(p)[i] == post.children_of(p)[i]);
                    assert(pre.live(q) && pre.parent_of(q) == Some((p as usize)) && q > p);
                    assert(q < pre.n());
                    assert(q != ch);
                    if q != c {
                        assert(post.slot_of(q) == pre.slot_of(q));
                    }
                }
            }
            assert forall|p: int, i: int, j: int|
                post.live(p) && 0 <= i < j < post.children_of(p).len()
                    implies #[trigger] post.children_of(p)[i] < #[trigger] post.children_of(
                    p,
                )[j] by {
                if p == c {
                    if j == pre.children_of(c).len() {
                        assert(post.children_of(p)[j] == child);
                        assert(pre.children_of(p)[i] == post.children_of(p)[i]);
                        let q = pre.children_of(p)[i] as int;
                        assert(pre.live(q));
                        assert(q < pre.n());
                    } else {
                        assert(pre.children_of(p)[i] == post.children_of(p)[i]);
                        assert(pre.children_of(p)[j] == post.children_of(p)[j]);
                    }
                } else if p != ch {
                    assert(post.slot_of(p) == pre.slot_of(p));
                    assert(post.children_of(p) == pre.children_of(p));
                    assert(pre.children_of(p)[i] == post.children_of(p)[i]);
                    assert(pre.children_of(p)[j] == post.children_of(p)[j]);
                }
            }
            // zombies untouched
            assert forall|p: int| #[trigger] pre.is_zombie(p) implies post.is_zombie(p)
                && post.zombie_code(p) == pre.zombie_code(p) by {
                assert(p != c && p != ch);
                assert(post.slot_of(p) == pre.slot_of(p));
            }
            assert(post.wf());
        }
        Ok(child)
    }

    /// `exit(code)`: the running process becomes `Zombie(code)`; the state
    /// and code persist until a `waitpid` reaps it. If its parent is
    /// blocked waiting for exactly this child (or for any child), the
    /// parent becomes `Ready` immediately. Children of the exiting process
    /// are unaffected: there is no cascading termination. The head of the
    /// ready queue runs next.
    pub fn sys_exit(&mut self, code: i32)
        requires
            old(self).wf(),
            old(self).current is Some,
        ensures
            final(self).wf(),
            final(self).tick == old(self).tick,
            final(self).sq() == old(self).sq(),
            final(self).n() == old(self).n(),
            zombies_preserved(*old(self), *final(self)),
            ({
                let c = old(self).current.unwrap() as int;
                let woken = old(self).exit_wakes_parent(c);
                let rq_mid = if woken {
                    old(self).rq().push(old(self).parent_of(c).unwrap())
                } else {
                    old(self).rq()
                };
                &&& final(self).is_zombie(c)
                &&& final(self).zombie_code(c) == code
                &&& final(self).desc_of(c) == (ProcessDescriptor {
                    state: (ProcState::Zombie { exit_code: code }),
                    ..old(self).desc_of(c)
                })
                &&& final(self).children_of(c) == old(self).children_of(c)
                &&& (woken ==> {
                    let q = old(self).parent_of(c).unwrap() as int;
                    &&& final(self).live(q)
                    &&& !(final(self).st_of(q) is BlockedOnWait)
                    &&& (final(self).st_of(q) is Ready || (final(self).st_of(q) is Running
                        && final(self).current == Some(old(self).parent_of(c).unwrap())))
                    &&& final(self).desc_of(q) == (ProcessDescriptor {
                        state: final(self).st_of(q),
                        ..old(self).desc_of(q)
                    })
                })
                &&& (rq_mid.len() == 0 ==> final(self).current is None && final(self).rq() == old(self).rq())
                &&& (rq_mid.len() > 0 ==> {
                    let h = rq_mid[0];
                    &&& final(self).current == Some(h)
                    &&& final(self).is_running(h as int)
                    &&& final(self).desc_of(h as int) == (ProcessDescriptor {
                        state: ProcState::Running,
                        ..old(self).desc_of(h as int)
                    })
                    &&& final(self).rq() == rq_mid.skip(1)
                })
                &&& (forall|p: int|
                    p != c && (!woken || p != old(self).parent_of(c).unwrap() as int) && (
                    rq_mid.len() == 0 || p != rq_mid[0] as int)
                        ==> #[trigger] final(self).slot_of(p) == old(self).slot_of(p))
            }),
    {
        let ghost pre = *self;
        let c = self.current.unwrap();
        let parent_opt = match self.table.lookup(c) {
            Ok(d) => d.parent,
            Err(_) => vstd::pervasive::unreached(),
        };
        let _ = self.table.set_state(c, ProcState::Zombie { exit_code: code });
        let ghost mid1 = *self;
        proof {
            assert(pre.is_running(c as int));
            Self::lemma_state_update_frame(
                pre,
                mid1,
                c as int,
                ProcState::Zombie { exit_code: code },
            );
        }
        let mut woken = false;
        let ghost mut parent_ghost: int = 0;
        match parent_opt {
            Some(q) => {
                proof {
                    parent_ghost = q as int;
                }
                let blocked_match = match self.table.lookup(q) {
                    Ok(qd) => match qd.state {
                        ProcState::BlockedOnWait { target } => match target {
                            WaitTarget::AnyChild => true,
                            WaitTarget::Child(t) => t == c,
                        },
                        _ => false,
                    },
                    Err(_) => false,
                };
                if blocked_match {
                    let _ = self.table.set_state(q, ProcState::Ready);
                    self.ready_queue.push(q);
                    woken = true;
                }
            },
            None => {},
        }
        self.current = None;
        proof {
            let mid = *self;
            assert(woken == pre.exit_wakes_parent(c as int));
            if woken {
                let q = parent_ghost;
                assert(q != c as int);
                assert(pre.st_of(q) is BlockedOnWait);
                Self::lemma_state_update_frame(mid1, mid, q, ProcState::Ready);
                assert(mid.rq() == pre.rq().push((q as usize)));
                assert forall|p: int|
                    p != c as int && p != q implies #[trigger] mid.slot_of(p) == pre.slot_of(
                    p,
                ) by {
                    assert(mid.slot_of(p) == mid1.slot_of(p));
                    assert(mid1.slot_of(p) == pre.slot_of(p));
                }
            } else {
                assert(mid.table.slots@ == mid1.table.slots@);
            }
            // nobody is running while the kernel picks the next process
            assert forall|p: int| #[trigger] mid.is_running(p) implies mid.current == Some(
                (p as usize),
            ) by {
                if p != c as int && (!woken || p != parent_ghost) {
                    assert(mid.slot_of(p) == pre.slot_of(p));
                    assert(pre.is_running(p));
                    assert(pre.current == Some((p as usize)));
                }
                assert(false);
            }
            // ready queue well-formed
            assert forall|i: int| 0 <= i < mid.rq().len() implies mid.is_ready(
                #[trigger] mid.rq()[i] as int,
            ) by {
                if i < pre.rq().len() {
                    assert(mid.rq()[i] == pre.rq()[i]);
                    assert(pre.is_ready(pre.rq()[i] as int));
                    let p = pre.rq()[i] as int;
                    assert(p != c as int);
                    if woken {
                        assert(p != parent_ghost);
                    }
                    assert(mid.slot_of(p) == pre.slot_of(p));
                } else {
                    assert(woken && mid.rq()[i] == (parent_ghost as usize));
                    assert(mid.st_of(parent_ghost) is Ready);
                }
            }
            assert forall|i: int, j: int| 0 <= i < j < mid.rq().len() implies mid.rq()[i]
                != mid.rq()[j] by {
                if j < pre.rq().len() {
                } else {
                    assert(woken && mid.rq()[j] == (parent_ghost as usize));
                    assert(pre.is_ready(pre.rq()[i] as int));
                    assert(pre.st_of(parent_ghost) is BlockedOnWait);
                }
            }
            assert forall|p: int| #[trigger] mid.is_ready(p) implies mid.rq().contains(
                (p as usize),
            ) by {
                if woken && p == parent_ghost {
                    assert(mid.rq()[mid.rq().len() - 1] == (p as usize));
                } else {
                    assert(p != c as int);
                    assert(mid.slot_of(p) == pre.slot_of(p));
                    assert(pre.is_ready(p));
                    let j = choose|j: int|
                        0 <= j < pre.rq().len() && pre.rq()[j] == (p as usize);
                    assert(mid.rq()[j] == (p as usize));
                }
            }
            // sleepers and family edges untouched
            assert forall|p: int|
                pre.live(p) && (pre.st_of(p) is Sleeping || mid.st_of(p) is Sleeping)
                    implies #[trigger] mid.st_of(p) == pre.st_of(p) by {
                assert(p != c as int);
                if woken {
                    assert(p != parent_ghost);
                }
                assert(mid.slot_of(p) == pre.slot_of(p));
            }
            Self::lemma_sleep_frame(pre, mid);
            Self::lemma_children_frame(pre, mid);
            assert(mid.wf());
        }
        let ghost mid = *self;
        self.pick_next();
        proof {
            let post = *self;
            let rq_mid = mid.rq();
            assert(mid.is_zombie(c as int));
            assert(mid1.desc_of(c as int) == (ProcessDescriptor {
                state: (ProcState::Zombie { exit_code: code }),
                ..pre.desc_of(c as int)
            }));
            if woken {
                assert(mid.desc_of(parent_ghost) == (ProcessDescriptor {
                    state: ProcState::Ready,
                    ..mid1.desc_of(parent_ghost)
                }));
                assert(mid1.slot_of(parent_ghost) == pre.slot_of(parent_ghost));
                assert(mid.desc_of(parent_ghost) == (ProcessDescriptor {
                    state: ProcState::Ready,
                    ..pre.desc_of(parent_ghost)
                }));
            }
            assert(mid.slot_of(c as int) == mid1.slot_of(c as int));
            if rq_mid.len() == 0 {
                assert(post.rq() == pre.rq());
                assert(post.desc_of(c as int) == mid.desc_of(c as int));
            } else {
                let h = rq_mid[0] as int;
                assert(mid.is_ready(h));
                assert(h != c as int);
                assert(post.slot_of(c as int) == mid.slot_of(c as int));
                assert(post.desc_of(c as int) == mid.desc_of(c as int));
                assert(post.desc_of(h) == (ProcessDescriptor {
                    state: ProcState::Running,
                    ..mid.desc_of(h)
                }));
                if woken {
                    let q = parent_ghost;
                    if h != q {
                        assert(post.slot_of(q) == mid.slot_of(q));
                        assert(post.st_of(q) is Ready);
                        assert(post.desc_of(q) == (ProcessDescriptor {
                            state: ProcState::Ready,
                            ..pre.desc_of(q)
                        }));
                        assert(mid.slot_of(h) == pre.slot_of(h));
                        assert(post.desc_of(h) == (ProcessDescriptor {
                            state: ProcState::Running,
                            ..pre.desc_of(h)
                        }));
                    } else {
                        assert(post.st_of(q) is Running);
                        assert(post.desc_of(q) == (ProcessDescriptor {
                            state: ProcState::Running,
                            ..pre.desc_of(q)
                        }));
                    }
                } else {
                    assert(mid.slot_of(h) == pre.slot_of(h));
                    assert(post.desc_of(h) == (ProcessDescriptor {
                        state: ProcState::Running,
                        ..pre.desc_of(h)
                    }));
                }
                assert forall|p: int|
                    p != c as int && (!woken || p != parent_ghost) && p != h
                        implies #[trigger] post.slot_of(p) == pre.slot_of(p) by {
                    assert(post.slot_of(p) == mid.slot_of(p));
                    assert(mid.slot_of(p) == pre.slot_of(p));
                }
            }
            assert forall|p: int| #[trigger] pre.is_zombie(p) implies post.is_zombie(p)
                && post.zombie_code(p) == pre.zombie_code(p) by {
                assert(p != c as int);
                if woken {
                    assert(p != parent_ghost);
                }
                assert(mid.slot_of(p) == pre.slot_of(p));
                assert(mid.is_zombie(p));
            }
        }
    }

    /// Executable form of the sleep-queue order `entry_lt`.
    fn entry_before(a: SleepEntry, b: SleepEntry) -> (r: bool)
        ensures
            r == entry_lt(a, b),
    {
        a.wake_tick < b.wake_tick || (a.wake_tick == b.wake_tick && a.pid < b.pid)
    }

    /// `sleep_for(ms)`: suspend the running process until the tick counter
    /// has advanced by `ceil(ms / granularity)` ticks, never less. A zero
    /// duration never busy-waits: it degenerates to a plain yield. Fails
    /// with `Overflow`, changing nothing, if the wake tick would not fit:
    /// the counter must not silently wrap and violate wake ordering.
    pub fn sys_sleep(&mut self, ms: u64) -> (r: Result<(), KernelError>)
        requires
            old(self).wf(),
            old(self).current is Some,
        ensures
            final(self).wf(),
            final(self).tick == old(self).tick,
            final(self).n() == old(self).n(),
            zombies_preserved(*old(self), *final(self)),
            ({
                let c = old(self).current.unwrap() as int;
                let t = ticks_for_ms(ms);
                &&& (r == Err::<(), KernelError>(KernelError::Overflow) <==> old(self).tick + t
                    > u64::MAX)
                &&& (old(self).tick + t > u64::MAX ==> *final(self) == *old(self))
                &&& (t == 0 ==> {
                    &&& r == Ok::<(), KernelError>(())
                    &&& final(self).sq() == old(self).sq()
                    &&& (old(self).rq().len() == 0 ==> final(self).table.slots@ == old(self).table.slots@ && final(self).rq() == old(self).rq() && final(self).current
                        == old(self).current)
                    &&& (old(self).rq().len() > 0 ==> {
                        let h = old(self).rq()[0];
                        &&& final(self).current == Some(h)
                        &&& final(self).is_running(h as int)
                        &&& final(self).is_ready(c)
                        &&& final(self).desc_of(h as int) == (ProcessDescriptor {
                            state: ProcState::Running,
                            ..old(self).desc_of(h as int)
                        })
                        &&& final(self).desc_of(c) == (ProcessDescriptor {
                            state: ProcState::Ready,
                            ..old(self).desc_of(c)
                        })
                        &&& final(self).rq() == old(self).rq().skip(1).push((c as usize))
                    })
                })
                &&& (t > 0 && old(self).tick + t <= u64::MAX ==> {
                    let wake = (old(self).tick + t) as u64;
                    &&& r == Ok::<(), KernelError>(())
                    &&& final(self).is_sleeping(c)
                    &&& final(self).wake_of(c) == wake
                    &&& final(self).desc_of(c) == (ProcessDescriptor {
                        state: (ProcState::Sleeping { wake_tick: wake }),
                        ..old(self).desc_of(c)
                    })
                    &&& (exists|i: int|
                        0 <= i <= old(self).sq().len() && final(self).sq() == #[trigger] old(self).sq().insert(i, (SleepEntry { wake_tick: wake, pid: (c as usize) })))
                    &&& (old(self).rq().len() == 0 ==> final(self).current is None
                        && final(self).rq() == old(self).rq())
                    &&& (old(self).rq().len() > 0 ==> {
                        let h = old(self).rq()[0];
                        &&& final(self).current == Some(h)
                        &&& final(self).is_running(h as int)
                        &&& final(self).desc_of(h as int) == (ProcessDescriptor {
                            state: ProcState::Running,
                            ..old(self).desc_of(h as int)
                        })
                        &&& final(self).rq() == old(self).rq().skip(1)
                    })
                    &&& (forall|p: int|
                        p != c && (old(self).rq().len() == 0 || p != old(self).rq()[0] as int)
                            ==> #[trigger] final(self).slot_of(p) == old(self).slot_of(p))
                })
            }),
    {
        let ticks = ms_to_ticks(ms);
        if ticks == 0 {
            self.sys_yield();
            return Ok(());
        }
        if ticks > u64::MAX - self.tick {
            return Err(KernelError::Overflow);
        }
        let ghost pre = *self;
        let wake = self.tick + ticks;
        let c = self.current.unwrap();
        let _ = self.table.set_state(c, ProcState::Sleeping { wake_tick: wake });
        let ghost mid1 = *self;
        proof {
            assert(pre.is_running(c as int));
            Self::lemma_state_update_frame(
                pre,
                mid1,
                c as int,
                ProcState::Sleeping { wake_tick: wake },
            );
        }
        let e = SleepEntry { wake_tick: wake, pid: c };
        let mut i: usize = 0;
        while i < self.sleep_queue.len() && Self::entry_before(self.sleep_queue[i], e)
            invariant
                *self == mid1,
                e.wake_tick == wake,
                e.pid == c,
                0 <= i <= self.sleep_queue.len(),
                forall|j: int| 0 <= j < i ==> entry_lt(#[trigger] self.sq()[j], e),
                pre.wf(),
                mid1.sq() == pre.sq(),
            decreases self.sleep_queue.len() - i,
        {
            i += 1;
        }
        self.sleep_queue.insert(i, e);
        self.current = None;
        proof {
            let mid = *self;
            let ii = i as int;
            assert(mid.sq() == pre.sq().insert(ii, e));
            // the new entry respects the strict (wake tick, pid) order
            assert forall|p: int| #[trigger] mid.is_running(p) implies mid.current == Some(
                (p as usize),
            ) by {
                if p != c as int {
                    assert(mid.slot_of(p) == pre.slot_of(p));
                    assert(pre.is_running(p));
                    assert(pre.current == Some((p as usize)));
                }
                assert(false);
            }
            // no sleeper in the old queue carries the pid of the caller
            assert forall|j: int| 0 <= j < pre.sq().len() implies (#[trigger] pre.sq()[j]).pid
                != c by {
                assert(pre.is_sleeping(pre.sq()[j].pid as int));
            }
            // indices of the extended queue
            assert forall|j: int| 0 <= j < mid.sq().len() implies {
                let x = #[trigger] mid.sq()[j];
                (j < ii ==> x == pre.sq()[j]) && (j == ii ==> x == e) && (j > ii ==> x
                    == pre.sq()[j - 1])
            } by {}
            assert forall|j: int, l: int| 0 <= j < l < mid.sq().len() implies entry_lt(
                mid.sq()[j],
                mid.sq()[l],
            ) by {
                if j < ii && l < ii {
                } else if j < ii && l == ii {
                    assert(entry_lt(pre.sq()[j], e));
                } else if j == ii && l > ii {
                    let x = pre.sq()[l - 1];
                    assert(x.pid != c);
                    if ii < pre.sq().len() {
                        assert(!entry_lt(pre.sq()[ii], e));
                        if l - 1 > ii {
                            assert(entry_lt(pre.sq()[ii], x));
                        }
                    }
                } else if j < ii && l > ii {
                    assert(entry_lt(pre.sq()[j], pre.sq()[l - 1]));
                    assert(entry_lt(pre.sq()[j], e) || entry_lt(e, pre.sq()[l - 1]));
                } else {
                    assert(entry_lt(pre.sq()[j - 1], pre.sq()[l - 1]));
                }
            }
            // queue entries and sleeping processes still coincide
            assert forall|j: int| 0 <= j < mid.sq().len() implies {
                let x = #[trigger] mid.sq()[j];
                mid.is_sleeping(x.pid as int) && mid.wake_of(x.pid as int) == x.wake_tick
            } by {
                if j == ii {
                } else {
                    let x = if j < ii {
                        pre.sq()[j]
                    } else {
                        pre.sq()[j - 1]
                    };
                    assert(pre.is_sleeping(x.pid as int));
                    assert(x.pid != c);
                    assert(mid.slot_of(x.pid as int) == pre.slot_of(x.pid as int));
                }
            }
            assert forall|p: int| #[trigger] mid.is_sleeping(p) implies exists|j: int|
                0 <= j < mid.sq().len() && (#[trigger] mid.sq()[j]).pid == p by {
                if p == c as int {
                    assert(mid.sq()[ii].pid == p);
                } else {
                    assert(mid.slot_of(p) == pre.slot_of(p));
                    assert(pre.is_sleeping(p));
                    let j = choose|j: int|
                        0 <= j < pre.sq().len() && (#[trigger] pre.sq()[j]).pid == p;
                    if j < ii {
                        assert(mid.sq()[j].pid == p);
                    } else {
                        assert(mid.sq()[j + 1].pid == p);
                    }
                }
            }
            assert forall|j: int| 0 <= j < mid.sq().len() implies (#[trigger] mid.sq()[j]).wake_tick
                > mid.tick by {
                if j != ii {
                    let x = if j < ii {
                        pre.sq()[j]
                    } else {
                        pre.sq()[j - 1]
                    };
                    assert(x.wake_tick > pre.tick);
                }
            }
            // ready queue untouched; no ready process changed state
            assert forall|j: int| 0 <= j < mid.rq().len() implies mid.is_ready(
                #[trigger] mid.rq()[j] as int,
            ) by {
                assert(pre.is_ready(pre.rq()[j] as int));
                assert(pre.rq()[j] != c);
                assert(mid.slot_of(pre.rq()[j] as int) == pre.slot_of(pre.rq()[j] as int));
            }
            assert forall|p: int| #[trigger] mid.is_ready(p) implies mid.rq().contains(
                (p as usize),
            ) by {
                assert(p != c as int);
                assert(mid.slot_of(p) == pre.slot_of(p));
                assert(pre.is_ready(p));
            }
            Self::lemma_children_frame(pre, mid);
            assert(mid.wf());
        }
        let ghost mid = *self;
        self.pick_next();
        proof {
            let post = *self;
            assert(post.slot_of(c as int) == mid.slot_of(c as int) || (mid.rq().len() > 0
                && mid.rq()[0] == c));
            assert(mid.desc_of(c as int) == (ProcessDescriptor {
                state: (ProcState::Sleeping { wake_tick: wake }),
                ..pre.desc_of(c as int)
            }));
            if mid.rq().len() > 0 {
                assert(mid.is_ready(mid.rq()[0] as int));
                assert(mid.rq()[0] != c);
                let h = mid.rq()[0] as int;
                assert(post.desc_of(h) == (ProcessDescriptor {
                    state: ProcState::Running,
                    ..mid.desc_of(h)
                }));
                assert(mid.slot_of(h) == pre.slot_of(h));
                assert(post.desc_of(h) == (ProcessDescriptor {
                    state: ProcState::Running,
                    ..pre.desc_of(h)
                }));
            }
            assert(post.is_sleeping(c as int));
            assert(post.desc_of(c as int) == mid.desc_of(c as int));
            assert forall|p: int|
                p != c as int && (pre.rq().len() == 0 || p != pre.rq()[0] as int)
                    implies #[trigger] post.slot_of(p) == pre.slot_of(p) by {
                assert(post.slot_of(p) == mid.slot_of(p));
                assert(mid.slot_of(p) == pre.slot_of(p));
            }
            assert forall|p: int| #[trigger] pre.is_zombie(p) implies post.is_zombie(p)
                && post.zombie_code(p) == pre.zombie_code(p) by {
                assert(p != c as int);
                assert(mid.slot_of(p) == pre.slot_of(p));
                assert(mid.is_zombie(p));
            }
        }
        Ok(())
    }

    /// Advance the monotonic tick counter by one, called by the host
    /// environment at fixed intervals, and move every sleeping process
    /// whose wake tick has been reached to the back of the ready queue, in
    /// wake-tick order with ties broken by ascending pid (the order the
    /// sleep queue maintains). Exhaustion of the counter is fatal
    /// (`Overflow`); the counter never silently wraps.
    pub fn advance_tick(&mut self) -> (r: Result<(), KernelError>)
        requires
            old(self).wf(),
        ensures
            final(self).wf(),
            final(self).n() == old(self).n(),
            final(self).current == old(self).current,
            zombies_preserved(*old(self), *final(self)),
            old(self).tick == u64::MAX ==> r == Err::<(), KernelError>(KernelError::Overflow)
                && *final(self) == *old(self),
            old(self).tick < u64::MAX ==> {
                &&& r == Ok::<(), KernelError>(())
                &&& final(self).tick == old(self).tick + 1
                &&& (exists|k: int|
                    {
                        &&& 0 <= k <= old(self).sq().len()
                        &&& (forall|i: int|
                            0 <= i < k ==> (#[trigger] old(self).sq()[i]).wake_tick <= old(self).tick + 1)
                        &&& (forall|i: int|
                            k <= i < old(self).sq().len() ==> (#[trigger] old(self).sq()[i]).wake_tick > old(self).tick + 1)
                        &&& final(self).sq() == #[trigger] old(self).sq().skip(k)
                        &&& final(self).rq() == old(self).rq() + pids_of(old(self).sq().take(k))
                        &&& (forall|i: int|
                            0 <= i < k ==> final(self).is_ready(
                                (#[trigger] old(self).sq()[i]).pid as int,
                            ))
                    })
                &&& (forall|p: int|
                    (#[trigger] final(self).slot_of(p)) == old(self).slot_of(p) || (old(self).is_sleeping(p) && old(self).wake_of(p) <= old(self).tick + 1 && final(self).is_ready(p) && final(self).desc_of(p) == (ProcessDescriptor {
                        state: ProcState::Ready,
                        ..old(self).desc_of(p)
                    })))
            },
    {
        if self.tick == u64::MAX {
            return Err(KernelError::Overflow);
        }
        let ghost pre = *old(self);
        self.tick = self.tick + 1;
        proof {
            assert forall|i: int|
                0 <= i < self.sq().len() implies (#[trigger] self.sq()[i]).wake_tick
                > pre.tick by {
                assert(pre.sq()[i] == self.sq()[i]);
            }
            assert(self.sq() == pre.sq().skip(0));
            assert(self.rq() =~= pre.rq() + pids_of(pre.sq().take(0)));
            assert forall|p: int| #[trigger] self.is_running(p) implies self.current == Some(
                (p as usize),
            ) by {
                assert(pre.is_running(p));
            }
            assert forall|i: int| 0 <= i < self.rq().len() implies self.is_ready(
                #[trigger] self.rq()[i] as int,
            ) by {
                assert(pre.is_ready(pre.rq()[i] as int));
            }
            assert forall|p: int| #[trigger] self.is_ready(p) implies self.rq().contains(
                (p as usize),
            ) by {
                assert(pre.is_ready(p));
            }
            assert forall|i: int| 0 <= i < self.sq().len() implies {
                let e = #[trigger] self.sq()[i];
                self.is_sleeping(e.pid as int) && self.wake_of(e.pid as int) == e.wake_tick
            } by {
                assert(pre.sq()[i] == self.sq()[i]);
                assert(pre.is_sleeping(pre.sq()[i].pid as int));
            }
            assert forall|p: int| #[trigger] self.is_sleeping(p) implies exists|i: int|
                0 <= i < self.sq().len() && (#[trigger] self.sq()[i]).pid == p by {
                assert(pre.is_sleeping(p));
                let i = choose|i: int| 0 <= i < pre.sq().len() && (#[trigger] pre.sq()[i]).pid == p;
                assert(0 <= i < self.sq().len() && self.sq()[i].pid == p);
            }
            Self::lemma_children_frame(pre, *self);
        }
        while self.sleep_queue.len() > 0 && self.sleep_queue[0].wake_tick <= self.tick
            invariant
                pre.wf(),
                pre.tick < u64::MAX,
                self.tick == pre.tick + 1,
                self.current == pre.current,
                self.n() == pre.n(),
                self.sq().len() <= pre.sq().len(),
                self.sq() == pre.sq().skip(pre.sq().len() - self.sq().len()),
                self.rq() == pre.rq() + pids_of(
                    pre.sq().take(pre.sq().len() - self.sq().len()),
                ),
                forall|i: int|
                    0 <= i < pre.sq().len() - self.sq().len() ==> (#[trigger] pre.sq()[i]).wake_tick
                        <= self.tick && self.is_ready(pre.sq()[i].pid as int),
                forall|p: int|
                    (#[trigger] self.slot_of(p)) == pre.slot_of(p) || (pre.is_sleeping(p)
                        && pre.wake_of(p) <= self.tick && self.is_ready(p) && self.desc_of(p)
                        == (ProcessDescriptor { state: ProcState::Ready, ..pre.desc_of(p) })),
                self.wf_table(),
                self.wf_current(),
                self.wf_ready_queue(),
                self.wf_sleep_queue(),
                self.wf_children(),
            decreases self.sleep_queue.len(),
        {
            let ghost siter = *self;
            let ghost kk = pre.sq().len() - siter.sq().len();
            let e = self.sleep_queue.remove(0);
            let _ = self.table.set_state(e.pid, ProcState::Ready);
            self.ready_queue.push(e.pid);
            proof {
                let post = *self;
                assert(siter.is_sleeping(e.pid as int));
                Self::lemma_state_update_frame(siter, post, e.pid as int, ProcState::Ready);
                assert(post.sq() =~= siter.sq().skip(1));
                assert(post.sq() =~= pre.sq().skip(kk + 1));
                // the entry taken out is the next due element of the prefix
                assert(siter.sq()[0] == pre.sq().skip(kk)[0]);
                assert(e == pre.sq()[kk]);
                assert(pids_of(pre.sq().take(kk + 1)) =~= pids_of(pre.sq().take(kk)).push(
                    e.pid,
                ));
                assert(post.rq() =~= pre.rq() + pids_of(pre.sq().take(kk + 1)));
                // the woken process is ready; earlier wake-ups stay ready
                assert forall|i: int|
                    0 <= i < kk + 1 implies (#[trigger] pre.sq()[i]).wake_tick <= post.tick
                        && post.is_ready(pre.sq()[i].pid as int) by {
                    if i < kk {
                        assert(pre.sq()[i].wake_tick <= siter.tick);
                        assert(siter.is_ready(pre.sq()[i].pid as int));
                        assert(pre.sq()[i].pid != e.pid);
                        assert(post.slot_of(pre.sq()[i].pid as int) == siter.slot_of(
                            pre.sq()[i].pid as int,
                        ));
                    }
                }
                // per-process frame against the state at entry
                assert forall|p: int|
                    (#[trigger] post.slot_of(p)) == pre.slot_of(p) || (pre.is_sleeping(p)
                        && pre.wake_of(p) <= post.tick && post.is_ready(p) && post.desc_of(p)
                        == (ProcessDescriptor { state: ProcState::Ready, ..pre.desc_of(p) })) by {
                    if p == e.pid as int {
                        assert(siter.slot_of(p) == pre.slot_of(p) || siter.is_ready(p));
                        assert(siter.is_sleeping(p));
                        assert(siter.slot_of(p) == pre.slot_of(p));
                        assert(pre.is_sleeping(p));
                        assert(pre.wake_of(p) == e.wake_tick);
                        assert(post.desc_of(p) == (ProcessDescriptor {
                            state: ProcState::Ready,
                            ..siter.desc_of(p)
                        }));
                        assert(siter.desc_of(p) == pre.desc_of(p));
                    } else {
                        assert(post.slot_of(p) == siter.slot_of(p));
                    }
                }
                // scheduler queues stay well-formed
                assert forall|p: int| #[trigger] post.is_running(p) implies post.current == Some(
                    (p as usize),
                ) by {
                    if p != e.pid as int {
                        assert(siter.is_running(p));
                    }
                }
                assert forall|i: int| 0 <= i < post.rq().len() implies post.is_ready(
                    #[trigger] post.rq()[i] as int,
                ) by {
                    if i < siter.rq().len() {
                        assert(post.rq()[i] == siter.rq()[i]);
                        assert(siter.is_ready(siter.rq()[i] as int));
                        assert(siter.rq()[i] != e.pid);
                        assert(post.slot_of(siter.rq()[i] as int) == siter.slot_of(
                            siter.rq()[i] as int,
                        ));
                    } else {
                        assert(post.rq()[i] == e.pid);
                    }
                }
                assert forall|i: int, j: int| 0 <= i < j < post.rq().len() implies post.rq()[i]
                    != post.rq()[j] by {
                    if j < siter.rq().len() {
                    } else {
                        assert(post.rq()[j] == e.pid);
                        assert(siter.is_ready(siter.rq()[i] as int));
                    }
                }
                assert forall|p: int| #[trigger] post.is_ready(p) implies post.rq().contains(
                    (p as usize),
                ) by {
                    if p == e.pid as int {
                        assert(post.rq()[post.rq().len() - 1] == (p as usize));
                    } else {
                        assert(post.slot_of(p) == siter.slot_of(p));
                        assert(siter.is_ready(p));
                        let j = choose|j: int|
                            0 <= j < siter.rq().len() && siter.rq()[j] == (p as usize);
                        assert(post.rq()[j] == (p as usize));
                    }
                }
                assert forall|i: int| 0 <= i < post.sq().len() implies {
                    let x = #[trigger] post.sq()[i];
                    post.is_sleeping(x.pid as int) && post.wake_of(x.pid as int) == x.wake_tick
                } by {
                    assert(post.sq()[i] == siter.sq()[i + 1]);
                    let x = post.sq()[i];
                    assert(siter.is_sleeping(x.pid as int));
                    assert(x.pid != e.pid) by {
                        if x.pid == e.pid {
                            assert(entry_lt(siter.sq()[0], siter.sq()[i + 1]));
                            assert(siter.wake_of(x.pid as int) == siter.sq()[0].wake_tick);
                        }
                    }
                    assert(post.slot_of(x.pid as int) == siter.slot_of(x.pid as int));
                }
                assert forall|i: int, j: int| 0 <= i < j < post.sq().len() implies entry_lt(
                    post.sq()[i],
                    post.sq()[j],
                ) by {
                    assert(post.sq()[i] == siter.sq()[i + 1]);
                    assert(post.sq()[j] == siter.sq()[j + 1]);
                }
                assert forall|p: int| #[trigger] post.is_sleeping(p) implies exists|i: int|
                    0 <= i < post.sq().len() && (#[trigger] post.sq()[i]).pid == p by {
                    assert(p != e.pid as int);
                    assert(post.slot_of(p) == siter.slot_of(p));
                    assert(siter.is_sleeping(p));
                    let j = choose|j: int|
                        0 <= j < siter.sq().len() && (#[trigger] siter.sq()[j]).pid == p;
                    assert(j != 0) by {
                        if j == 0 {
                            assert(siter.sq()[0].pid == e.pid);
                        }
                    }
                    assert(post.sq()[j - 1].pid == p);
                }
                // family edges untouched
                assert forall|p: int|
                    siter.live(p) implies #[trigger] post.children_of(p) == siter.children_of(p)
                        && post.parent_of(p) == siter.parent_of(p) by {}
                Self::lemma_children_frame(siter, post);
            }
        }
        proof {
            let post = *self;
            let k = pre.sq().len() - post.sq().len();
            // everything still queued wakes strictly later
            assert forall|i: int| 0 <= i < post.sq().len() implies (#[trigger] post.sq()[i]).wake_tick
                > post.tick by {
                assert(post.sq()[i] == pre.sq()[k + i]);
                if i > 0 {
                    assert(entry_lt(post.sq()[0], post.sq()[i]));
                }
            }
            assert forall|i: int|
                k <= i < pre.sq().len() implies (#[trigger] pre.sq()[i]).wake_tick > pre.tick
                + 1 by {
                assert(pre.sq()[i] == post.sq()[i - k]);
            }
            assert(post.sq() == pre.sq().skip(k));
            assert forall|p: int| #[trigger] pre.is_zombie(p) implies post.is_zombie(p)
                && post.zombie_code(p) == pre.zombie_code(p) by {
                assert(post.slot_of(p) == pre.slot_of(p) || (pre.is_sleeping(p) && post.is_ready(
                    p,
                )));
            }
            assert(post.wf());
        }
        Ok(())
    }

    /// The scheduling state of a live process, read from the table.
    fn state_of(&self, pid: usize) -> (st: ProcState)
        requires
            self.live(pid as int),
        ensures
            st == self.st_of(pid as int),
    {
        match self.table.lookup(pid) {
            Ok(d) => d.state,
            Err(_) => vstd::pervasive::unreached(),
        }
    }

    /// How many children a live process currently owns.
    fn children_len(&self, pid: usize) -> (n: usize)
        requires
            self.live(pid as int),
        ensures
            n == self.children_of(pid as int).len(),
    {
        match self.table.lookup(pid) {
            Ok(d) => d.children.len(),
            Err(_) => vstd::pervasive::unreached(),
        }
    }

    /// The `i`-th child pid of a live process.
    fn child_at(&self, pid: usize, i: usize) -> (r: usize)
        requires
            self.live(pid as int),
            i < self.children_of(pid as int).len(),
        ensures
            r == self.children_of(pid as int)[i as int],
    {
        match self.table.lookup(pid) {
            Ok(d) => d.children[i],
            Err(_) => vstd::pervasive::unreached(),
        }
    }

    /// `waitpid(target)`: reap a terminated child or wait for one.
    /// * `NoSuchChild` — the target pid is not a child of the caller,
    ///   whatever else the table holds.
    /// * `NoChildren` — a wildcard wait by a process with no children at
    ///   all; returned immediately, the caller keeps running.
    /// * `Reaped { pid, exit_code }` — a matching child was already a
    ///   zombie (the lowest-pid one for a wildcard): its exit code is
    ///   collected, its descriptor is destroyed, its pid leaves the
    ///   caller's `children`; the caller keeps running.
    /// * `WouldBlock` — matching children exist but none has terminated:
    ///   the caller is suspended in `BlockedOnWait` until a matching child
    ///   exits, and reissues the call when it runs again.
    #[verifier::rlimit(60)]
    pub fn sys_waitpid(&mut self, target: WaitTarget) -> (r: Result<WaitOutcome, KernelError>)
        requires
            old(self).wf(),
            old(self).current is Some,
        ensures
            final(self).wf(),
            final(self).tick == old(self).tick,
            final(self).n() == old(self).n(),
            final(self).sq() == old(self).sq(),
            ({
                let c = old(self).current.unwrap() as int;
                let kids = old(self).children_of(c);
                let pick = old(self).wait_ready_child(c, target);
                &&& (r == Err::<WaitOutcome, KernelError>(KernelError::NoSuchChild) <==> (target
                    matches WaitTarget::Child(t) && !kids.contains(t)))
                &&& (r == Err::<WaitOutcome, KernelError>(KernelError::NoChildren) <==> (
                target is AnyChild && kids.len() == 0))
                &&& (r is Err ==> r == Err::<WaitOutcome, KernelError>(KernelError::NoSuchChild)
                    || r == Err::<WaitOutcome, KernelError>(KernelError::NoChildren))
                &&& (r is Err ==> *final(self) == *old(self))
                &&& (pick matches Some(z) ==> {
                    &&& r == Ok::<WaitOutcome, KernelError>(
                        (WaitOutcome::Reaped { pid: z, exit_code: old(self).zombie_code(z as int) }),
                    )
                    &&& !final(self).live(z as int)
                    &&& final(self).live(c)
                    &&& final(self).children_of(c) == kids.remove_value(z)
                    &&& final(self).current == old(self).current
                    &&& final(self).st_of(c) == old(self).st_of(c)
                    &&& final(self).parent_of(c) == old(self).parent_of(c)
                    &&& final(self).desc_of(c).pid == old(self).desc_of(c).pid
                    &&& final(self).desc_of(c).ctx == old(self).desc_of(c).ctx
                    &&& final(self).rq() == old(self).rq()
                    &&& (forall|p: int|
                        p != c && p != z as int ==> #[trigger] final(self).slot_of(p) == old(self).slot_of(p))
                })
                &&& (pick is None && !(r is Err) ==> {
                    &&& r == Ok::<WaitOutcome, KernelError>(WaitOutcome::WouldBlock)
                    &&& final(self).is_blocked(c)
                    &&& final(self).st_of(c) == (ProcState::BlockedOnWait { target })
                    &&& final(self).desc_of(c) == (ProcessDescriptor {
                        state: (ProcState::BlockedOnWait { target }),
                        ..old(self).desc_of(c)
                    })
                    &&& (old(self).rq().len() == 0 ==> final(self).current is None
                        && final(self).rq() == old(self).rq())
                    &&& (old(self).rq().len() > 0 ==> {
                        let h = old(self).rq()[0];
                        &&& final(self).current == Some(h)
                        &&& final(self).is_running(h as int)
                        &&& final(self).desc_of(h as int) == (ProcessDescriptor {
                            state: ProcState::Running,
                            ..old(self).desc_of(h as int)
                        })
                        &&& final(self).rq() == old(self).rq().skip(1)
                    })
                    &&& (forall|p: int|
                        p != c && (old(self).rq().len() == 0 || p != old(self).rq()[0] as int)
                            ==> #[trigger] final(self).slot_of(p) == old(self).slot_of(p))
                })
                &&& (forall|p: int|
                    #[trigger] old(self).is_zombie(p) && pick != Some((p as usize)) ==> final(self).is_zombie(p) && final(self).zombie_code(p) == old(self).zombie_code(p))
            }),
    {
        let ghost pre = *self;
        let c = self.current.unwrap();
        let ghost kids = pre.children_of(c as int);
        let ghost pick = pre.wait_ready_child(c as int, target);
        proof {
            assert(pre.is_running(c as int));
        }
        let kids_len = self.children_len(c);
        let mut do_reap = false;
        let mut z: usize = 0;
        let mut zcode: i32 = 0;
        match target {
            WaitTarget::Child(t) => {
                let mut i: usize = 0;
                let mut is_child = false;
                while i < kids_len
                    invariant
                        *self == pre,
                        pre.wf(),
                        pre.live(c as int),
                        kids == pre.children_of(c as int),
                        kids_len == kids.len(),
                        0 <= i <= kids_len,
                        is_child <==> exists|j: int| 0 <= j < i && kids[j] == t,
                    decreases kids_len - i,
                {
                    if self.child_at(c, i) == t {
                        is_child = true;
                    }
                    i += 1;
                }
                if !is_child {
                    proof {
                        assert(!kids.contains(t));
                    }
                    return Err(KernelError::NoSuchChild);
                }
                proof {
                    assert(kids.contains(t));
                    let j = choose|j: int| 0 <= j < kids.len() && kids[j] == t;
                    assert(pre.children_of(c as int)[j] == t);
                    assert(pre.live(t as int));
                }
                match self.state_of(t) {
                    ProcState::Zombie { exit_code } => {
                        do_reap = true;
                        z = t;
                        zcode = exit_code;
                    },
                    _ => {},
                }
            },
            WaitTarget::AnyChild => {
                if kids_len == 0 {
                    return Err(KernelError::NoChildren);
                }
                let mut i: usize = 0;
                let mut found = false;
                proof {
                    assert(kids.skip(0) =~= kids);
                }
                while i < kids_len && !found
                    invariant
                        *self == pre,
                        pre.wf(),
                        pre.live(c as int),
                        kids == pre.children_of(c as int),
                        kids_len == kids.len(),
                        0 <= i <= kids_len,
                        !found ==> pre.first_zombie_in(kids) == pre.first_zombie_in(
                            kids.skip(i as int),
                        ),
                        found ==> pre.first_zombie_in(kids) == Some(z) && pre.is_zombie(z as int)
                            && zcode == pre.zombie_code(z as int) && kids.contains(z),
                    decreases kids_len - i,
                {
                    let ch = self.child_at(c, i);
                    proof {
                        assert(kids[i as int] == ch);
                        assert(pre.children_of(c as int)[i as int] == ch);
                        assert(pre.live(ch as int));
                        assert(kids.skip(i as int)[0] == kids[i as int]);
                    }
                    match self.state_of(ch) {
                        ProcState::Zombie { exit_code } => {
                            found = true;
                            z = ch;
                            zcode = exit_code;
                            proof {
                                assert(pre.first_zombie_in(kids.skip(i as int)) == Some(ch));
                            }
                        },
                        _ => {
                            proof {
                                assert(!pre.is_zombie(kids[i as int] as int));
                                assert(kids.skip(i as int).skip(1) =~= kids.skip(i as int + 1));
                                assert(pre.first_zombie_in(kids.skip(i as int))
                                    == pre.first_zombie_in(kids.skip(i as int + 1)));
                            }
                        },
                    }
                    i += 1;
                }
                if found {
                    do_reap = true;
                } else {
                    proof {
                        assert(kids.skip(kids_len as int) =~= Seq::<usize>::empty());
                        assert(pre.first_zombie_in(kids) is None);
                    }
                }
            },
        }
        if do_reap {
            proof {
                assert(pick == Some(z));
                assert(pre.is_zombie(z as int));
                assert(zcode == pre.zombie_code(z as int));
                assert(kids.contains(z));
                assert forall|x: int, y: int|
                    0 <= x < kids.len() && 0 <= y < kids.len() && x != y implies kids[x]
                    != kids[y] by {
                    if x < y {
                        assert(pre.children_of(c as int)[x] < pre.children_of(c as int)[y]);
                    } else {
                        assert(pre.children_of(c as int)[y] < pre.children_of(c as int)[x]);
                    }
                }
                assert(kids.no_duplicates());
                let jz = choose|j: int| 0 <= j < kids.len() && kids[j] == z;
                assert(pre.children_of(c as int)[jz] == z);
                assert(z as int > c as int);
            }
            self.table.remove_child(c, z);
            let ghost a = *self;
            proof {
                assert(a.slot_of(z as int) == pre.slot_of(z as int));
                assert(a.table.desc(z as int).state is Zombie);
                assert(a.table.is_live(z as int));
            }
            let _ = self.table.destroy(z);
            proof {
                let post = *self;
                assert(post.table.slots@ == a.table.slots@.update(
                    z as int,
                    None::<ProcessDescriptor>,
                ));
                assert forall|p: int|
                    p != z as int implies #[trigger] post.slot_of(p) == a.slot_of(p) by {}
                assert(!post.live(z as int));
                assert(post.children_of(c as int) == kids.remove_value(z));
                assert(post.parent_of(c as int) == pre.parent_of(c as int));
                assert(post.desc_of(c as int).pid == pre.desc_of(c as int).pid);
                assert(post.desc_of(c as int).ctx == pre.desc_of(c as int).ctx);
                assert forall|p: int|
                    p != c as int && p != z as int implies #[trigger] post.slot_of(p)
                    == pre.slot_of(p) by {
                    assert(a.slot_of(p) == pre.slot_of(p));
                }
                // where the reaped child sat in the ascending children list
                kids.index_of_first_ensures(z);
                let fi = kids.index_of_first(z)->0;
                assert(0 <= fi < kids.len() && kids[fi] == z);
                assert(post.children_of(c as int) == kids.remove(fi));
                assert forall|x: int|
                    0 <= x < kids.remove(fi).len() implies #[trigger] kids.remove(fi)[x] == (
                    if x < fi {
                        kids[x]
                    } else {
                        kids[x + 1]
                    }) by {}
                // table well-formedness
                assert forall|p: int| #[trigger] post.table.is_live(p) implies post.table.desc(
                    p,
                ).pid == p by {
                    assert(post.slot_of(p) == a.slot_of(p));
                    if p != c as int {
                        assert(a.slot_of(p) == pre.slot_of(p));
                        assert(pre.table.is_live(p));
                    } else {
                        assert(pre.table.is_live(p));
                        assert(a.table.desc(p).pid == pre.table.desc(p).pid);
                    }
                }
                // the caller keeps running; nobody else runs
                assert(post.st_of(c as int) == pre.st_of(c as int));
                assert forall|p: int| #[trigger] post.is_running(p) implies post.current == Some(
                    (p as usize),
                ) by {
                    if p != c as int && p != z as int {
                        assert(post.slot_of(p) == pre.slot_of(p));
                        assert(pre.is_running(p));
                    }
                    if p == z as int {
                        assert(false);
                    }
                }
                // ready queue untouched
                assert forall|i: int| 0 <= i < post.rq().len() implies post.is_ready(
                    #[trigger] post.rq()[i] as int,
                ) by {
                    assert(post.rq()[i] == pre.rq()[i]);
                    assert(pre.is_ready(pre.rq()[i] as int));
                    let q = pre.rq()[i] as int;
                    assert(q != c as int && q != z as int);
                    assert(post.slot_of(q) == pre.slot_of(q));
                }
                assert forall|p: int| #[trigger] post.is_ready(p) implies post.rq().contains(
                    (p as usize),
                ) by {
                    assert(p != z as int);
                    assert(post.slot_of(p) == pre.slot_of(p) || p == c as int);
                    assert(pre.is_ready(p));
                }
                // sleep queue untouched
                assert forall|i: int| 0 <= i < post.sq().len() implies {
                    let e = #[trigger] post.sq()[i];
                    post.is_sleeping(e.pid as int) && post.wake_of(e.pid as int) == e.wake_tick
                } by {
                    assert(post.sq()[i] == pre.sq()[i]);
                    let e = post.sq()[i];
                    assert(pre.is_sleeping(e.pid as int));
                    let q = e.pid as int;
                    assert(q != c as int && q != z as int);
                    assert(post.slot_of(q) == pre.slot_of(q));
                }
                assert forall|p: int| #[trigger] post.is_sleeping(p) implies exists|i: int|
                    0 <= i < post.sq().len() && (#[trigger] post.sq()[i]).pid == p by {
                    assert(p != c as int && p != z as int);
                    assert(post.slot_of(p) == pre.slot_of(p));
                    assert(pre.is_sleeping(p));
                    let i = choose|i: int|
                        0 <= i < pre.sq().len() && (#[trigger] pre.sq()[i]).pid == p;
                    assert(0 <= i < post.sq().len() && post.sq()[i].pid == p);
                }
                assert forall|i: int, j: int| 0 <= i < j < post.sq().len() implies entry_lt(
                    post.sq()[i],
                    post.sq()[j],
                ) by {
                    assert(post.sq()[i] == pre.sq()[i]);
                    assert(post.sq()[j] == pre.sq()[j]);
                }
                assert forall|i: int|
                    0 <= i < post.sq().len() implies (#[trigger] post.sq()[i]).wake_tick
                    > post.tick by {
                    assert(post.sq()[i] == pre.sq()[i]);
                }
                // family edges after the reap
                assert forall|p: int, i: int|
                    post.live(p) && 0 <= i < post.children_of(p).len() implies {
                        let q = (#[trigger] post.children_of(p)[i]) as int;
                        &&& post.live(q)
                        &&& post.parent_of(q) == Some((p as usize))
                        &&& q > p
                    } by {
                    if p == c as int {
                        let q = post.children_of(p)[i] as int;
                        assert(post.children_of(p)[i] == (if i < fi {
                            kids[i]
                        } else {
                            kids[i + 1]
                        }));
                        let iorig: int = if i < fi {
                            i
                        } else {
                            i + 1
                        };
                        assert(pre.children_of(p)[iorig] == post.children_of(p)[i]);
                        assert(pre.live(q) && pre.parent_of(q) == Some((p as usize)) && q > p);
                        assert(q != z as int) by {
                            if q == z as int {
                                assert(kids[iorig] == kids[fi]);
                            }
                        }
                        assert(q != c as int);
                        assert(post.slot_of(q) == pre.slot_of(q));
                    } else {
                        assert(post.slot_of(p) == pre.slot_of(p));
                        assert(pre.live(p));
                        assert(post.children_of(p) == pre.children_of(p));
                        let q = post.children_of(p)[i] as int;
                        assert(pre.children_of(p)[i] == post.children_of(p)[i]);
                        assert(pre.live(q) && pre.parent_of(q) == Some((p as usize)) && q > p);
                        assert(q != z as int) by {
                            if q == z as int {
                                assert(pre.parent_of(z as int) == Some((p as usize)));
                                assert(pre.parent_of(z as int) == Some(c));
                            }
                        }
                        if q != c as int {
                            assert(post.slot_of(q) == pre.slot_of(q));
                        }
                    }
                }
                assert forall|p: int, i: int, j: int|
                    post.live(p) && 0 <= i < j < post.children_of(p).len()
                        implies #[trigger] post.children_of(p)[i] < #[trigger] post.children_of(
                        p,
                    )[j] by {
                    if p == c as int {
                        let iorig: int = if i < fi {
                            i
                        } else {
                            i + 1
                        };
                        let jorig: int = if j < fi {
                            j
                        } else {
                            j + 1
                        };
                        assert(pre.children_of(p)[iorig] == post.children_of(p)[i]);
                        assert(pre.children_of(p)[jorig] == post.children_of(p)[j]);
                        assert(pre.children_of(p)[iorig] < pre.children_of(p)[jorig]);
                    } else {
                        assert(post.slot_of(p) == pre.slot_of(p));
                        assert(post.children_of(p) == pre.children_of(p));
                        assert(pre.children_of(p)[i] == post.children_of(p)[i]);
                        assert(pre.children_of(p)[j] == post.children_of(p)[j]);
                    }
                }
                // every other zombie survives with its code
                assert forall|p: int|
                    #[trigger] pre.is_zombie(p) && pick != Some((p as usize)) implies post
                    .is_zombie(p) && post.zombie_code(p) == pre.zombie_code(p) by {
                    assert(p != z as int);
                    assert(p != c as int);
                    assert(post.slot_of(p) == pre.slot_of(p));
                }
                assert(post.wf());
            }
            Ok(WaitOutcome::Reaped { pid: z, exit_code: zcode })
        } else {
            proof {
                assert(pick is None);
            }
            let _ = self.table.set_state(c, ProcState::BlockedOnWait { target });
            self.current = None;
            proof {
                let mid = *self;
                Self::lemma_state_update_frame(
                    pre,
                    mid,
                    c as int,
                    ProcState::BlockedOnWait { target },
                );
                assert forall|p: int| #[trigger] mid.is_running(p) implies mid.current == Some(
                    (p as usize),
                ) by {
                    if p != c as int {
                        assert(mid.slot_of(p) == pre.slot_of(p));
                        assert(pre.is_running(p));
                        assert(pre.current == Some((p as usize)));
                    }
                    assert(false);
                }
                assert forall|i: int| 0 <= i < mid.rq().len() implies mid.is_ready(
                    #[trigger] mid.rq()[i] as int,
                ) by {
                    assert(pre.is_ready(pre.rq()[i] as int));
                    assert(pre.rq()[i] != c);
                    assert(mid.slot_of(pre.rq()[i] as int) == pre.slot_of(pre.rq()[i] as int));
                }
                assert forall|p: int| #[trigger] mid.is_ready(p) implies mid.rq().contains(
                    (p as usize),
                ) by {
                    assert(p != c as int);
                    assert(mid.slot_of(p) == pre.slot_of(p));
                    assert(pre.is_ready(p));
                }
                assert forall|p: int|
                    pre.live(p) && (pre.st_of(p) is Sleeping || mid.st_of(p) is Sleeping)
                        implies #[trigger] mid.st_of(p) == pre.st_of(p) by {
                    assert(p != c as int);
                    assert(mid.slot_of(p) == pre.slot_of(p));
                }
                Self::lemma_sleep_frame(pre, mid);
                Self::lemma_children_frame(pre, mid);
                assert(mid.wf());
            }
            let ghost mid = *self;
            self.pick_next();
            proof {
                let post = *self;
                assert(mid.desc_of(c as int) == (ProcessDescriptor {
                    state: (ProcState::BlockedOnWait { target }),
                    ..pre.desc_of(c as int)
                }));
                if pre.rq().len() > 0 {
                    let h = pre.rq()[0] as int;
                    assert(mid.is_ready(h));
                    assert(h != c as int);
                    assert(post.slot_of(c as int) == mid.slot_of(c as int));
                    assert(post.desc_of(h) == (ProcessDescriptor {
                        state: ProcState::Running,
                        ..mid.desc_of(h)
                    }));
                    assert(mid.slot_of(h) == pre.slot_of(h));
                    assert(post.desc_of(h) == (ProcessDescriptor {
                        state: ProcState::Running,
                        ..pre.desc_of(h)
                    }));
                    assert forall|p: int|
                        p != c as int && p != h implies #[trigger] post.slot_of(p)
                        == pre.slot_of(p) by {
                        assert(post.slot_of(p) == mid.slot_of(p));
                        assert(mid.slot_of(p) == pre.slot_of(p));
                    }
                } else {
                    assert(post.slot_of(c as int) == mid.slot_of(c as int));
                    assert forall|p: int|
                        p != c as int implies #[trigger] post.slot_of(p) == pre.slot_of(p) by {
                        assert(post.slot_of(p) == mid.slot_of(p));
                        assert(mid.slot_of(p) == pre.slot_of(p));
                    }
                }
                assert(post.st_of(c as int) == (ProcState::BlockedOnWait { target }));
                assert(post.desc_of(c as int) == mid.desc_of(c as int));
                assert forall|p: int|
                    #[trigger] pre.is_zombie(p) && pick != Some((p as usize)) implies post
                    .is_zombie(p) && post.zombie_code(p) == pre.zombie_code(p) by {
                    assert(p != c as int);
                    assert(mid.slot_of(p) == pre.slot_of(p));
                    assert(mid.is_zombie(p));
                }
            }
            Ok(WaitOutcome::WouldBlock)
        }
    }

    /// Scheduling decision point for the host loop: when the execution
    /// unit idles and a wake-up or wait-satisfaction has made a process
    /// ready, start the head of the ready queue. While a process runs,
    /// multiplexing is cooperative and this is a no-op.
    pub fn schedule(&mut self)
        requires
            old(self).wf(),
        ensures
            final(self).wf(),
            final(self).tick == old(self).tick,
            final(self).sq() == old(self).sq(),
            final(self).n() == old(self).n(),
            zombies_preserved(*old(self), *final(self)),
            old(self).current is Some ==> *final(self) == *old(self),
            old(self).current is None && old(self).rq().len() == 0 ==> *final(self) == *old(self),
            old(self).current is None && old(self).rq().len() > 0 ==> {
                let c = old(self).rq()[0];
                &&& final(self).current == Some(c)
                &&& final(self).is_running(c as int)
                &&& final(self).desc_of(c as int) == (ProcessDescriptor {
                    state: ProcState::Running,
                    ..old(self).desc_of(c as int)
                })
                &&& final(self).rq() == old(self).rq().skip(1)
                &&& (forall|p: int|
                    p != c as int ==> #[trigger] final(self).slot_of(p) == old(self).slot_of(p))
            },
    {
        if self.current.is_some() {
            return ;
        }
        self.pick_next();
    }

    /// `get_time()`: ticks elapsed since boot.
    pub fn get_time(&self) -> (t: u64)
        ensures
            t == self.tick,
    {
        self.tick
    }

    /// The pid of the running process, if the unit is not idle.
    pub fn current_pid(&self) -> (r: Option<usize>)
        ensures
            r == self.current,
    {
        self.current
    }
}

} // verus!
