use vstd::prelude::*;

use crate::process::{ExecContext, KernelError, ProcState, ProcessDescriptor};

verus! {

/// The authoritative store of all process descriptors: an arena indexed by
/// pid. Pids are assigned monotonically and never reused; a reaped process
/// leaves a `None` slot behind.
pub struct ProcessTable {
    pub slots: Vec<Option<ProcessDescriptor>>,
}

impl ProcessTable {
    /// Number of pids ever allocated; the next fork takes pid `n()`.
    pub open spec fn n(self) -> int {
        self.slots@.len() as int
    }

    /// The slot of pid `p`; `None` outside the allocated range.
    pub open spec fn slot_of(self, p: int) -> Option<ProcessDescriptor> {
        if 0 <= p < self.n() {
            self.slots@[p]
        } else {
            None::<ProcessDescriptor>
        }
    }

    /// Pid `p` names a descriptor that has been created and not destroyed.
    pub open spec fn is_live(self, p: int) -> bool {
        self.slot_of(p) is Some
    }

    pub open spec fn desc(self, p: int) -> ProcessDescriptor {
        self.slot_of(p).unwrap()
    }

    /// Every live descriptor sits in the slot named by its own pid.
    pub open spec fn wf(self) -> bool {
        forall|p: int| #[trigger] self.is_live(p) ==> self.desc(p).pid == p
    }

    /// An empty table: no process ever allocated.
    pub fn new() -> (t: ProcessTable)
        ensures
            t.n() == 0,
            t.wf(),
    {
        ProcessTable { slots: Vec::new() }
    }

    /// Move the descriptor of a live pid out of the table, leaving `None`.
    fn take_desc(&mut self, pid: usize) -> (d: ProcessDescriptor)
        requires
            old(self).is_live(pid as int),
        ensures
            d == old(self).desc(pid as int),
            final(self).slots@ == old(self).slots@.update(pid as int, None::<ProcessDescriptor>),
    {
        let d_opt = self.slots.remove(pid);
        self.slots.insert(pid, None);
        proof {
            assert(self.slots@ =~= old(self).slots@.update(
                pid as int,
                None::<ProcessDescriptor>,
            ));
        }
        match d_opt {
            Some(d) => d,
            None => vstd::pervasive::unreached(),
        }
    }

    /// `create(parent_pid)`: allocate a fresh descriptor in `Ready` state
    /// under the next monotone pid, duplicating the parent's execution
    /// context (copy semantics), and record the child in the parent's
    /// `children` list. Fails with `NotFound` on a dead parent pid.
    pub fn create(&mut self, parent_pid: usize) -> (r: Result<usize, KernelError>)
        requires
            old(self).wf(),
            old(self).n() < usize::MAX as int,
        ensures
            !old(self).is_live(parent_pid as int) ==> r == Err::<usize, KernelError>(
                KernelError::NotFound,
            ) && *final(self) == *old(self),
            old(self).is_live(parent_pid as int) ==> {
                let c = old(self).n();
                &&& r == Ok::<usize, KernelError>((c as usize))
                &&& final(self).n() == c + 1
                &&& final(self).is_live(c)
                &&& final(self).is_live(parent_pid as int)
                &&& final(self).desc(c).pid == c as usize
                &&& final(self).desc(c).parent == Some(parent_pid)
                &&& final(self).desc(c).children@.len() == 0
                &&& final(self).desc(c).state is Ready
                &&& final(self).desc(c).ctx == old(self).desc(parent_pid as int).ctx
                &&& final(self).desc(parent_pid as int).children@ == old(self).desc(
                    parent_pid as int,
                ).children@.push((c as usize))
                &&& final(self).desc(parent_pid as int).pid == old(self).desc(
                    parent_pid as int,
                ).pid
                &&& final(self).desc(parent_pid as int).parent == old(self).desc(
                    parent_pid as int,
                ).parent
                &&& final(self).desc(parent_pid as int).state == old(self).desc(
                    parent_pid as int,
                ).state
                &&& final(self).desc(parent_pid as int).ctx == old(self).desc(
                    parent_pid as int,
                ).ctx
                &&& (forall|q: int|
                    q != c && q != parent_pid as int ==> #[trigger] final(self).slot_of(q) == old(
                        self,
                    ).slot_of(q))
                &&& final(self).wf()
            },
    {
        let live_parent = parent_pid < self.slots.len() && self.slots[parent_pid].is_some();
        if !live_parent {
            return Err(KernelError::NotFound);
        }
        let child_pid = self.slots.len();
        let mut pd = self.take_desc(parent_pid);
        let child_ctx = pd.ctx;
        pd.children.push(child_pid);
        self.slots[parent_pid] = Some(pd);
        let child = ProcessDescriptor {
            pid: child_pid,
            parent: Some(parent_pid),
            children: Vec::new(),
            state: ProcState::Ready,
            ctx: child_ctx,
        };
        self.slots.push(Some(child));
        proof {
            let pre = *old(self);
            assert forall|q: int|
                q != child_pid as int && q != parent_pid as int implies #[trigger] self.slot_of(q)
                == pre.slot_of(q) by {}
            assert forall|p: int| #[trigger] self.is_live(p) implies self.desc(p).pid == p by {
                if p == child_pid as int {
                } else if p == parent_pid as int {
                    assert(pre.is_live(p));
                    assert(pre.desc(p).pid == p);
                } else {
                    assert(self.slot_of(p) == pre.slot_of(p));
                    assert(pre.is_live(p));
                }
            }
        }
        Ok(child_pid)
    }

    /// `lookup(pid)`: the descriptor, or `NotFound` on a lookup miss.
    pub fn lookup(&self, pid: usize) -> (r: Result<&ProcessDescriptor, KernelError>)
        ensures
            self.is_live(pid as int) ==> (r matches Ok(d) && *d == self.desc(pid as int)),
            !self.is_live(pid as int) ==> r == Err::<&ProcessDescriptor, KernelError>(
                KernelError::NotFound,
            ),
    {
        if pid < self.slots.len() {
            match &self.slots[pid] {
                Some(d) => Ok(d),
                None => Err(KernelError::NotFound),
            }
        } else {
            Err(KernelError::NotFound)
        }
    }

    /// `set_state(pid, st)`: the only mutator of a descriptor's `state`.
    /// Everything else about the descriptor, and every other slot, is kept.
    pub fn set_state(&mut self, pid: usize, st: ProcState) -> (r: Result<(), KernelError>)
        ensures
            !old(self).is_live(pid as int) ==> r == Err::<(), KernelError>(KernelError::NotFound)
                && *final(self) == *old(self),
            old(self).is_live(pid as int) ==> r == Ok::<(), KernelError>(())
                && final(self).slots@ == old(self).slots@.update(
                pid as int,
                Some(
                    (ProcessDescriptor {
                        state: st,
                        ..old(self).desc(pid as int)
                    }),
                ),
            ),
    {
        if pid < self.slots.len() && self.slots[pid].is_some() {
            let mut d = self.take_desc(pid);
            d.state = st;
            self.slots[pid] = Some(d);
            proof {
                assert(self.slots@ =~= old(self).slots@.update(
                    pid as int,
                    Some(
                        (ProcessDescriptor {
                            state: st,
                            ..old(self).desc(pid as int)
                        }),
                    ),
                ));
            }
            Ok(())
        } else {
            Err(KernelError::NotFound)
        }
    }

    /// `destroy(pid)`: remove a `Zombie` descriptor from the table; its pid
    /// is retired (the slot stays empty forever). Fails with `InvalidState`
    /// on a live non-zombie and with `NotFound` on a dead pid.
    pub fn destroy(&mut self, pid: usize) -> (r: Result<(), KernelError>)
        ensures
            !old(self).is_live(pid as int) ==> r == Err::<(), KernelError>(KernelError::NotFound)
                && *final(self) == *old(self),
            old(self).is_live(pid as int) && !(old(self).desc(pid as int).state is Zombie) ==> r
                == Err::<(), KernelError>(KernelError::InvalidState) && *final(self) == *old(self),
            old(self).is_live(pid as int) && old(self).desc(pid as int).state is Zombie ==> r
                == Ok::<(), KernelError>(()) && final(self).slots@ == old(self).slots@.update(
                pid as int,
                None::<ProcessDescriptor>,
            ),
    {
        if pid >= self.slots.len() {
            return Err(KernelError::NotFound);
        }
        let zombie = match &self.slots[pid] {
            Some(d) => match d.state {
                ProcState::Zombie { .. } => true,
                _ => false,
            },
            None => {
                return Err(KernelError::NotFound);
            },
        };
        if !zombie {
            return Err(KernelError::InvalidState);
        }
        let _ = self.take_desc(pid);
        Ok(())
    }

    /// Strike `child_pid` off the `children` list of a live parent, as part
    /// of reaping; everything else about the parent is kept.
    pub fn remove_child(&mut self, parent_pid: usize, child_pid: usize)
        requires
            old(self).is_live(parent_pid as int),
            old(self).desc(parent_pid as int).children@.contains(child_pid),
            old(self).desc(parent_pid as int).children@.no_duplicates(),
        ensures
            final(self).n() == old(self).n(),
            forall|q: int|
                q != parent_pid as int ==> #[trigger] final(self).slot_of(q) == old(self).slot_of(
                    q,
                ),
            final(self).is_live(parent_pid as int),
            final(self).desc(parent_pid as int).pid == old(self).desc(parent_pid as int).pid,
            final(self).desc(parent_pid as int).parent == old(self).desc(parent_pid as int).parent,
            final(self).desc(parent_pid as int).state == old(self).desc(parent_pid as int).state,
            final(self).desc(parent_pid as int).ctx == old(self).desc(parent_pid as int).ctx,
            final(self).desc(parent_pid as int).children@ == old(self).desc(
                parent_pid as int,
            ).children@.remove_value(child_pid),
    {
        let ghost pre = *old(self);
        let ghost kids = pre.desc(parent_pid as int).children@;
        let mut d = self.take_desc(parent_pid);
        let mut idx: usize = 0;
        while idx < d.children.len() && d.children[idx] != child_pid
            invariant
                d == pre.desc(parent_pid as int),
                kids == d.children@,
                kids.contains(child_pid),
                0 <= idx <= kids.len(),
                forall|j: int| 0 <= j < idx ==> kids[j] != child_pid,
            decreases d.children.len() - idx,
        {
            idx += 1;
        }
        proof {
            assert(idx < kids.len() && kids[idx as int] == child_pid) by {
                if idx == kids.len() {
                    let j = choose|j: int| 0 <= j < kids.len() && kids[j] == child_pid;
                    assert(kids[j] != child_pid);
                }
            }
            kids.index_of_first_ensures(child_pid);
            assert(kids.index_of_first(child_pid) == Some(idx as int));
            assert(kids.remove_value(child_pid) == kids.remove(idx as int));
        }
        let _ = d.children.remove(idx);
        self.slots[parent_pid] = Some(d);
        proof {
            assert(self.slots@ =~= pre.slots@.update(parent_pid as int, self.slots@[parent_pid as int]));
            assert forall|q: int|
                q != parent_pid as int implies #[trigger] self.slot_of(q) == pre.slot_of(q) by {}
        }
    }

    /// Write the syscall-return register of a live process's context. Used
    /// by `fork` to make the child observe `0` when it first resumes.
    pub fn set_syscall_ret(&mut self, pid: usize, val: i64) -> (r: Result<(), KernelError>)
        ensures
            !old(self).is_live(pid as int) ==> r == Err::<(), KernelError>(KernelError::NotFound)
                && *final(self) == *old(self),
            old(self).is_live(pid as int) ==> r == Ok::<(), KernelError>(())
                && final(self).slots@ == old(self).slots@.update(
                pid as int,
                Some(
                    (ProcessDescriptor {
                        ctx: (ExecContext { ret_val: val, ..old(self).desc(pid as int).ctx }),
                        ..old(self).desc(pid as int)
                    }),
                ),
            ),
    {
        if pid < self.slots.len() && self.slots[pid].is_some() {
            let mut d = self.take_desc(pid);
            d.ctx.ret_val = val;
            self.slots[pid] = Some(d);
            proof {
                assert(self.slots@ =~= old(self).slots@.update(
                    pid as int,
                    Some(
                        (ProcessDescriptor {
                            ctx: (ExecContext {
                                ret_val: val,
                                ..old(self).desc(pid as int).ctx
                            }),
                            ..old(self).desc(pid as int)
                        }),
                    ),
                ));
            }
            Ok(())
        } else {
            Err(KernelError::NotFound)
        }
    }
}

} // verus!
