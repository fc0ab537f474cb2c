use vstd::prelude::*;

use crate::kernel::{entry_lt, Kernel};
use crate::process::WaitTarget;

verus! {

/// A sleeping process is never the running process and never sits in the
/// ready queue, and its wake tick lies strictly in the future: a sleeper is
/// not resumed before its wake tick is reached.
pub proof fn lemma_sleeping_not_runnable(k: Kernel, p: int)
    requires
        k.wf(),
        k.is_sleeping(p),
    ensures
        k.wake_of(p) > k.tick,
        k.current != Some(p as usize),
        !k.rq().contains(p as usize),
{
    assert(exists|i: int| 0 <= i < k.sq().len() && (#[trigger] k.sq()[i]).pid == p);
    let i = choose|i: int| 0 <= i < k.sq().len() && (#[trigger] k.sq()[i]).pid == p;
    assert(k.sq()[i].wake_tick > k.tick);
    assert(k.wake_of(k.sq()[i].pid as int) == k.sq()[i].wake_tick);
    if k.current == Some(p as usize) {
        assert(k.is_running(p));
    }
    if k.rq().contains(p as usize) {
        let j = choose|j: int| 0 <= j < k.rq().len() && k.rq()[j] == p as usize;
        assert(k.is_ready(k.rq()[j] as int));
    }
}

/// A zombie can never be scheduled again: it is not the running process
/// and sits in neither the ready queue nor the sleep queue. Together with
/// the `zombies_preserved` clause that every kernel operation ensures,
/// a terminated process undergoes no further state transition until a
/// `waitpid` destroys its descriptor.
pub proof fn lemma_zombie_not_schedulable(k: Kernel, p: int)
    requires
        k.wf(),
        k.is_zombie(p),
    ensures
        k.current != Some(p as usize),
        !k.rq().contains(p as usize),
        forall|i: int| 0 <= i < k.sq().len() ==> (#[trigger] k.sq()[i]).pid != p,
{
    if k.current == Some(p as usize) {
        assert(k.is_running(p));
    }
    if k.rq().contains(p as usize) {
        let j = choose|j: int| 0 <= j < k.rq().len() && k.rq()[j] == p as usize;
        assert(k.is_ready(k.rq()[j] as int));
    }
    assert forall|i: int| 0 <= i < k.sq().len() implies (#[trigger] k.sq()[i]).pid != p by {
        assert(k.is_sleeping(k.sq()[i].pid as int));
    }
}

/// Over a strictly ascending pid sequence, the front-to-back zombie scan
/// finds the lowest-pid zombie, or reports that there is none.
proof fn lemma_first_zombie_in_ascending(k: Kernel, s: Seq<usize>)
    requires
        forall|i: int, j: int| 0 <= i < j < s.len() ==> s[i] < s[j],
    ensures
        k.first_zombie_in(s) matches Some(z) ==> s.contains(z) && k.is_zombie(z as int) && (
        forall|j: int| 0 <= j < s.len() && k.is_zombie(#[trigger] s[j] as int) ==> z <= s[j]),
        k.first_zombie_in(s) is None ==> forall|j: int|
            0 <= j < s.len() ==> !k.is_zombie(#[trigger] s[j] as int),
    decreases s.len(),
{
    if s.len() == 0 {
    } else if k.is_zombie(s[0] as int) {
        assert(s.contains(s[0]));
        assert forall|j: int|
            0 <= j < s.len() && k.is_zombie(#[trigger] s[j] as int) implies s[0] <= s[j] by {
            if j > 0 {
                assert(s[0] < s[j]);
            }
        }
    } else {
        let t = s.skip(1);
        assert forall|i: int, j: int| 0 <= i < j < t.len() implies t[i] < t[j] by {
            assert(t[i] == s[i + 1] && t[j] == s[j + 1]);
        }
        lemma_first_zombie_in_ascending(k, t);
        match k.first_zombie_in(s) {
            Some(z) => {
                assert(t.contains(z));
                let i = choose|i: int| 0 <= i < t.len() && t[i] == z;
                assert(s[i + 1] == z);
                assert(s.contains(z));
                assert forall|j: int|
                    0 <= j < s.len() && k.is_zombie(#[trigger] s[j] as int) implies z <= s[j] by {
                    assert(j != 0);
                    assert(t[j - 1] == s[j]);
                }
            },
            None => {
                assert forall|j: int|
                    0 <= j < s.len() implies !k.is_zombie(#[trigger] s[j] as int) by {
                    if j > 0 {
                        assert(t[j - 1] == s[j]);
                    }
                }
            },
        }
    }
}

/// The child that a wildcard `waitpid` reaps is deterministic: the zombie
/// child with the lowest pid; and when the pick is empty, no child of the
/// caller is a zombie at all (the caller must block).
pub proof fn lemma_wildcard_pick_is_lowest_zombie(k: Kernel, c: int)
    requires
        k.wf(),
        k.live(c),
    ensures
        k.wait_ready_child(c, WaitTarget::AnyChild) matches Some(z) ==> {
            &&& k.children_of(c).contains(z)
            &&& k.is_zombie(z as int)
            &&& (forall|j: int|
                0 <= j < k.children_of(c).len() && k.is_zombie(
                    #[trigger] k.children_of(c)[j] as int,
                ) ==> z <= k.children_of(c)[j])
        },
        k.wait_ready_child(c, WaitTarget::AnyChild) is None ==> forall|j: int|
            0 <= j < k.children_of(c).len() ==> !k.is_zombie(
                #[trigger] k.children_of(c)[j] as int,
            ),
{
    let s = k.children_of(c);
    assert forall|i: int, j: int| 0 <= i < j < s.len() implies s[i] < s[j] by {
        assert(k.children_of(c)[i] < k.children_of(c)[j]);
    }
    lemma_first_zombie_in_ascending(k, s);
}

/// Two processes sleeping until the same wake tick sit in the sleep queue
/// in ascending pid order. Since `advance_tick` appends the due prefix of
/// the sleep queue to the ready queue in queue order, processes with equal
/// wake ticks wake in ascending pid order.
pub proof fn lemma_equal_wake_ascending_pids(k: Kernel, a: int, b: int)
    requires
        k.wf(),
        k.is_sleeping(a),
        k.is_sleeping(b),
        k.wake_of(a) == k.wake_of(b),
        a < b,
    ensures
        exists|i: int, j: int|
            0 <= i < j < k.sq().len() && (#[trigger] k.sq()[i]).pid == a && (#[trigger] k.sq()[j]).pid
                == b,
{
    let i = choose|i: int| 0 <= i < k.sq().len() && (#[trigger] k.sq()[i]).pid == a;
    let j = choose|j: int| 0 <= j < k.sq().len() && (#[trigger] k.sq()[j]).pid == b;
    assert(k.wake_of(k.sq()[i].pid as int) == k.sq()[i].wake_tick);
    assert(k.wake_of(k.sq()[j].pid as int) == k.sq()[j].wake_tick);
    assert(i != j);
    if j < i {
        assert(entry_lt(k.sq()[j], k.sq()[i]));
        assert(false);
    }
    assert(0 <= i < j < k.sq().len() && k.sq()[i].pid == a && k.sq()[j].pid == b);
}

} // verus!
