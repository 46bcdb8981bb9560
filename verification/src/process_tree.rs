use vstd::prelude::*;
use crate::config::INIT_PID;
use crate::task::{Kernel, reap_spec, exit_effect};

verus! {

// The children lists of the tasks form a forest: each child pid is listed
// once, by one parent other than itself, was handed out before, and is not
// the initial process.

/// Every child pid listed by some task was handed out already, is neither the
/// initial process nor the listing task itself, and no pid is listed twice,
/// whether by one task or by two.
pub open spec fn children_unique(k: Kernel) -> bool {
    &&& forall|i: int, a: int| 0 <= i < k.tasks@.len() && 0 <= a < k.tasks@[i].children@.len() ==> {
        &&& #[trigger] k.tasks@[i].children@[a] < k.next_pid
        &&& k.tasks@[i].children@[a] != INIT_PID
        &&& k.tasks@[i].children@[a] != k.tasks@[i].pid
    }
    &&& forall|i: int, j: int, a: int, b: int|
        0 <= i < k.tasks@.len() && 0 <= j < k.tasks@.len() && 0 <= a < k.tasks@[i].children@.len()
            && 0 <= b < k.tasks@[j].children@.len() && (i != j || a != b)
            ==> #[trigger] k.tasks@[i].children@[a] != #[trigger] k.tasks@[j].children@[b]
}

/// The children lists stay unique when they stay as they were.
pub proof fn lemma_children_same(o: Kernel, k: Kernel)
    requires
        children_unique(o),
        k.tasks@.len() == o.tasks@.len(),
        k.next_pid >= o.next_pid,
        forall|j: int| 0 <= j < o.tasks@.len() ==> (#[trigger] k.tasks@[j]).children@ == o.tasks@[j].children@
            && k.tasks@[j].pid == o.tasks@[j].pid,
    ensures
        children_unique(k),
{
    assert forall|i: int, a: int| 0 <= i < k.tasks@.len() && 0 <= a < k.tasks@[i].children@.len() implies {
        &&& #[trigger] k.tasks@[i].children@[a] < k.next_pid
        &&& k.tasks@[i].children@[a] != INIT_PID
        &&& k.tasks@[i].children@[a] != k.tasks@[i].pid
    } by {
        assert(k.tasks@[i].children@ == o.tasks@[i].children@);
        assert(o.tasks@[i].children@[a] < o.next_pid);
    }
    assert forall|i: int, j: int, a: int, b: int|
        0 <= i < k.tasks@.len() && 0 <= j < k.tasks@.len() && 0 <= a < k.tasks@[i].children@.len()
            && 0 <= b < k.tasks@[j].children@.len() && (i != j || a != b)
        implies #[trigger] k.tasks@[i].children@[a] != #[trigger] k.tasks@[j].children@[b] by {
        assert(k.tasks@[i].children@ == o.tasks@[i].children@);
        assert(k.tasks@[j].children@ == o.tasks@[j].children@);
        assert(o.tasks@[i].children@[a] != o.tasks@[j].children@[b]);
    }
}

/// The children lists stay unique when the task at position `ci` gains the
/// next pid as a new child, which is appended as a task with no children.
pub proof fn lemma_children_new_child(o: Kernel, k: Kernel, ci: int)
    requires
        children_unique(o),
        0 <= ci < o.tasks@.len(),
        k.tasks@.len() == o.tasks@.len() + 1,
        k.next_pid == o.next_pid + 1,
        forall|j: int| 0 <= j < o.tasks@.len() && j != ci ==> (#[trigger] k.tasks@[j]).children@ == o.tasks@[j].children@
            && k.tasks@[j].pid == o.tasks@[j].pid,
        k.tasks@[ci].children@ == o.tasks@[ci].children@.push(o.next_pid),
        k.tasks@[ci].pid == o.tasks@[ci].pid,
        o.tasks@[ci].pid < o.next_pid,
        k.tasks@[o.tasks@.len() as int].children@.len() == 0,
    ensures
        children_unique(k),
{
    let n = o.tasks@.len() as int;
    assert forall|i: int, a: int| 0 <= i < k.tasks@.len() && 0 <= a < k.tasks@[i].children@.len() implies {
        &&& #[trigger] k.tasks@[i].children@[a] < k.next_pid
        &&& k.tasks@[i].children@[a] != INIT_PID
        &&& k.tasks@[i].children@[a] != k.tasks@[i].pid
    } by {
        if i != ci {
            assert(k.tasks@[i].children@ == o.tasks@[i].children@);
            assert(o.tasks@[i].children@[a] < o.next_pid);
        } else if a < o.tasks@[ci].children@.len() {
            assert(o.tasks@[ci].children@[a] < o.next_pid);
        }
    }
    assert forall|i: int, j: int, a: int, b: int|
        0 <= i < k.tasks@.len() && 0 <= j < k.tasks@.len() && 0 <= a < k.tasks@[i].children@.len()
            && 0 <= b < k.tasks@[j].children@.len() && (i != j || a != b)
        implies #[trigger] k.tasks@[i].children@[a] != #[trigger] k.tasks@[j].children@[b] by {
        let li = o.tasks@[ci].children@.len();
        let x = k.tasks@[i].children@[a];
        let y = k.tasks@[j].children@[b];
        if i != ci {
            assert(k.tasks@[i].children@ == o.tasks@[i].children@);
            assert(x < o.next_pid);
        }
        if j != ci {
            assert(k.tasks@[j].children@ == o.tasks@[j].children@);
            assert(y < o.next_pid);
        }
        if i == ci && a < li {
            assert(x == o.tasks@[ci].children@[a]);
            assert(x < o.next_pid);
        }
        if j == ci && b < li {
            assert(y == o.tasks@[ci].children@[b]);
            assert(y < o.next_pid);
        }
        if !(i == ci && a == li) && !(j == ci && b == li) {
            let a2 = a;
            let b2 = b;
            if i == ci {
                assert(x == o.tasks@[ci].children@[a]);
            } else {
                assert(x == o.tasks@[i].children@[a]);
            }
            if j == ci {
                assert(y == o.tasks@[ci].children@[b]);
            } else {
                assert(y == o.tasks@[j].children@[b]);
            }
            assert(o.tasks@[i].children@[a2] != o.tasks@[j].children@[b2]);
        }
    }
}

/// The children lists stay unique when a task with no children and the
/// next pid is appended.
pub proof fn lemma_children_new_task(o: Kernel, k: Kernel)
    requires
        children_unique(o),
        k.tasks@.len() == o.tasks@.len() + 1,
        k.next_pid == o.next_pid + 1,
        forall|j: int| 0 <= j < o.tasks@.len() ==> #[trigger] k.tasks@[j] == o.tasks@[j],
        k.tasks@[o.tasks@.len() as int].children@.len() == 0,
    ensures
        children_unique(k),
{
    assert forall|i: int, a: int| 0 <= i < k.tasks@.len() && 0 <= a < k.tasks@[i].children@.len() implies {
        &&& #[trigger] k.tasks@[i].children@[a] < k.next_pid
        &&& k.tasks@[i].children@[a] != INIT_PID
        &&& k.tasks@[i].children@[a] != k.tasks@[i].pid
    } by {
        assert(k.tasks@[i].children@ == o.tasks@[i].children@);
        assert(o.tasks@[i].children@[a] < o.next_pid);
    }
    assert forall|i: int, j: int, a: int, b: int|
        0 <= i < k.tasks@.len() && 0 <= j < k.tasks@.len() && 0 <= a < k.tasks@[i].children@.len()
            && 0 <= b < k.tasks@[j].children@.len() && (i != j || a != b)
        implies #[trigger] k.tasks@[i].children@[a] != #[trigger] k.tasks@[j].children@[b] by {
        assert(k.tasks@[i].children@ == o.tasks@[i].children@);
        assert(k.tasks@[j].children@ == o.tasks@[j].children@);
        assert(o.tasks@[i].children@[a] != o.tasks@[j].children@[b]);
    }
}

/// Where the child at position `a` of task `i` of the kernel after an exit
/// of the task at `ci` was listed before: the initial process lists the
/// exiting task's children after its own.
pub open spec fn exit_source(o: Kernel, i: int, a: int, ci: int) -> (int, int) {
    if o.tasks@[i].pid == INIT_PID && a >= o.tasks@[i].children@.len() {
        (ci, a - o.tasks@[i].children@.len())
    } else {
        (i, a)
    }
}

/// The children lists stay unique when the running task exits: its children
/// go to the initial process and its own list is emptied.
pub proof fn lemma_children_exit(o: Kernel, k: Kernel, code: i32)
    requires
        o.wf(),
        o.current is Some,
        children_unique(o),
        exit_effect(o, k, code),
    ensures
        children_unique(k),
{
    let ci = o.cur_index();
    let orphans = o.cur_task().children@;
    assert forall|i: int, a: int| 0 <= i < k.tasks@.len() && 0 <= a < k.tasks@[i].children@.len() && i != ci
        implies #[trigger] k.tasks@[i].children@[a] == o.tasks@[exit_source(o, i, a, ci).0].children@[exit_source(o, i, a, ci).1]
            && 0 <= exit_source(o, i, a, ci).1 < o.tasks@[exit_source(o, i, a, ci).0].children@.len()
            && (exit_source(o, i, a, ci).0 == ci || exit_source(o, i, a, ci).0 == i) by {
        assert(k.tasks@[i].children@ == if o.tasks@[i].pid == INIT_PID {
            o.tasks@[i].children@ + orphans
        } else {
            o.tasks@[i].children@
        });
    }
    assert forall|i: int, a: int| 0 <= i < k.tasks@.len() && 0 <= a < k.tasks@[i].children@.len() implies {
        &&& #[trigger] k.tasks@[i].children@[a] < k.next_pid
        &&& k.tasks@[i].children@[a] != INIT_PID
        &&& k.tasks@[i].children@[a] != k.tasks@[i].pid
    } by {
        assert(i != ci);
        let (si, sa) = exit_source(o, i, a, ci);
        assert(k.tasks@[i].children@[a] == o.tasks@[si].children@[sa]);
        assert(o.tasks@[si].children@[sa] < o.next_pid);
    }
    assert forall|i: int, j: int, a: int, b: int|
        0 <= i < k.tasks@.len() && 0 <= j < k.tasks@.len() && 0 <= a < k.tasks@[i].children@.len()
            && 0 <= b < k.tasks@[j].children@.len() && (i != j || a != b)
        implies #[trigger] k.tasks@[i].children@[a] != #[trigger] k.tasks@[j].children@[b] by {
        assert(i != ci && j != ci);
        let (si, sa) = exit_source(o, i, a, ci);
        let (sj, sb) = exit_source(o, j, b, ci);
        assert(k.tasks@[i].children@[a] == o.tasks@[si].children@[sa]);
        assert(k.tasks@[j].children@[b] == o.tasks@[sj].children@[sb]);
        if si == sj && sa == sb {
            if si == ci {
                assert(o.tasks@[i].pid == INIT_PID && o.tasks@[j].pid == INIT_PID);
                if i != j {
                    if i < j {
                        assert(o.tasks@[i].pid != o.tasks@[j].pid);
                    } else {
                        assert(o.tasks@[j].pid != o.tasks@[i].pid);
                    }
                }
            }
        }
        assert(o.tasks@[si].children@[sa] != o.tasks@[sj].children@[sb]);
    }
}

/// Where the child at position `a` of task `i` of the kernel `k` was listed
/// in `o` before the running task reaped its child at position `idx`: in
/// the same task (found by pid), one place further on past `idx` in the
/// running task's list.
pub open spec fn reap_source(o: Kernel, k: Kernel, i: int, a: int, idx: int) -> (int, int) {
    let oi = o.index_of_pid(k.tasks@[i].pid);
    if k.tasks@[i].pid == o.current.unwrap() && a >= idx {
        (oi, a + 1)
    } else {
        (oi, a)
    }
}

/// The children lists stay unique when the running task reaps a child.
pub proof fn lemma_children_reap(o: Kernel, k: Kernel, c: usize, idx: int)
    requires
        o.wf(),
        k.wf(),
        o.current is Some,
        children_unique(o),
        0 <= idx < o.cur_task().children@.len(),
        reap_spec(o, k, c, idx),
    ensures
        children_unique(k),
{
    let cur = o.current.unwrap();
    assert forall|i: int, a: int| 0 <= i < k.tasks@.len() && 0 <= a < k.tasks@[i].children@.len()
        implies #[trigger] k.tasks@[i].children@[a] == o.tasks@[reap_source(o, k, i, a, idx).0].children@[reap_source(o, k, i, a, idx).1]
            && 0 <= reap_source(o, k, i, a, idx).1 < o.tasks@[reap_source(o, k, i, a, idx).0].children@.len()
            && 0 <= reap_source(o, k, i, a, idx).0 < o.tasks@.len()
            && o.tasks@[reap_source(o, k, i, a, idx).0].pid == k.tasks@[i].pid by {
        let p = k.tasks@[i].pid;
        k.lemma_index_of_pid(i);
        assert(o.has_pid(p));
        let oi = o.index_of_pid(p);
        assert(0 <= oi < o.tasks@.len() && o.tasks@[oi].pid == p);
        if p != cur {
            assert(same_task_children(k.task(p), o.task(p)));
        } else {
            o.lemma_index_of_pid(oi);
            assert(o.cur_index() == oi);
            assert(k.cur_index() == i);
            assert(k.tasks@[i].children@ == o.tasks@[oi].children@.remove(idx));
        }
    }
    assert forall|i: int, a: int| 0 <= i < k.tasks@.len() && 0 <= a < k.tasks@[i].children@.len() implies {
        &&& #[trigger] k.tasks@[i].children@[a] < k.next_pid
        &&& k.tasks@[i].children@[a] != INIT_PID
        &&& k.tasks@[i].children@[a] != k.tasks@[i].pid
    } by {
        let (si, sa) = reap_source(o, k, i, a, idx);
        assert(k.tasks@[i].children@[a] == o.tasks@[si].children@[sa]);
        assert(o.tasks@[si].children@[sa] < o.next_pid);
    }
    assert forall|i: int, j: int, a: int, b: int|
        0 <= i < k.tasks@.len() && 0 <= j < k.tasks@.len() && 0 <= a < k.tasks@[i].children@.len()
            && 0 <= b < k.tasks@[j].children@.len() && (i != j || a != b)
        implies #[trigger] k.tasks@[i].children@[a] != #[trigger] k.tasks@[j].children@[b] by {
        let (si, sa) = reap_source(o, k, i, a, idx);
        let (sj, sb) = reap_source(o, k, j, b, idx);
        assert(k.tasks@[i].children@[a] == o.tasks@[si].children@[sa]);
        assert(k.tasks@[j].children@[b] == o.tasks@[sj].children@[sb]);
        if i != j {
            if i < j {
                assert(k.tasks@[i].pid != k.tasks@[j].pid);
            } else {
                assert(k.tasks@[j].pid != k.tasks@[i].pid);
            }
            assert(si != sj);
        }
        assert(o.tasks@[si].children@[sa] != o.tasks@[sj].children@[sb]);
    }
}

/// Two tasks have the same children.
pub open spec fn same_task_children(a: crate::task::TaskControlBlock, b: crate::task::TaskControlBlock) -> bool {
    a.children@ == b.children@
}

/// The children lists stay unique when only the task at position `i`
/// changed, and not in its children.
pub proof fn lemma_children_one_changed(o: Kernel, k: Kernel, i: int)
    requires
        children_unique(o),
        0 <= i < o.tasks@.len(),
        k.tasks@.len() == o.tasks@.len(),
        k.next_pid >= o.next_pid,
        forall|j: int| 0 <= j < o.tasks@.len() && j != i ==> #[trigger] k.tasks@[j] == o.tasks@[j],
        k.tasks@[i].children@ == o.tasks@[i].children@,
        k.tasks@[i].pid == o.tasks@[i].pid,
    ensures
        children_unique(k),
{
    assert forall|j: int| 0 <= j < o.tasks@.len() implies (#[trigger] k.tasks@[j]).children@ == o.tasks@[j].children@
        && k.tasks@[j].pid == o.tasks@[j].pid by {
        if j != i {
            assert(k.tasks@[j] == o.tasks@[j]);
        }
    }
    lemma_children_same(o, k);
}

/// Under the invariant the running task may always exit: it lists neither
/// the initial process nor itself among its children.
pub proof fn lemma_exit_allowed(k: Kernel)
    requires
        k.wf(),
        k.current is Some,
        children_unique(k),
    ensures
        !k.cur_task().children@.contains(INIT_PID),
        !k.cur_task().children@.contains(k.current.unwrap()),
{
    let ci = k.cur_index();
    let ch = k.cur_task().children@;
    assert(k.tasks@[ci].pid == k.current.unwrap());
    if ch.contains(INIT_PID) {
        let a = choose|a: int| 0 <= a < ch.len() && ch[a] == INIT_PID;
        assert(k.tasks@[ci].children@[a] != INIT_PID);
    }
    if ch.contains(k.current.unwrap()) {
        let a = choose|a: int| 0 <= a < ch.len() && ch[a] == k.current.unwrap();
        assert(k.tasks@[ci].children@[a] != k.tasks@[ci].pid);
    }
}

} // verus!
