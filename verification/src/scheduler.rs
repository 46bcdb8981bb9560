use vstd::prelude::*;
use crate::config::BIG_STRIDE;
use crate::process_tree::children_unique;
use crate::task::{Kernel, TaskControlBlock, TaskStatus, same_task, lemma_wf_after_fields_change};

verus! {

/// `a` comes before `b` in stride order: their difference, taken modulo
/// 2^64 and read as a signed number, is negative. This orders two strides
/// correctly even after one has wrapped, as long as they lie less than 2^63
/// apart.
pub open spec fn stride_before(a: u64, b: u64) -> bool {
    ((a as int - b as int) % 0x1_0000_0000_0000_0000) >= 0x8000_0000_0000_0000
}

/// Whether `a` comes before `b` in stride order.
pub fn stride_lt(a: u64, b: u64) -> (r: bool)
    ensures
        r == stride_before(a, b),
{
    let d = a.wrapping_sub(b);
    assert(d == (a as int - b as int) % 0x1_0000_0000_0000_0000) by {
        if a >= b {
            assert((a as int - b as int) % 0x1_0000_0000_0000_0000 == a - b);
        } else {
            assert((a as int - b as int) % 0x1_0000_0000_0000_0000 == a as int - b as int + 0x1_0000_0000_0000_0000) by {
                vstd::arithmetic::div_mod::lemma_mod_add_multiples_vanish(a as int - b as int, 0x1_0000_0000_0000_0000);
                vstd::arithmetic::div_mod::lemma_small_mod((a as int - b as int + 0x1_0000_0000_0000_0000) as nat, 0x1_0000_0000_0000_0000);
            }
        }
    }
    d >= 0x8000_0000_0000_0000
}

/// How far `b` lies ahead of `a` on the stride circle: `b - a` modulo 2^64.
pub open spec fn stride_gap(a: u64, b: u64) -> int {
    if b >= a {
        b - a
    } else {
        b - a + 0x1_0000_0000_0000_0000
    }
}

proof fn lemma_wrapped_difference(a: u64, b: u64)
    ensures
        (a as int - b as int) % 0x1_0000_0000_0000_0000 == if a >= b {
            a - b
        } else {
            a - b + 0x1_0000_0000_0000_0000
        },
{
    if a < b {
        vstd::arithmetic::div_mod::lemma_mod_add_multiples_vanish(a as int - b as int, 0x1_0000_0000_0000_0000);
        vstd::arithmetic::div_mod::lemma_small_mod((a as int - b as int + 0x1_0000_0000_0000_0000) as nat, 0x1_0000_0000_0000_0000);
    }
}

/// Stride order is the true order inside a window: when `x` and `y` both lie
/// less than 2^63 ahead of a common `base` on the stride circle, `x` comes
/// before `y` exactly when it lies closer to `base`, whether or not either
/// has wrapped past 2^64.
pub proof fn law_stride_order_in_window(base: u64, x: u64, y: u64)
    requires
        stride_gap(base, x) < 0x8000_0000_0000_0000,
        stride_gap(base, y) < 0x8000_0000_0000_0000,
    ensures
        stride_before(x, y) <==> stride_gap(base, x) < stride_gap(base, y),
{
    lemma_wrapped_difference(x, y);
}

/// A stride that grew by less than 2^63, wrapping or not, comes after the
/// stride it grew from, and not before it.
pub proof fn law_stride_grows_across_wrap(a: u64, d: u64)
    requires
        0 < d < 0x8000_0000_0000_0000,
    ensures
        stride_before(a, ((a as int + d as int) % 0x1_0000_0000_0000_0000) as u64),
        !stride_before(((a as int + d as int) % 0x1_0000_0000_0000_0000) as u64, a),
{
    let n = ((a as int + d as int) % 0x1_0000_0000_0000_0000) as u64;
    if a as int + d as int >= 0x1_0000_0000_0000_0000 {
        vstd::arithmetic::div_mod::lemma_mod_sub_multiples_vanish(a as int + d as int, 0x1_0000_0000_0000_0000);
        vstd::arithmetic::div_mod::lemma_small_mod((a as int + d as int - 0x1_0000_0000_0000_0000) as nat, 0x1_0000_0000_0000_0000);
    } else {
        vstd::arithmetic::div_mod::lemma_small_mod((a as int + d as int) as nat, 0x1_0000_0000_0000_0000);
    }
    assert(stride_gap(a, a) == 0);
    assert(stride_gap(a, n) == d);
    law_stride_order_in_window(a, a, n);
    law_stride_order_in_window(a, n, a);
}

/// Step added to a task's stride each time it is picked: `BIG_STRIDE`
/// divided by its priority.
pub open spec fn pass_of(priority: u64) -> u64 {
    (BIG_STRIDE / priority) as u64
}

/// With a priority of at least 2, one step adds at most half of
/// `BIG_STRIDE`.
pub proof fn law_pass_at_most_half(priority: u64)
    requires
        priority >= 2,
    ensures
        pass_of(priority) <= BIG_STRIDE / 2,
{
    vstd::arithmetic::div_mod::lemma_div_is_ordered_by_denominator(BIG_STRIDE as int, 2, priority as int);
}

/// The window kept by stride scheduling: when every stride lies at most
/// `BIG_STRIDE / 2` ahead of the smallest one, `base`, and the task holding
/// `base` runs with a priority of at least 2, its advanced stride lies in
/// that window as well; so any two strides stay at most `BIG_STRIDE / 2`
/// apart, and stride order compares them correctly.
pub proof fn law_advance_stays_in_window(base: u64, priority: u64, other: u64)
    requires
        priority >= 2,
        stride_gap(base, other) <= BIG_STRIDE / 2,
    ensures
        stride_gap(base, ((base as int + pass_of(priority) as int) % 0x1_0000_0000_0000_0000) as u64) <= BIG_STRIDE / 2,
        ({
            let n = ((base as int + pass_of(priority) as int) % 0x1_0000_0000_0000_0000) as u64;
            &&& stride_before(n, other) <==> stride_gap(base, n) < stride_gap(base, other)
            &&& stride_before(other, n) <==> stride_gap(base, other) < stride_gap(base, n)
        }),
{
    law_pass_at_most_half(priority);
    let d = pass_of(priority);
    let n = ((base as int + d as int) % 0x1_0000_0000_0000_0000) as u64;
    if base as int + d as int >= 0x1_0000_0000_0000_0000 {
        vstd::arithmetic::div_mod::lemma_mod_sub_multiples_vanish(base as int + d as int, 0x1_0000_0000_0000_0000);
        vstd::arithmetic::div_mod::lemma_small_mod((base as int + d as int - 0x1_0000_0000_0000_0000) as nat, 0x1_0000_0000_0000_0000);
    } else {
        vstd::arithmetic::div_mod::lemma_small_mod((base as int + d as int) as nat, 0x1_0000_0000_0000_0000);
    }
    assert(stride_gap(base, n) == d);
    law_stride_order_in_window(base, n, other);
    law_stride_order_in_window(base, other, n);
}

/// Position that a scan of the strides `s[0..n]` picks: the first, replaced
/// by each later one that comes before the one kept so far.
pub open spec fn scan_pick(s: Seq<u64>, n: nat) -> int
    decreases n,
{
    if n <= 1 {
        0
    } else {
        let b = scan_pick(s, (n - 1) as nat);
        if stride_before(s[n - 1], s[b]) {
            n - 1
        } else {
            b
        }
    }
}

/// The pick of a scan lies among the scanned positions.
pub proof fn lemma_scan_pick_bound(s: Seq<u64>, n: nat)
    requires
        n >= 1,
    ensures
        0 <= scan_pick(s, n) < n,
    decreases n,
{
    if n > 1 {
        lemma_scan_pick_bound(s, (n - 1) as nat);
    }
}

/// When the first `n` strides all lie less than 2^63 ahead of `base`, the
/// scan picks one that lies closest to `base`: a smallest stride.
pub proof fn law_scan_picks_smallest(s: Seq<u64>, n: nat, base: u64)
    requires
        1 <= n <= s.len(),
        forall|i: int| 0 <= i < n ==> stride_gap(base, #[trigger] s[i]) < 0x8000_0000_0000_0000,
    ensures
        forall|i: int| 0 <= i < n ==> stride_gap(base, s[scan_pick(s, n)]) <= stride_gap(base, #[trigger] s[i]),
    decreases n,
{
    if n > 1 {
        law_scan_picks_smallest(s, (n - 1) as nat, base);
        lemma_scan_pick_bound(s, (n - 1) as nat);
        let b = scan_pick(s, (n - 1) as nat);
        law_stride_order_in_window(base, s[n - 1], s[b]);
    }
}

/// Strides of the ready tasks, in queue order.
pub open spec fn ready_strides(k: Kernel) -> Seq<u64> {
    k.ready_queue@.map_values(|p: usize| k.task(p).stride)
}

/// Every queued task exists, is not a zombie, and has a positive priority.
pub open spec fn queue_ok(k: Kernel) -> bool {
    forall|i: int| 0 <= i < k.ready_queue@.len() ==> {
        let p = #[trigger] k.ready_queue@[i];
        &&& k.has_pid(p)
        &&& k.task(p).status != TaskStatus::Zombie
        &&& k.task(p).priority > 0
    }
}

/// What picking the next task does to the kernel `old`, giving `new` and the
/// pick `r`: with an empty queue nothing changes and nothing is picked;
/// otherwise the task that a scan of the queue in stride order picks leaves
/// the queue, runs, and has its stride advanced by its pass (modulo 2^64).
pub open spec fn fetch_spec(old: Kernel, new: Kernel, r: Option<usize>) -> bool {
    if old.ready_queue@.len() == 0 {
        r is None && new == old
    } else {
        let m = scan_pick(ready_strides(old), old.ready_queue@.len());
        let p = old.ready_queue@[m];
        let t = old.task(p);
        &&& r == Some(p)
        &&& new.current == Some(p)
        &&& new.ready_queue@ == old.ready_queue@.remove(m)
        &&& new.mem == old.mem
        &&& new.next_pid == old.next_pid
        &&& new.tasks@.len() == old.tasks@.len()
        &&& forall|j: int| 0 <= j < old.tasks@.len() && j != old.index_of_pid(p) ==> #[trigger] new.tasks@[j] == old.tasks@[j]
        &&& same_task(new.tasks@[old.index_of_pid(p)], TaskControlBlock {
            status: TaskStatus::Running,
            stride: ((t.stride + pass_of(t.priority)) % 0x1_0000_0000_0000_0000) as u64,
            ..t
        })
    }
}

/// The task that `fetch_task` runs has a smallest stride among the ready
/// tasks, as long as their strides lie less than 2^63 ahead of a common
/// `base`.
pub proof fn law_fetch_picks_smallest_stride(old: Kernel, new: Kernel, r: Option<usize>, base: u64)
    requires
        old.ready_queue@.len() > 0,
        forall|i: int| 0 <= i < old.ready_queue@.len() ==> stride_gap(base, #[trigger] ready_strides(old)[i])
            < 0x8000_0000_0000_0000,
        fetch_spec(old, new, r),
    ensures
        r matches Some(p) && forall|i: int| 0 <= i < old.ready_queue@.len() ==> stride_gap(base, old.task(p).stride)
            <= stride_gap(base, #[trigger] ready_strides(old)[i]),
{
    let s = ready_strides(old);
    let n = old.ready_queue@.len();
    law_scan_picks_smallest(s, n, base);
    lemma_scan_pick_bound(s, n);
    let m = scan_pick(s, n);
    assert(s[m] == old.task(old.ready_queue@[m]).stride);
}

impl Kernel {
    /// Picks the next task to run from the ready queue by stride order and
    /// makes it the running task; `None` when no task is ready.
    pub fn fetch_task(&mut self) -> (r: Option<usize>)
        requires
            old(self).wf(),
            old(self).current is None,
            queue_ok(*old(self)),
        ensures
            children_unique(*old(self)) ==> children_unique(*final(self)),
            final(self).wf(),
            old(self).pages_in_areas() ==> final(self).pages_in_areas(),
            fetch_spec(*old(self), *final(self), r),
    {
        let n = self.ready_queue.len();
        if n == 0 {
            return None;
        }
        let ghost strides = ready_strides(*self);
        let first = self.ready_queue[0];
        let fi = match self.find_task(first) {
            Some(i) => i,
            None => { assert(false); 0 },
        };
        let mut best: usize = 0;
        let mut best_stride = self.tasks[fi].stride;
        let mut i: usize = 1;
        while i < n
            invariant
                n == self.ready_queue@.len(),
                self.wf(),
                queue_ok(*self),
                strides == ready_strides(*self),
                1 <= i <= n,
                best == scan_pick(strides, i as nat),
                best < n,
                best_stride == strides[best as int],
            decreases n - i,
        {
            let q = self.ready_queue[i];
            let qi = match self.find_task(q) {
                Some(j) => j,
                None => { assert(false); 0 },
            };
            let s = self.tasks[qi].stride;
            proof {
                assert(strides[i as int] == s);
            }
            if stride_lt(s, best_stride) {
                best = i;
                best_stride = s;
            }
            i = i + 1;
        }
        let pid = self.ready_queue.remove(best);
        let ti = match self.find_task(pid) {
            Some(j) => j,
            None => { assert(false); 0 },
        };
        let ghost o = *self;
        let mut t = self.tasks.remove(ti);
        let pass = BIG_STRIDE / t.priority;
        t.stride = t.stride.wrapping_add(pass);
        t.status = TaskStatus::Running;
        self.tasks.insert(ti, t);
        self.current = Some(pid);
        proof {
            assert(self.tasks@ == o.tasks@.update(ti as int, t));
            lemma_wf_after_fields_change(o, *self, ti as int);
            assert(o.tasks@[ti as int].pid == pid);
            o.lemma_index_of_pid(ti as int);
            self.lemma_index_of_pid(ti as int);
            if children_unique(o) {
                crate::process_tree::lemma_children_one_changed(o, *self, ti as int);
            }
        }
        Some(pid)
    }
}

/// One step of a task of priority `p` is the integer quotient of
/// `BIG_STRIDE` by `p`: the largest step that `p` steps keep within
/// `BIG_STRIDE`.
pub proof fn law_pass_is_quotient(p: u64)
    requires
        p >= 1,
    ensures
        pass_of(p) * p <= BIG_STRIDE,
        BIG_STRIDE < (pass_of(p) + 1) * p,
{
    let q = BIG_STRIDE as int / p as int;
    let m = BIG_STRIDE as int % p as int;
    vstd::arithmetic::div_mod::lemma_fundamental_div_mod(BIG_STRIDE as int, p as int);
    vstd::arithmetic::div_mod::lemma_mod_bound(BIG_STRIDE as int, p as int);
    vstd::arithmetic::div_mod::lemma_div_pos_is_pos(BIG_STRIDE as int, p as int);
    vstd::arithmetic::div_mod::lemma_div_is_ordered_by_denominator(BIG_STRIDE as int, 1, p as int);
    assert(pass_of(p) == q);
    assert(q * p <= BIG_STRIDE) by (nonlinear_arith)
        requires BIG_STRIDE as int == p * q + m, 0 <= m;
    assert(BIG_STRIDE < (q + 1) * p) by (nonlinear_arith)
        requires BIG_STRIDE as int == p * q + m, m < p;
}

/// The task that `fetch_task` runs has its stride advanced by the integer
/// quotient `BIG_STRIDE / priority` of its own priority, modulo 2^64.
pub proof fn law_fetch_advances_by_quotient(old: Kernel, new: Kernel, r: Option<usize>)
    requires
        old.ready_queue@.len() > 0,
        queue_ok(old),
        fetch_spec(old, new, r),
    ensures
        r matches Some(p) && {
            let t = old.task(p);
            let step = BIG_STRIDE as int / t.priority as int;
            &&& step * t.priority <= BIG_STRIDE < (step + 1) * t.priority
            &&& new.tasks@[old.index_of_pid(p)].stride == (t.stride as int + step) % 0x1_0000_0000_0000_0000
        },
{
    let s = ready_strides(old);
    let n = old.ready_queue@.len();
    lemma_scan_pick_bound(s, n);
    let m = scan_pick(s, n);
    let p = old.ready_queue@[m];
    assert(old.task(p).priority > 0);
    law_pass_is_quotient(old.task(p).priority);
}

} // verus!
