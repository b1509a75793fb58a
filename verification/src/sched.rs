//! Stride scheduling over the ready set.
//!
//! Every ready task carries a virtual-time counter (`stride`) that wraps
//! modulo 2^64. Selection picks the task whose counter is smallest in the
//! wrapped order: `a` comes before `b` when the wrapped difference `a - b`,
//! read as a signed value, is negative. After selection the winner's counter
//! advances by `BIG_STRIDE / priority`, so a larger priority value means a
//! smaller pass and a larger share of the processor.

use vstd::prelude::*;
use crate::task::TaskControlBlock;
use crate::task::find_task;
use crate::task::has_pid;
use crate::task::lemma_task_idx_unique;
use crate::task::pids_unique;
use crate::task::task_of;

verus! {

/// The fixed pass numerator of the stride scheduler.
pub const BIG_STRIDE: u64 = 0x7fffffffffffffff;

/// Half of the wrap range: wrapped differences at or above it are negative
/// when read as signed values.
pub const STRIDE_SIGN_BIT: u64 = 0x8000000000000000;

/// `a - b` wrapped modulo 2^64.
pub open spec fn wsub(a: u64, b: u64) -> u64 {
    (((a as int) - (b as int)) % 0x10000000000000000) as u64
}

/// `a + b` wrapped modulo 2^64.
pub open spec fn wadd(a: u64, b: u64) -> u64 {
    (((a as int) + (b as int)) % 0x10000000000000000) as u64
}

/// `a` comes before `b` in the wrapped stride order: the wrapped difference
/// `a - b`, read as a signed value, is negative.
pub open spec fn stride_lt(a: u64, b: u64) -> bool {
    wsub(a, b) >= STRIDE_SIGN_BIT
}

/// Wrapping subtraction on `u64`.
pub fn wrapping_sub_u64(a: u64, b: u64) -> (r: u64)
    ensures
        r == wsub(a, b),
{
    if a >= b {
        a - b
    } else {
        a + (u64::MAX - b) + 1
    }
}

/// Wrapping addition on `u64`.
pub fn wrapping_add_u64(a: u64, b: u64) -> (r: u64)
    ensures
        r == wadd(a, b),
{
    if b <= u64::MAX - a {
        a + b
    } else {
        b - (u64::MAX - a) - 1
    }
}

/// The index the scheduler's scan settles on: starting from the first entry,
/// a later entry replaces the current winner exactly when its stride comes
/// before the winner's in the wrapped order.
pub open spec fn select_idx(s: Seq<u64>) -> int
    decreases s.len(),
{
    if s.len() <= 1 {
        0
    } else {
        let r = select_idx(s.drop_last());
        if stride_lt(s.last(), s[r]) {
            s.len() - 1
        } else {
            r
        }
    }
}

pub proof fn lemma_select_idx_bounds(s: Seq<u64>)
    requires
        s.len() > 0,
    ensures
        0 <= select_idx(s) < s.len(),
    decreases s.len(),
{
    if s.len() > 1 {
        lemma_select_idx_bounds(s.drop_last());
    }
}

/// All strides of `s` lie within half the wrap range above `base`.
/// The scheduler keeps strides that close together, because one pass is at
/// most `BIG_STRIDE`, which is below half the range.
pub open spec fn within_window(s: Seq<u64>, base: u64) -> bool {
    forall|i: int| 0 <= i < s.len() ==> #[trigger] wsub(s[i], base) < STRIDE_SIGN_BIT
}

/// Inside a half-range window the wrapped order is the order of the offsets
/// from the window base, so wraparound never misorders two candidates.
pub proof fn lemma_stride_lt_window(a: u64, b: u64, base: u64)
    requires
        wsub(a, base) < STRIDE_SIGN_BIT,
        wsub(b, base) < STRIDE_SIGN_BIT,
    ensures
        stride_lt(a, b) <==> wsub(a, base) < wsub(b, base),
{
    let m = 0x10000000000000000int;
    let x = wsub(a, base) as int;
    let y = wsub(b, base) as int;
    if a >= base {
        assert(x == a - base);
    } else {
        assert(x == a - base + m);
    }
    if b >= base {
        assert(y == b - base);
    } else {
        assert(y == b - base + m);
    }
    assert(a - b == x - y || a - b == x - y + m || a - b == x - y - m);
    if x >= y {
        assert(((x - y) % m) == x - y);
        assert(((x - y + m) % m) == x - y);
        assert(((x - y - m) % m) == x - y);
        assert(wsub(a, b) == x - y);
    } else {
        assert(((x - y) % m) == x - y + m);
        assert(((x - y + m) % m) == x - y + m);
        assert(((x - y - m) % m) == x - y + m);
        assert(wsub(a, b) == x - y + m);
    }
}

/// Fairness of the scan: as long as all candidates lie within one half-range
/// window, the entry the scan settles on comes no later than any other in the
/// wrapped stride order.
pub proof fn lemma_select_idx_min(s: Seq<u64>, base: u64)
    requires
        s.len() > 0,
        within_window(s, base),
    ensures
        forall|k: int| 0 <= k < s.len() ==> !stride_lt(#[trigger] s[k], s[select_idx(s)]),
    decreases s.len(),
{
    lemma_select_idx_bounds(s);
    let c = select_idx(s);
    if s.len() == 1 {
        assert(wsub(s[0], s[0]) == 0);
    } else {
        let d = s.drop_last();
        assert forall|i: int| 0 <= i < d.len() implies #[trigger] wsub(d[i], base)
            < STRIDE_SIGN_BIT by {
            assert(d[i] == s[i]);
        }
        lemma_select_idx_min(d, base);
        lemma_select_idx_bounds(d);
        let r = select_idx(d);
        assert(d[r] == s[r]);
        assert forall|k: int| 0 <= k < s.len() implies !stride_lt(#[trigger] s[k], s[c]) by {
            if k < s.len() - 1 {
                assert(d[k] == s[k]);
                assert(!stride_lt(d[k], d[r]));
                lemma_stride_lt_window(s[k], s[r], base);
                if stride_lt(s.last(), s[r]) {
                    lemma_stride_lt_window(s.last(), s[r], base);
                    lemma_stride_lt_window(s[k], s.last(), base);
                    assert(c == s.len() - 1);
                    assert(s[c] == s.last());
                } else {
                    assert(c == r);
                }
            } else {
                if stride_lt(s.last(), s[r]) {
                    assert(c == s.len() - 1);
                    assert(wsub(s[k], s[c]) == 0);
                } else {
                    assert(c == r);
                    assert(s[k] == s.last());
                }
            }
        }
    }
}

/// The strides of the tasks a queue of process ids refers to.
pub open spec fn queue_strides(q: Seq<usize>, tasks: Seq<TaskControlBlock>) -> Seq<u64> {
    Seq::new(q.len(), |i: int| task_of(tasks, q[i]).stride)
}

/// The stride of the task carrying this process id.
pub fn stride_of(tasks: &Vec<TaskControlBlock>, pid: usize) -> (r: u64)
    requires
        pids_unique(tasks@),
        has_pid(tasks@, pid),
    ensures
        r == task_of(tasks@, pid).stride,
{
    match find_task(tasks, pid) {
        Some(i) => {
            proof {
                lemma_task_idx_unique(tasks@, pid, i as int);
            }
            tasks[i].stride
        },
        None => {
            proof {
                assert(false);
            }
            0
        },
    }
}

/// The ready set: the process ids of the tasks that are ready to run.
pub struct TaskManager {
    pub ready_queue: Vec<usize>,
}

impl TaskManager {
    /// An empty ready set.
    pub fn new() -> (m: TaskManager)
        ensures
            m.ready_queue@ == Seq::<usize>::empty(),
    {
        TaskManager { ready_queue: Vec::new() }
    }

    /// Insert a process id into the ready set.
    pub fn add(&mut self, pid: usize)
        ensures
            final(self).ready_queue@ == old(self).ready_queue@.push(pid),
    {
        self.ready_queue.push(pid);
    }

    /// Remove and return the process id whose task the stride scan selects.
    /// The caller advances the winner's stride and transitions it to Running.
    pub fn fetch(&mut self, tasks: &Vec<TaskControlBlock>) -> (pid: usize)
        requires
            old(self).ready_queue@.len() > 0,
            pids_unique(tasks@),
            forall|k: int|
                0 <= k < old(self).ready_queue@.len() ==> has_pid(
                    tasks@,
                    #[trigger] old(self).ready_queue@[k],
                ),
        ensures
            ({
                let q = old(self).ready_queue@;
                let j = select_idx(queue_strides(q, tasks@));
                &&& 0 <= j < q.len()
                &&& pid == q[j]
                &&& final(self).ready_queue@ == q.remove(j)
            }),
    {
        let ghost q = self.ready_queue@;
        let ghost strides = queue_strides(q, tasks@);
        let mut best: usize = 0;
        let mut best_stride: u64 = stride_of(tasks, self.ready_queue[0]);
        let mut k: usize = 1;
        assert(best_stride == strides[0]);
        while k < self.ready_queue.len()
            invariant
                self.ready_queue@ == q,
                1 <= k <= q.len(),
                (best as int) < k,
                pids_unique(tasks@),
                forall|t: int| 0 <= t < q.len() ==> has_pid(tasks@, #[trigger] q[t]),
                strides == queue_strides(q, tasks@),
                best as int == select_idx(strides.take(k as int)),
                best_stride == strides[best as int],
            decreases q.len() - k,
        {
            let sk = stride_of(tasks, self.ready_queue[k]);
            assert(sk == strides[k as int]);
            let d = wrapping_sub_u64(sk, best_stride);
            proof {
                assert(strides.take(k + 1).drop_last() =~= strides.take(k as int));
                assert(strides.take(k + 1).last() == strides[k as int]);
            }
            if d >= STRIDE_SIGN_BIT {
                best = k;
                best_stride = sk;
            }
            k += 1;
        }
        proof {
            assert(strides.take(q.len() as int) =~= strides);
            lemma_select_idx_bounds(strides);
        }
        let pid = self.ready_queue[best];
        self.ready_queue.remove(best);
        pid
    }
}

} // verus!
