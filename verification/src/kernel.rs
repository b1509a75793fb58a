//! The kernel state and the syscall facade over it.
//!
//! All mutable kernel state lives in one `Kernel` value: the process table,
//! the ready set, the table of loadable program images, and the identity of
//! the running task. Trap handling on the single processor is strictly
//! sequential, so every operation here runs to completion (or fails cleanly
//! with no mutation) before any scheduling decision is taken; the owner of
//! the `Kernel` value is the exclusive-access guard.

use vstd::prelude::*;
use vstd::arithmetic::div_mod::lemma_div_is_ordered;
use crate::mem::AddressSpace;
use crate::mem::MAX_MMAP_LEN;
use crate::mem::PAGE_SIZE;
use crate::mem::PERM_U;
use crate::mem::drop_range;
use crate::mem::range_entries;
use crate::mem::range_free;
use crate::mem::range_mapped;
use crate::sched::BIG_STRIDE;
use crate::sched::queue_strides;
use crate::sched::select_idx;
use crate::sched::wadd;
use crate::task::TaskInfo;
use crate::task::TimeVal;
use crate::sched::TaskManager;
use crate::task::DEFAULT_PRIORITY;
use crate::task::MAX_SYSCALL_NUM;
use crate::task::TaskControlBlock;
use crate::task::TaskStatus;
use crate::task::TrapContext;
use crate::task::find_task;
use crate::task::has_pid;
use crate::task::lemma_task_idx;
use crate::task::lemma_task_idx_unique;
use crate::task::pids_unique;
use crate::task::task_idx;
use crate::task::task_of;

verus! {

/// A loadable program image: its name and where execution starts.
pub struct Image {
    pub name: Vec<u8>,
    pub entry: usize,
}

/// The process-management core: process table, ready set, image table, and
/// the identity of the running task.
pub struct Kernel {
    pub tasks: Vec<TaskControlBlock>,
    pub manager: TaskManager,
    pub images: Vec<Image>,
    /// Process id of the one Running task.
    pub current: usize,
    /// Process id of the root task; orphans are re-parented to it.
    pub root_pid: usize,
    /// Next process id to hand out; ids are never reused.
    pub next_pid: usize,
}

impl Kernel {
    /// The kernel bookkeeping invariant.
    pub open spec fn wf(self) -> bool {
        &&& pids_unique(self.tasks@)
        &&& forall|i: int|
            0 <= i < self.tasks@.len() ==> (#[trigger] self.tasks@[i]).pid < self.next_pid
        &&& self.next_pid <= (isize::MAX as usize)
        &&& has_pid(self.tasks@, self.current)
        &&& task_of(self.tasks@, self.current).status == TaskStatus::Running
        &&& forall|i: int|
            0 <= i < self.tasks@.len() && (#[trigger] self.tasks@[i]).status == TaskStatus::Running
                ==> self.tasks@[i].pid == self.current
        &&& forall|k: int|
            0 <= k < self.manager.ready_queue@.len() ==> has_pid(
                self.tasks@,
                #[trigger] self.manager.ready_queue@[k],
            ) && task_of(self.tasks@, self.manager.ready_queue@[k]).status == TaskStatus::Ready
        &&& forall|k1: int, k2: int|
            0 <= k1 < k2 < self.manager.ready_queue@.len() ==> self.manager.ready_queue@[k1]
                != self.manager.ready_queue@[k2]
        &&& forall|i: int|
            0 <= i < self.tasks@.len() && (#[trigger] self.tasks@[i]).status == TaskStatus::Ready
                ==> self.manager.ready_queue@.contains(self.tasks@[i].pid)
        &&& forall|i: int| 0 <= i < self.tasks@.len() ==> (#[trigger] self.tasks@[i]).wf()
        &&& has_pid(self.tasks@, self.root_pid)
        &&& forall|i: int, k: int|
            0 <= i < self.tasks@.len() && 0 <= k < self.tasks@[i].children@.len() ==> {
                &&& has_pid(self.tasks@, #[trigger] self.tasks@[i].children@[k])
                &&& task_of(self.tasks@, self.tasks@[i].children@[k]).parent == Some(
                    self.tasks@[i].pid,
                )
                &&& self.tasks@[i].children@[k] != self.root_pid
            }
    }

    /// The parts of the kernel that a per-task operation leaves untouched.
    pub open spec fn same_shell(self, other: Kernel) -> bool {
        &&& other.manager.ready_queue@ == self.manager.ready_queue@
        &&& other.images@ == self.images@
        &&& other.current == self.current
        &&& other.root_pid == self.root_pid
        &&& other.next_pid == self.next_pid
    }
}

/// The two tables list the same process ids, and every task but the named one
/// is unchanged.
pub open spec fn tasks_same_except(
    a: Seq<TaskControlBlock>,
    b: Seq<TaskControlBlock>,
    pid: usize,
) -> bool {
    &&& b.len() == a.len()
    &&& forall|p: usize| has_pid(a, p) == #[trigger] has_pid(b, p)
    &&& forall|p: usize| #[trigger] has_pid(a, p) && p != pid ==> task_of(b, p) == task_of(a, p)
}

/// The fields of a task that none of the per-task syscalls of the facade
/// touch: identity, life-cycle state, family links, control flow, scheduling
/// and accounting.
pub open spec fn same_task_core(a: TaskControlBlock, b: TaskControlBlock) -> bool {
    &&& b.pid == a.pid
    &&& b.status == a.status
    &&& b.parent == a.parent
    &&& b.children@ == a.children@
    &&& b.trap_cx == a.trap_cx
    &&& b.stride == a.stride
    &&& b.priority == a.priority
    &&& b.start_time_ms == a.start_time_ms
    &&& b.exit_code == a.exit_code
}

/// Replacing a task by one with the same process id keeps the id table
/// intact: presence, indexes and all other tasks are unchanged.
pub proof fn lemma_update_pid_preserved(s: Seq<TaskControlBlock>, i: int, t: TaskControlBlock)
    requires
        pids_unique(s),
        0 <= i < s.len(),
        t.pid == s[i].pid,
    ensures
        pids_unique(s.update(i, t)),
        forall|p: usize| has_pid(s, p) == #[trigger] has_pid(s.update(i, t), p),
        forall|p: usize| #[trigger] has_pid(s, p) ==> task_idx(s.update(i, t), p) == task_idx(s, p),
        forall|p: usize|
            #[trigger] has_pid(s, p) && p != t.pid ==> task_of(s.update(i, t), p) == task_of(s, p),
        task_of(s.update(i, t), t.pid) == t,
        tasks_same_except(s, s.update(i, t), t.pid),
{
    let u = s.update(i, t);
    assert forall|j: int| 0 <= j < s.len() implies u[j].pid == s[j].pid by {}
    assert forall|p: usize| has_pid(s, p) == #[trigger] has_pid(u, p) by {
        if has_pid(s, p) {
            let j = choose|j: int| 0 <= j < s.len() && s[j].pid == p;
            assert(u[j].pid == p);
            assert(has_pid(u, p));
        }
        if has_pid(u, p) {
            let j = choose|j: int| 0 <= j < u.len() && u[j].pid == p;
            assert(s[j].pid == p);
            assert(has_pid(s, p));
        }
    }
    assert forall|p: usize| #[trigger] has_pid(s, p) implies task_idx(u, p) == task_idx(s, p)
        && (p != t.pid ==> task_of(u, p) == task_of(s, p)) by {
        lemma_task_idx(s, p);
        let j = task_idx(s, p);
        assert(u[j].pid == p);
        lemma_task_idx_unique(u, p, j);
        if p != t.pid {
            assert(j != i);
        }
    }
    assert(has_pid(s, t.pid));
    lemma_task_idx(s, t.pid);
    lemma_task_idx_unique(s, t.pid, i);
}

/// Appending a task with a fresh process id keeps the id table intact and
/// adds exactly the new id.
pub proof fn lemma_push_pid(s: Seq<TaskControlBlock>, t: TaskControlBlock)
    requires
        pids_unique(s),
        !has_pid(s, t.pid),
    ensures
        pids_unique(s.push(t)),
        forall|p: usize|
            #[trigger] has_pid(s.push(t), p) == (has_pid(s, p) || p == t.pid),
        forall|p: usize|
            #[trigger] has_pid(s, p) ==> task_idx(s.push(t), p) == task_idx(s, p) && task_of(
                s.push(t),
                p,
            ) == task_of(s, p),
        task_idx(s.push(t), t.pid) == s.len(),
        task_of(s.push(t), t.pid) == t,
{
    let u = s.push(t);
    assert forall|j: int| 0 <= j < s.len() implies u[j] == s[j] by {}
    assert(u[s.len() as int] == t);
    assert forall|a: int, b: int| 0 <= a < b < u.len() implies u[a].pid != u[b].pid by {
        if b < s.len() {
        } else {
            if u[a].pid == t.pid {
                assert(s[a].pid == t.pid);
                assert(has_pid(s, t.pid));
            }
        }
    }
    assert forall|p: usize| #[trigger] has_pid(s.push(t), p) == (has_pid(s, p) || p
        == t.pid) by {
        if has_pid(s, p) {
            let j = choose|j: int| 0 <= j < s.len() && s[j].pid == p;
            assert(u[j].pid == p);
            assert(has_pid(u, p));
        }
        if p == t.pid {
            assert(u[s.len() as int].pid == p);
            assert(has_pid(u, p));
        }
        if has_pid(u, p) {
            let j = choose|j: int| 0 <= j < u.len() && u[j].pid == p;
            if j < s.len() {
                assert(s[j].pid == p);
                assert(has_pid(s, p));
            }
        }
    }
    assert forall|p: usize| #[trigger] has_pid(s, p) implies task_idx(u, p) == task_idx(s, p)
        && task_of(u, p) == task_of(s, p) by {
        lemma_task_idx(s, p);
        let j = task_idx(s, p);
        assert(u[j].pid == p);
        lemma_task_idx_unique(u, p, j);
    }
    lemma_task_idx_unique(u, t.pid, s.len() as int);
}

/// Removing one task keeps the rest of the id table intact: the removed id
/// is gone, every other id keeps its task.
pub proof fn lemma_remove_pid(s: Seq<TaskControlBlock>, i: int)
    requires
        pids_unique(s),
        0 <= i < s.len(),
    ensures
        pids_unique(s.remove(i)),
        !has_pid(s.remove(i), s[i].pid),
        forall|p: usize|
            p != s[i].pid ==> #[trigger] has_pid(s.remove(i), p) == has_pid(s, p),
        forall|p: usize|
            #[trigger] has_pid(s, p) && p != s[i].pid ==> task_of(s.remove(i), p) == task_of(s, p),
{
    let u = s.remove(i);
    assert forall|j: int| 0 <= j < u.len() implies u[j] == (if j < i {
        s[j]
    } else {
        s[j + 1]
    }) by {}
    assert forall|a: int, b: int| 0 <= a < b < u.len() implies u[a].pid != u[b].pid by {
        let a2: int = if a < i { a } else { a + 1 };
        let b2: int = if b < i { b } else { b + 1 };
        assert(u[a] == s[a2]);
        assert(u[b] == s[b2]);
        assert(s[a2].pid != s[b2].pid);
    }
    if has_pid(u, s[i].pid) {
        let j = choose|j: int| 0 <= j < u.len() && u[j].pid == s[i].pid;
        let j2: int = if j < i { j } else { j + 1 };
        assert(s[j2].pid == s[i].pid);
        if j2 < i {
            assert(s[j2].pid != s[i].pid);
        } else {
            assert(s[i].pid != s[j2].pid);
        }
        assert(false);
    }
    assert forall|p: usize| p != s[i].pid implies #[trigger] has_pid(u, p) == has_pid(s, p) by {
        if has_pid(u, p) {
            let j = choose|j: int| 0 <= j < u.len() && u[j].pid == p;
            let j2: int = if j < i { j } else { j + 1 };
            assert(s[j2].pid == p);
            assert(has_pid(s, p));
        }
        if has_pid(s, p) {
            let j = choose|j: int| 0 <= j < s.len() && s[j].pid == p;
            assert(j != i);
            if j < i {
                assert(u[j].pid == p);
            } else {
                assert(u[j - 1].pid == p);
            }
            assert(has_pid(u, p));
        }
    }
    assert forall|p: usize| #[trigger] has_pid(s, p) && p != s[i].pid implies task_of(u, p)
        == task_of(s, p) by {
        lemma_task_idx(s, p);
        let j = task_idx(s, p);
        assert(j != i);
        if j < i {
            assert(u[j].pid == p);
            lemma_task_idx_unique(u, p, j);
        } else {
            assert(u[j - 1].pid == p);
            lemma_task_idx_unique(u, p, j - 1);
        }
    }
}

/// Replacing the running task by a well-formed task that keeps its identity,
/// status and family links keeps the whole kernel invariant.
pub proof fn lemma_wf_update_current(k0: Kernel, k1: Kernel, t_new: TaskControlBlock)
    requires
        k0.wf(),
        k1.tasks@ == k0.tasks@.update(task_idx(k0.tasks@, k0.current), t_new),
        t_new.pid == k0.current,
        t_new.status == task_of(k0.tasks@, k0.current).status,
        t_new.parent == task_of(k0.tasks@, k0.current).parent,
        t_new.children@ == task_of(k0.tasks@, k0.current).children@,
        t_new.wf(),
        k1.manager.ready_queue@ == k0.manager.ready_queue@,
        k1.current == k0.current,
        k1.root_pid == k0.root_pid,
        k1.next_pid == k0.next_pid,
    ensures
        k1.wf(),
        tasks_same_except(k0.tasks@, k1.tasks@, k0.current),
        task_of(k1.tasks@, k0.current) == t_new,
{
    let s = k0.tasks@;
    let cur = k0.current;
    lemma_task_idx(s, cur);
    let ci = task_idx(s, cur);
    lemma_update_pid_preserved(s, ci, t_new);
    assert forall|j: int|
        0 <= j < k1.tasks@.len() implies (#[trigger] k1.tasks@[j]).pid == s[j].pid
        && k1.tasks@[j].status == s[j].status && k1.tasks@[j].children@ == s[j].children@
        && k1.tasks@[j].parent == s[j].parent by {}
    assert forall|j: int| 0 <= j < k1.tasks@.len() implies (#[trigger] k1.tasks@[j]).wf() by {
        assert(s[j].wf());
    }
    lemma_task_idx(k1.tasks@, cur);
    assert forall|k: int|
        0 <= k < k1.manager.ready_queue@.len() implies has_pid(
        k1.tasks@,
        #[trigger] k1.manager.ready_queue@[k],
    ) && task_of(k1.tasks@, k1.manager.ready_queue@[k]).status == TaskStatus::Ready by {
        let p = k0.manager.ready_queue@[k];
        assert(has_pid(s, p));
        lemma_task_idx(s, p);
        lemma_task_idx(k1.tasks@, p);
    }
    lemma_task_idx(k1.tasks@, k1.root_pid);
    assert forall|ii: int, k: int|
        0 <= ii < k1.tasks@.len() && 0 <= k < k1.tasks@[ii].children@.len() implies {
        &&& has_pid(k1.tasks@, #[trigger] k1.tasks@[ii].children@[k])
        &&& task_of(k1.tasks@, k1.tasks@[ii].children@[k]).parent == Some(k1.tasks@[ii].pid)
        &&& k1.tasks@[ii].children@[k] != k1.root_pid
    } by {
        let c = k1.tasks@[ii].children@[k];
        assert(k1.tasks@[ii].children@ == s[ii].children@);
        assert(has_pid(s, c));
        lemma_task_idx(s, c);
        lemma_task_idx(k1.tasks@, c);
    }
}

/// A zeroed per-syscall invocation counter table.
fn new_counter_table() -> (v: Vec<u32>)
    ensures
        v@.len() == MAX_SYSCALL_NUM,
        forall|i: int| 0 <= i < v@.len() ==> v@[i] == 0u32,
{
    let mut v: Vec<u32> = Vec::new();
    let mut i: usize = 0;
    while i < MAX_SYSCALL_NUM
        invariant
            i <= MAX_SYSCALL_NUM,
            v@.len() == i,
            forall|k: int| 0 <= k < v@.len() ==> v@[k] == 0u32,
        decreases MAX_SYSCALL_NUM - i,
    {
        v.push(0);
        i += 1;
    }
    v
}

impl Kernel {
    /// A kernel holding only the root task, which is running. No task ran
    /// before initialization, and the kernel never shuts down.
    pub fn new() -> (k: Kernel)
        ensures
            k.wf(),
            k.tasks@.len() == 1,
            k.current == 0,
            k.root_pid == 0,
            k.next_pid == 1,
            k.tasks@[0].pid == 0,
            k.tasks@[0].status == TaskStatus::Running,
            k.tasks@[0].stride == 0,
            k.tasks@[0].priority == DEFAULT_PRIORITY,
            k.tasks@[0].children@.len() == 0,
            k.manager.ready_queue@.len() == 0,
            k.images@.len() == 0,
    {
        let root = TaskControlBlock {
            pid: 0,
            status: TaskStatus::Running,
            parent: None,
            children: Vec::new(),
            space: AddressSpace::new_empty(0),
            trap_cx: TrapContext { entry: 0, sp: 0, a0: 0 },
            stride: 0,
            priority: DEFAULT_PRIORITY,
            syscall_times: new_counter_table(),
            start_time_ms: 0,
            exit_code: 0,
        };
        let mut tasks: Vec<TaskControlBlock> = Vec::new();
        tasks.push(root);
        let k = Kernel {
            tasks,
            manager: TaskManager::new(),
            images: Vec::new(),
            current: 0,
            root_pid: 0,
            next_pid: 1,
        };
        proof {
            assert(k.tasks@[0].pid == 0);
            assert(has_pid(k.tasks@, 0));
            lemma_task_idx_unique(k.tasks@, 0, 0);
        }
        k
    }

    /// Make a program image available to exec and spawn.
    pub fn register_image(&mut self, name: Vec<u8>, entry: usize)
        requires
            old(self).wf(),
        ensures
            final(self).wf(),
            final(self).images@.len() == old(self).images@.len() + 1,
            final(self).images@.last().name@ == name@,
            final(self).images@.last().entry == entry,
            forall|i: int|
                0 <= i < old(self).images@.len() ==> final(self).images@[i] == old(self).images@[i],
            final(self).tasks@ == old(self).tasks@,
            final(self).manager.ready_queue@ == old(self).manager.ready_queue@,
            final(self).current == old(self).current,
            final(self).root_pid == old(self).root_pid,
            final(self).next_pid == old(self).next_pid,
    {
        self.images.push(Image { name, entry });
    }

    /// Index of the running task in the process table.
    fn current_index(&self) -> (i: usize)
        requires
            self.wf(),
        ensures
            i < self.tasks@.len(),
            self.tasks@[i as int].pid == self.current,
            i as int == task_idx(self.tasks@, self.current),
            self.tasks@[i as int] == task_of(self.tasks@, self.current),
    {
        match find_task(&self.tasks, self.current) {
            Some(i) => {
                proof {
                    lemma_task_idx_unique(self.tasks@, self.current, i as int);
                }
                i
            },
            None => {
                proof {
                    assert(false);
                }
                0
            },
        }
    }

    /// The process id of the running task.
    pub fn sys_getpid(&self) -> (r: isize)
        requires
            self.wf(),
        ensures
            r == self.current as isize,
            r >= 0,
            r as usize == self.current,
    {
        proof {
            lemma_task_idx(self.tasks@, self.current);
            assert(task_of(self.tasks@, self.current).pid < self.next_pid);
        }
        self.current as isize
    }

    /// Set the running task's scheduling priority. Values below 2 are
    /// rejected with no mutation, because they would give a zero or unbounded
    /// pass size and break the fairness guarantee.
    pub fn sys_set_priority(&mut self, prio: isize) -> (r: isize)
        requires
            old(self).wf(),
        ensures
            final(self).wf(),
            prio < 2 ==> r == -1 && *final(self) == *old(self),
            prio >= 2 ==> {
                &&& r == prio
                &&& old(self).same_shell(*final(self))
                &&& tasks_same_except(old(self).tasks@, final(self).tasks@, old(self).current)
                &&& task_of(final(self).tasks@, old(self).current) == TaskControlBlock {
                    priority: prio as u64,
                    ..task_of(old(self).tasks@, old(self).current)
                }
            },
    {
        if prio < 2 {
            return -1;
        }
        let i = self.current_index();
        let ghost s = self.tasks@;
        let ghost t_new = TaskControlBlock {
            priority: prio as u64,
            ..task_of(s, self.current)
        };
        self.tasks[i].priority = prio as u64;
        proof {
            lemma_task_idx(s, self.current);
            assert(self.tasks@ =~= s.update(i as int, t_new));
            lemma_wf_update_current(*old(self), *self, t_new);
        }
        prio
    }
}

/// First virtual page of the range starting at `start`.
pub open spec fn vpn_lo(start: usize) -> usize {
    start / PAGE_SIZE
}

/// First virtual page past the range ending at `end`.
pub open spec fn vpn_hi(end: usize) -> usize {
    if end % PAGE_SIZE == 0 {
        end / PAGE_SIZE
    } else {
        ((end / PAGE_SIZE) + 1) as usize
    }
}

/// The argument-validation rules of mmap: only the three low permission bits
/// may be set ("dirty bits" above them are rejected), at least one of them
/// must be set (a mapping with no access is meaningless), the start must be
/// page aligned, and a non-zero length must fit under the ceiling and not
/// wrap the address space.
pub open spec fn mmap_args_ok(start: usize, len: usize, port: usize) -> bool {
    &&& port & (!0x7usize) == 0
    &&& port & 0x7usize != 0
    &&& start % PAGE_SIZE == 0
    &&& (len == 0 || (len <= MAX_MMAP_LEN && start + len <= usize::MAX))
}

/// The argument-validation rules of munmap: page-aligned start, and a range
/// that does not wrap the address space.
pub open spec fn munmap_args_ok(start: usize, len: usize) -> bool {
    &&& start % PAGE_SIZE == 0
    &&& (len == 0 || start + len <= usize::MAX)
}

/// The permission bits a mmap `port` maps with: its three low bits plus the
/// user bit, which is always included.
pub open spec fn perm_of_port(port: usize) -> u8 {
    ((port & 0x7usize) as u8) | PERM_U
}

impl Kernel {
    /// Map `[start, start + len)` into the running task's address space with
    /// the permissions encoded in `port`. Validation is a separate pass from
    /// mutation: if any page of the range is already mapped, or any argument
    /// is rejected, nothing changes.
    pub fn sys_mmap(&mut self, start: usize, len: usize, port: usize) -> (r: isize)
        requires
            old(self).wf(),
        ensures
            final(self).wf(),
            r == 0 || r == -1,
            ({
                let t_old = task_of(old(self).tasks@, old(self).current);
                let lo = vpn_lo(start);
                let hi = vpn_hi((start + len) as usize);
                &&& (r == 0) <==> (mmap_args_ok(start, len, port) && (len == 0 || range_free(
                    t_old.space.pages@,
                    lo,
                    hi,
                )))
                &&& (r == -1 ==> *final(self) == *old(self))
                &&& (r == 0 && len == 0 ==> *final(self) == *old(self))
                &&& (r == 0 && len > 0 ==> {
                    let t_new = task_of(final(self).tasks@, old(self).current);
                    &&& old(self).same_shell(*final(self))
                    &&& tasks_same_except(old(self).tasks@, final(self).tasks@, old(self).current)
                    &&& same_task_core(t_old, t_new)
                    &&& t_new.syscall_times@ == t_old.syscall_times@
                    &&& t_new.space.pages@ == t_old.space.pages@ + range_entries(
                        lo,
                        hi,
                        perm_of_port(port),
                    )
                    &&& t_new.space.heap_base == t_old.space.heap_base
                    &&& t_new.space.brk == t_old.space.brk
                })
            }),
    {
        proof {
            lemma_task_idx(old(self).tasks@, old(self).current);
        }
        if port & (!0x7usize) != 0 {
            return -1;
        }
        if port & 0x7usize == 0 {
            return -1;
        }
        if start % PAGE_SIZE != 0 {
            return -1;
        }
        if len == 0 {
            return 0;
        }
        if len > MAX_MMAP_LEN {
            return -1;
        }
        if start > usize::MAX - len {
            return -1;
        }
        let end = start + len;
        let lo = start / PAGE_SIZE;
        proof {
            lemma_div_is_ordered(start as int, end as int, PAGE_SIZE as int);
            lemma_div_is_ordered(end as int, usize::MAX as int, PAGE_SIZE as int);
        }
        let hi = end / PAGE_SIZE + (if end % PAGE_SIZE != 0 {
            1
        } else {
            0
        });
        let i = self.current_index();
        if !self.tasks[i].space.range_is_free(lo, hi) {
            return -1;
        }
        let perm = ((port & 0x7usize) as u8) | PERM_U;
        let ghost s = self.tasks@;
        self.tasks[i].space.map_range(lo, hi, perm);
        proof {
            let ghost t_new = self.tasks@[i as int];
            assert(self.tasks@ =~= s.update(i as int, t_new));
            lemma_wf_update_current(*old(self), *self, t_new);
        }
        0
    }

    /// Unmap `[start, start + len)` from the running task's address space.
    /// Every page of the range must currently be mapped; otherwise nothing
    /// changes (no partial unmapping).
    pub fn sys_munmap(&mut self, start: usize, len: usize) -> (r: isize)
        requires
            old(self).wf(),
        ensures
            final(self).wf(),
            r == 0 || r == -1,
            ({
                let t_old = task_of(old(self).tasks@, old(self).current);
                let lo = vpn_lo(start);
                let hi = vpn_hi((start + len) as usize);
                &&& (r == 0) <==> (munmap_args_ok(start, len) && (len == 0 || range_mapped(
                    t_old.space.pages@,
                    lo,
                    hi,
                )))
                &&& (r == -1 ==> *final(self) == *old(self))
                &&& (r == 0 && len == 0 ==> *final(self) == *old(self))
                &&& (r == 0 && len > 0 ==> {
                    let t_new = task_of(final(self).tasks@, old(self).current);
                    &&& old(self).same_shell(*final(self))
                    &&& tasks_same_except(old(self).tasks@, final(self).tasks@, old(self).current)
                    &&& same_task_core(t_old, t_new)
                    &&& t_new.syscall_times@ == t_old.syscall_times@
                    &&& t_new.space.pages@ == drop_range(t_old.space.pages@, lo, hi)
                    &&& t_new.space.heap_base == t_old.space.heap_base
                    &&& t_new.space.brk == t_old.space.brk
                })
            }),
    {
        proof {
            lemma_task_idx(old(self).tasks@, old(self).current);
        }
        if start % PAGE_SIZE != 0 {
            return -1;
        }
        if len == 0 {
            return 0;
        }
        if start > usize::MAX - len {
            return -1;
        }
        let end = start + len;
        let lo = start / PAGE_SIZE;
        proof {
            lemma_div_is_ordered(start as int, end as int, PAGE_SIZE as int);
            lemma_div_is_ordered(end as int, usize::MAX as int, PAGE_SIZE as int);
        }
        let hi = end / PAGE_SIZE + (if end % PAGE_SIZE != 0 {
            1
        } else {
            0
        });
        let i = self.current_index();
        if !self.tasks[i].space.range_is_mapped(lo, hi) {
            return -1;
        }
        let ghost s = self.tasks@;
        self.tasks[i].space.unmap_range(lo, hi);
        proof {
            let ghost t_new = self.tasks@[i as int];
            assert(self.tasks@ =~= s.update(i as int, t_new));
            lemma_wf_update_current(*old(self), *self, t_new);
        }
        0
    }

    /// Move the running task's program break by the signed `size`. Returns
    /// the previous break on success; fails, with no mutation, if the result
    /// would fall below the heap base or leave the address range.
    pub fn sys_sbrk(&mut self, size: i32) -> (r: isize)
        requires
            old(self).wf(),
        ensures
            final(self).wf(),
            ({
                let t_old = task_of(old(self).tasks@, old(self).current);
                let nb = t_old.space.brk + size as int;
                let ok = t_old.space.heap_base <= nb <= usize::MAX;
                &&& (!ok ==> r == -1 && *final(self) == *old(self))
                &&& (ok ==> {
                    let t_new = task_of(final(self).tasks@, old(self).current);
                    &&& r == t_old.space.brk as isize
                    &&& old(self).same_shell(*final(self))
                    &&& tasks_same_except(old(self).tasks@, final(self).tasks@, old(self).current)
                    &&& same_task_core(t_old, t_new)
                    &&& t_new.syscall_times@ == t_old.syscall_times@
                    &&& t_new.space.pages@ == t_old.space.pages@
                    &&& t_new.space.heap_base == t_old.space.heap_base
                    &&& t_new.space.brk == nb
                })
            }),
    {
        proof {
            lemma_task_idx(old(self).tasks@, old(self).current);
        }
        let i = self.current_index();
        let old_brk = self.tasks[i].space.brk;
        let heap_base = self.tasks[i].space.heap_base;
        let ghost s = self.tasks@;
        if size >= 0 {
            let d = size as usize;
            if old_brk > usize::MAX - d {
                return -1;
            }
            self.tasks[i].space.brk = old_brk + d;
        } else {
            let d = (-(size as i64)) as usize;
            if old_brk < d {
                return -1;
            }
            if old_brk - d < heap_base {
                return -1;
            }
            self.tasks[i].space.brk = old_brk - d;
        }
        proof {
            let ghost t_new = self.tasks@[i as int];
            assert(self.tasks@ =~= s.update(i as int, t_new));
            lemma_wf_update_current(*old(self), *self, t_new);
        }
        old_brk as isize
    }

    /// Report the running task's status, per-syscall invocation counts, and
    /// elapsed running time (`now_ms` minus its start timestamp), as the
    /// monotonic clock collaborator hands `now_ms` in.
    pub fn sys_task_info(&self, ti: &mut TaskInfo, now_ms: usize) -> (r: isize)
        requires
            self.wf(),
            now_ms >= task_of(self.tasks@, self.current).start_time_ms,
        ensures
            r == 0,
            final(ti).status == task_of(self.tasks@, self.current).status,
            final(ti).status == TaskStatus::Running,
            final(ti).syscall_times@ == task_of(self.tasks@, self.current).syscall_times@,
            final(ti).time == now_ms - task_of(self.tasks@, self.current).start_time_ms,
    {
        let i = self.current_index();
        ti.status = self.tasks[i].status;
        ti.syscall_times = clone_counters(&self.tasks[i].syscall_times);
        ti.time = now_ms - self.tasks[i].start_time_ms;
        0
    }

    /// Count one invocation of the given syscall number against the running
    /// task; the counter saturates instead of wrapping.
    pub fn record_syscall(&mut self, syscall_id: usize)
        requires
            old(self).wf(),
            syscall_id < MAX_SYSCALL_NUM,
        ensures
            final(self).wf(),
            old(self).same_shell(*final(self)),
            tasks_same_except(old(self).tasks@, final(self).tasks@, old(self).current),
            ({
                let t_old = task_of(old(self).tasks@, old(self).current);
                let t_new = task_of(final(self).tasks@, old(self).current);
                let c_old = t_old.syscall_times@[syscall_id as int];
                &&& same_task_core(t_old, t_new)
                &&& t_new.space.pages@ == t_old.space.pages@
                &&& t_new.space.heap_base == t_old.space.heap_base
                &&& t_new.space.brk == t_old.space.brk
                &&& t_new.syscall_times@ == t_old.syscall_times@.update(
                    syscall_id as int,
                    (if c_old == u32::MAX {
                        c_old
                    } else {
                        (c_old + 1) as u32
                    }),
                )
            }),
    {
        proof {
            lemma_task_idx(old(self).tasks@, old(self).current);
        }
        let i = self.current_index();
        let ghost s = self.tasks@;
        let c = self.tasks[i].syscall_times[syscall_id];
        if c < u32::MAX {
            self.tasks[i].syscall_times[syscall_id] = c + 1;
        }
        proof {
            let ghost t_new = self.tasks@[i as int];
            assert(self.tasks@ =~= s.update(i as int, t_new));
            if c == u32::MAX {
                assert(t_new.syscall_times@ =~= s[i as int].syscall_times@.update(
                    syscall_id as int,
                    c,
                ));
            }
            lemma_wf_update_current(*old(self), *self, t_new);
        }
    }
}

/// Split a microsecond count into whole seconds and the microsecond
/// remainder, as the clock collaborator hands `us` in; written into the
/// caller's `TimeVal` the way the cross-page-safe copy would deliver it.
pub fn sys_get_time(ts: &mut TimeVal, us: usize, _tz: usize) -> (r: isize)
    ensures
        r == 0,
        final(ts).sec == us / 1000000,
        final(ts).usec == us % 1000000,
{
    ts.sec = us / 1000000;
    ts.usec = us % 1000000;
    0
}

/// The two tables list the same process ids, and every task but the two
/// named ones is unchanged.
pub open spec fn tasks_same_except2(
    a: Seq<TaskControlBlock>,
    b: Seq<TaskControlBlock>,
    pid1: usize,
    pid2: usize,
) -> bool {
    &&& b.len() == a.len()
    &&& forall|p: usize| has_pid(a, p) == #[trigger] has_pid(b, p)
    &&& forall|p: usize|
        #[trigger] has_pid(a, p) && p != pid1 && p != pid2 ==> task_of(b, p) == task_of(a, p)
}

/// Removing one entry of a duplicate-free queue removes exactly that value.
pub proof fn lemma_queue_remove(q: Seq<usize>, j: int)
    requires
        0 <= j < q.len(),
        forall|a: int, b: int| 0 <= a < b < q.len() ==> q[a] != q[b],
    ensures
        forall|a: int, b: int| 0 <= a < b < q.remove(j).len() ==> q.remove(j)[a] != q.remove(j)[b],
        forall|x: usize| #[trigger] q.remove(j).contains(x) <==> (q.contains(x) && x != q[j]),
{
    let u = q.remove(j);
    assert forall|a: int| 0 <= a < u.len() implies u[a] == (if a < j {
        q[a]
    } else {
        q[a + 1]
    }) by {}
    assert forall|a: int, b: int| 0 <= a < b < u.len() implies u[a] != u[b] by {
        let a2: int = if a < j { a } else { a + 1 };
        let b2: int = if b < j { b } else { b + 1 };
        assert(u[a] == q[a2]);
        assert(u[b] == q[b2]);
    }
    assert forall|x: usize| #[trigger] u.contains(x) <==> (q.contains(x) && x != q[j]) by {
        if u.contains(x) {
            let a = choose|a: int| 0 <= a < u.len() && u[a] == x;
            let a2: int = if a < j { a } else { a + 1 };
            assert(q[a2] == x);
            assert(q.contains(x));
            if a2 < j {
                assert(q[a2] != q[j]);
            } else {
                assert(q[j] != q[a2]);
            }
        }
        if q.contains(x) && x != q[j] {
            let a = choose|a: int| 0 <= a < q.len() && q[a] == x;
            assert(a != j);
            if a < j {
                assert(u[a] == x);
            } else {
                assert(u[a - 1] == x);
            }
            assert(u.contains(x));
        }
    }
}

impl Kernel {
    /// Insert a Ready task into the ready set.
    pub fn add_task(&mut self, pid: usize)
        requires
            old(self).wf(),
            has_pid(old(self).tasks@, pid),
            task_of(old(self).tasks@, pid).status == TaskStatus::Ready,
            !old(self).manager.ready_queue@.contains(pid),
        ensures
            final(self).wf(),
            final(self).manager.ready_queue@ == old(self).manager.ready_queue@.push(pid),
            final(self).tasks@ == old(self).tasks@,
            final(self).images@ == old(self).images@,
            final(self).current == old(self).current,
            final(self).root_pid == old(self).root_pid,
            final(self).next_pid == old(self).next_pid,
    {
        self.manager.add(pid);
        proof {
            let q = old(self).manager.ready_queue@;
            let q1 = self.manager.ready_queue@;
            assert forall|i: int|
                0 <= i < self.tasks@.len() && (#[trigger] self.tasks@[i]).status
                == TaskStatus::Ready implies q1.contains(self.tasks@[i].pid) by {
                if q.contains(self.tasks@[i].pid) {
                    let k = choose|k: int| 0 <= k < q.len() && q[k] == self.tasks@[i].pid;
                    assert(q1[k] == self.tasks@[i].pid);
                } else {
                    lemma_task_idx_unique(self.tasks@, pid, i);
                    assert(q1[q.len() as int] == self.tasks@[i].pid);
                }
            }
            assert forall|k1: int, k2: int|
                0 <= k1 < k2 < q1.len() implies q1[k1] != q1[k2] by {
                if k2 == q.len() {
                    if q1[k1] == pid {
                        assert(q.contains(pid));
                    }
                }
            }
        }
    }

    /// Remove and return the task the stride scan selects from the ready
    /// set, advancing its stride by one pass, `BIG_STRIDE / priority`. The
    /// caller transitions the winner to Running before resuming it. An empty
    /// ready set would be a fatal kernel condition ("no runnable task"), so
    /// the set must not be empty.
    pub fn fetch_task(&mut self) -> (pid: usize)
        requires
            pids_unique(old(self).tasks@),
            old(self).manager.ready_queue@.len() > 0,
            forall|k: int|
                0 <= k < old(self).manager.ready_queue@.len() ==> has_pid(
                    old(self).tasks@,
                    #[trigger] old(self).manager.ready_queue@[k],
                ),
            forall|k: int|
                0 <= k < old(self).manager.ready_queue@.len() ==> task_of(
                    old(self).tasks@,
                    #[trigger] old(self).manager.ready_queue@[k],
                ).priority >= 2,
        ensures
            ({
                let q = old(self).manager.ready_queue@;
                let s = old(self).tasks@;
                let j = select_idx(queue_strides(q, s));
                let t_old = task_of(s, q[j]);
                &&& 0 <= j < q.len()
                &&& pid == q[j]
                &&& final(self).manager.ready_queue@ == q.remove(j)
                &&& pids_unique(final(self).tasks@)
                &&& tasks_same_except(s, final(self).tasks@, pid)
                &&& task_of(final(self).tasks@, pid) == TaskControlBlock {
                    stride: wadd(t_old.stride, BIG_STRIDE / t_old.priority),
                    ..t_old
                }
                &&& final(self).images@ == old(self).images@
                &&& final(self).current == old(self).current
                &&& final(self).root_pid == old(self).root_pid
                &&& final(self).next_pid == old(self).next_pid
            }),
    {
        let ghost q = self.manager.ready_queue@;
        let ghost s = self.tasks@;
        let pid = self.manager.fetch(&self.tasks);
        proof {
            let j = select_idx(queue_strides(q, s));
            assert(pid == q[j]);
            assert(has_pid(s, pid));
        }
        let i = match find_task(&self.tasks, pid) {
            Some(i) => i,
            None => {
                proof {
                    assert(false);
                }
                0
            },
        };
        proof {
            lemma_task_idx_unique(s, pid, i as int);
        }
        let prio = self.tasks[i].priority;
        let pass = BIG_STRIDE / prio;
        let ns = crate::sched::wrapping_add_u64(self.tasks[i].stride, pass);
        self.tasks[i].stride = ns;
        proof {
            let t_new = self.tasks@[i as int];
            assert(self.tasks@ =~= s.update(i as int, t_new));
            lemma_update_pid_preserved(s, i as int, t_new);
        }
        pid
    }

    /// The running task gives up the processor: it becomes Ready, rejoins
    /// the ready set, and the stride scan picks the next task to run (which
    /// may be the same task again).
    pub fn sys_yield(&mut self) -> (r: isize)
        requires
            old(self).wf(),
        ensures
            final(self).wf(),
            r == 0,
            ({
                let s = old(self).tasks@;
                let cur = old(self).current;
                let q1 = old(self).manager.ready_queue@.push(cur);
                let j = select_idx(queue_strides(q1, s));
                let winner = q1[j];
                let t_w = task_of(s, winner);
                let adv = wadd(t_w.stride, BIG_STRIDE / t_w.priority);
                &&& 0 <= j < q1.len()
                &&& final(self).current == winner
                &&& final(self).manager.ready_queue@ == q1.remove(j)
                &&& tasks_same_except2(s, final(self).tasks@, cur, winner)
                &&& (winner == cur ==> task_of(final(self).tasks@, cur) == TaskControlBlock {
                    stride: adv,
                    ..t_w
                })
                &&& (winner != cur ==> task_of(final(self).tasks@, winner) == TaskControlBlock {
                    status: TaskStatus::Running,
                    stride: adv,
                    ..t_w
                } && task_of(final(self).tasks@, cur) == TaskControlBlock {
                    status: TaskStatus::Ready,
                    ..task_of(s, cur)
                })
                &&& final(self).images@ == old(self).images@
                &&& final(self).root_pid == old(self).root_pid
                &&& final(self).next_pid == old(self).next_pid
            }),
    {
        let ghost s = self.tasks@;
        let ghost q = self.manager.ready_queue@;
        let cur = self.current;
        let ci = self.current_index();
        self.tasks[ci].status = TaskStatus::Ready;
        let ghost t_mid = self.tasks@[ci as int];
        proof {
            assert(self.tasks@ =~= s.update(ci as int, t_mid));
            lemma_update_pid_preserved(s, ci as int, t_mid);
        }
        self.manager.add(cur);
        let ghost s1 = self.tasks@;
        let ghost q1 = self.manager.ready_queue@;
        proof {
            assert(q1 == q.push(cur));
            assert forall|k: int| 0 <= k < q1.len() implies has_pid(
                s1,
                #[trigger] q1[k],
            ) && task_of(s1, q1[k]).priority >= 2 by {
                if k < q.len() {
                    assert(has_pid(s, q[k]));
                    lemma_task_idx(s, q[k]);
                    lemma_task_idx(s1, q[k]);
                    assert(s[task_idx(s, q[k])].wf());
                } else {
                    assert(q1[k] == cur);
                    lemma_task_idx(s, cur);
                    lemma_task_idx(s1, cur);
                    assert(s[task_idx(s, cur)].wf());
                }
            }
            assert(queue_strides(q1, s1) =~= queue_strides(q1, s));
        }
        let pid = self.fetch_task();
        let ghost j = select_idx(queue_strides(q1, s));
        let ghost s2 = self.tasks@;
        let wi = match find_task(&self.tasks, pid) {
            Some(i) => i,
            None => {
                proof {
                    assert(has_pid(s1, pid));
                    assert(false);
                }
                0
            },
        };
        proof {
            lemma_task_idx_unique(s2, pid, wi as int);
        }
        self.tasks[wi].status = TaskStatus::Running;
        self.current = pid;
        proof {
            let t_fin = self.tasks@[wi as int];
            assert(t_fin == TaskControlBlock { status: TaskStatus::Running, ..s2[wi as int] });
            assert(self.tasks@ =~= s2.update(wi as int, t_fin));
            lemma_update_pid_preserved(s2, wi as int, t_fin);
            lemma_queue_remove(q1, j);
            let s3 = self.tasks@;
            let q2 = self.manager.ready_queue@;
            assert(t_mid == TaskControlBlock { status: TaskStatus::Ready, ..s[ci as int] });
            assert(s[ci as int] == task_of(s, cur)) by {
                lemma_task_idx_unique(s, cur, ci as int);
            }
            // cur was Running, so it was not in the old ready set
            assert(!q.contains(cur)) by {
                if q.contains(cur) {
                    let k = choose|k: int| 0 <= k < q.len() && q[k] == cur;
                    assert(task_of(s, q[k]).status == TaskStatus::Ready);
                }
            }
            assert(q1[q.len() as int] == cur);
            assert(q1.contains(cur));
            assert forall|k1: int, k2: int| 0 <= k1 < k2 < q1.len() implies q1[k1] != q1[k2] by {
                if k2 == q.len() {
                    if q1[k1] == cur {
                        assert(q.contains(cur));
                    }
                }
            }
            // how every task's final value relates to its old value
            assert forall|p: usize| #[trigger] has_pid(s, p) implies {
                let a = task_of(s, p);
                let b = task_of(s3, p);
                &&& has_pid(s3, p)
                &&& b.pid == a.pid
                &&& b.parent == a.parent
                &&& b.children@ == a.children@
                &&& b.space == a.space
                &&& b.priority == a.priority
                &&& b.syscall_times@ == a.syscall_times@
                &&& b.wf()
                &&& (p != cur && p != pid ==> b == a)
                &&& b.status == (if p == pid {
                    TaskStatus::Running
                } else if p == cur {
                    TaskStatus::Ready
                } else {
                    a.status
                })
            } by {
                lemma_task_idx(s, p);
                assert(s[task_idx(s, p)].wf());
                assert(has_pid(s1, p));
                assert(has_pid(s2, p));
                if p == pid {
                    assert(task_of(s3, p) == t_fin);
                } else {
                    assert(task_of(s3, p) == task_of(s2, p));
                    assert(task_of(s2, p) == task_of(s1, p));
                    if p == cur {
                        assert(task_of(s1, p) == t_mid);
                    } else {
                        assert(task_of(s1, p) == task_of(s, p));
                    }
                }
            }
            // the queue after removal holds exactly the Ready tasks
            assert forall|k: int| 0 <= k < q2.len() implies has_pid(s3, #[trigger] q2[k])
                && task_of(s3, q2[k]).status == TaskStatus::Ready by {
                assert(q2.contains(q2[k]));
                let x = q2[k];
                assert(q1.contains(x) && x != pid);
                let k1 = choose|k1: int| 0 <= k1 < q1.len() && q1[k1] == x;
                if k1 < q.len() {
                    assert(q[k1] == x);
                    assert(task_of(s, x).status == TaskStatus::Ready);
                    assert(has_pid(s, x));
                    if x == cur {
                        assert(task_of(s, cur).status == TaskStatus::Running);
                    }
                } else {
                    assert(x == cur);
                    assert(has_pid(s, x));
                }
            }
            // every Ready task is in the queue
            assert forall|i: int|
                0 <= i < s3.len() && (#[trigger] s3[i]).status == TaskStatus::Ready implies
                q2.contains(s3[i].pid) by {
                let p = s3[i].pid;
                assert(has_pid(s3, p));
                assert(has_pid(s, p));
                lemma_task_idx_unique(s3, p, i);
                assert(task_of(s3, p).status == TaskStatus::Ready);
                assert(p != pid);
                if p == cur {
                    assert(q1.contains(cur));
                } else {
                    assert(task_of(s, p).status == TaskStatus::Ready);
                    lemma_task_idx(s, p);
                    assert(s[task_idx(s, p)].status == TaskStatus::Ready);
                    assert(q.contains(p));
                    let k = choose|k: int| 0 <= k < q.len() && q[k] == p;
                    assert(q1[k] == p);
                    assert(q1.contains(p));
                }
            }
            // only the winner is Running
            assert forall|i: int|
                0 <= i < s3.len() && (#[trigger] s3[i]).status == TaskStatus::Running implies
                s3[i].pid == pid by {
                let p = s3[i].pid;
                assert(has_pid(s3, p));
                assert(has_pid(s, p));
                lemma_task_idx_unique(s3, p, i);
                if p != pid && p != cur {
                    assert(task_of(s, p).status == TaskStatus::Running);
                    lemma_task_idx(s, p);
                    assert(s[task_idx(s, p)].pid == cur);
                }
            }
            // pids below the pid bound
            assert forall|i: int| 0 <= i < s3.len() implies (#[trigger] s3[i]).pid
                < self.next_pid by {
                let p = s3[i].pid;
                assert(has_pid(s3, p));
                assert(has_pid(s, p));
                let k = choose|k: int| 0 <= k < s.len() && s[k].pid == p;
            }
            // per-task invariants
            assert forall|i: int| 0 <= i < s3.len() implies (#[trigger] s3[i]).wf() by {
                let p = s3[i].pid;
                assert(has_pid(s3, p));
                assert(has_pid(s, p));
                lemma_task_idx_unique(s3, p, i);
            }
            // family links are untouched
            assert forall|ii: int, k: int|
                0 <= ii < s3.len() && 0 <= k < s3[ii].children@.len() implies {
                &&& has_pid(s3, #[trigger] s3[ii].children@[k])
                &&& task_of(s3, s3[ii].children@[k]).parent == Some(s3[ii].pid)
                &&& s3[ii].children@[k] != self.root_pid
            } by {
                let p = s3[ii].pid;
                assert(has_pid(s3, p));
                assert(has_pid(s, p));
                lemma_task_idx_unique(s3, p, ii);
                lemma_task_idx(s, p);
                let oi = task_idx(s, p);
                assert(s3[ii].children@ == s[oi].children@);
                let c = s[oi].children@[k];
                assert(has_pid(s, c));
                assert(task_of(s, c).parent == Some(p));
            }
            assert(has_pid(s3, self.root_pid));
            assert(task_of(s3, pid).status == TaskStatus::Running);
        }
        0
    }
}

/// The entry point of the first image whose name matches, if any: the
/// image-by-name lookup the loader collaborator provides.
pub open spec fn lookup_image(imgs: Seq<Image>, name: Seq<u8>) -> Option<usize>
    decreases imgs.len(),
{
    if imgs.len() == 0 {
        None
    } else if imgs[0].name@ == name {
        Some(imgs[0].entry)
    } else {
        lookup_image(imgs.drop_first(), name)
    }
}

/// Byte-for-byte comparison of two names.
fn bytes_eq(a: &Vec<u8>, b: &Vec<u8>) -> (r: bool)
    ensures
        r == (a@ == b@),
{
    if a.len() != b.len() {
        return false;
    }
    let mut i: usize = 0;
    while i < a.len()
        invariant
            a@.len() == b@.len(),
            i <= a@.len(),
            forall|k: int| 0 <= k < i ==> a@[k] == b@[k],
        decreases a@.len() - i,
    {
        if a[i] != b[i] {
            return false;
        }
        i += 1;
    }
    proof {
        assert(a@ =~= b@);
    }
    true
}

impl Kernel {
    /// Look the named program image up in the image table.
    fn find_image(&self, path: &Vec<u8>) -> (r: Option<usize>)
        ensures
            r == lookup_image(self.images@, path@),
    {
        let mut i: usize = 0;
        proof {
            assert(self.images@.skip(0) =~= self.images@);
        }
        while i < self.images.len()
            invariant
                i <= self.images@.len(),
                lookup_image(self.images@, path@) == lookup_image(
                    self.images@.skip(i as int),
                    path@,
                ),
            decreases self.images@.len() - i,
        {
            proof {
                assert(self.images@.skip(i as int)[0] == self.images@[i as int]);
            }
            if bytes_eq(&self.images[i].name, path) {
                return Some(self.images[i].entry);
            }
            proof {
                assert(self.images@.skip(i as int).drop_first() =~= self.images@.skip(i + 1));
            }
            i += 1;
        }
        proof {
            assert(self.images@.skip(self.images@.len() as int) =~= Seq::<Image>::empty());
        }
        None
    }

    /// Replace the running task's address space and trap context in place
    /// from the named program image; identity, family links, scheduling and
    /// accounting fields are preserved. Fails, with the process unaffected,
    /// if no image of that name exists.
    pub fn sys_exec(&mut self, path: &Vec<u8>) -> (r: isize)
        requires
            old(self).wf(),
        ensures
            final(self).wf(),
            ({
                let s = old(self).tasks@;
                let cur = old(self).current;
                match lookup_image(old(self).images@, path@) {
                    None => r == -1 && *final(self) == *old(self),
                    Some(entry) => {
                        let t_old = task_of(s, cur);
                        let t_new = task_of(final(self).tasks@, cur);
                        &&& r == 0
                        &&& old(self).same_shell(*final(self))
                        &&& tasks_same_except(s, final(self).tasks@, cur)
                        &&& t_new.pid == t_old.pid
                        &&& t_new.status == t_old.status
                        &&& t_new.parent == t_old.parent
                        &&& t_new.children@ == t_old.children@
                        &&& t_new.stride == t_old.stride
                        &&& t_new.priority == t_old.priority
                        &&& t_new.syscall_times@ == t_old.syscall_times@
                        &&& t_new.start_time_ms == t_old.start_time_ms
                        &&& t_new.exit_code == t_old.exit_code
                        &&& t_new.space.pages@.len() == 0
                        &&& t_new.space.heap_base == 0
                        &&& t_new.space.brk == 0
                        &&& t_new.trap_cx == (TrapContext { entry: entry, sp: 0, a0: 0 })
                    },
                }
            }),
    {
        match self.find_image(path) {
            None => -1,
            Some(entry) => {
                let ghost s = self.tasks@;
                let i = self.current_index();
                self.tasks[i].space = AddressSpace::new_empty(0);
                self.tasks[i].trap_cx = TrapContext { entry, sp: 0, a0: 0 };
                proof {
                    let t_new = self.tasks@[i as int];
                    assert(self.tasks@ =~= s.update(i as int, t_new));
                    lemma_wf_update_current(*old(self), *self, t_new);
                }
                0
            },
        }
    }

    /// Create a new Ready task as a child of the running task, with the
    /// given address space, trap context and scheduling fields; link it into
    /// the family tree and the ready set and hand out a fresh process id.
    fn add_child_task(
        &mut self,
        space: AddressSpace,
        trap_cx: TrapContext,
        stride: u64,
        priority: u64,
    ) -> (child_pid: usize)
        requires
            old(self).wf(),
            old(self).next_pid < (isize::MAX as usize),
            space.wf(),
            priority >= 2,
        ensures
            final(self).wf(),
            ({
                let s = old(self).tasks@;
                let cur = old(self).current;
                let t_p_old = task_of(s, cur);
                let t_p = task_of(final(self).tasks@, cur);
                let c = task_of(final(self).tasks@, child_pid);
                &&& child_pid == old(self).next_pid
                &&& !has_pid(s, child_pid)
                &&& final(self).next_pid == old(self).next_pid + 1
                &&& final(self).current == cur
                &&& final(self).root_pid == old(self).root_pid
                &&& final(self).images@ == old(self).images@
                &&& final(self).manager.ready_queue@ == old(self).manager.ready_queue@.push(
                    child_pid,
                )
                &&& final(self).tasks@.len() == s.len() + 1
                &&& has_pid(final(self).tasks@, child_pid)
                &&& forall|p: usize|
                    #[trigger] has_pid(s, p) && p != cur ==> task_of(final(self).tasks@, p)
                        == task_of(s, p)
                &&& forall|p: usize| has_pid(s, p) ==> #[trigger] has_pid(final(self).tasks@, p)
                &&& t_p.children@ == t_p_old.children@.push(child_pid)
                &&& t_p.pid == t_p_old.pid
                &&& t_p.status == t_p_old.status
                &&& t_p.parent == t_p_old.parent
                &&& t_p.space == t_p_old.space
                &&& t_p.trap_cx == t_p_old.trap_cx
                &&& t_p.stride == t_p_old.stride
                &&& t_p.priority == t_p_old.priority
                &&& t_p.syscall_times@ == t_p_old.syscall_times@
                &&& t_p.start_time_ms == t_p_old.start_time_ms
                &&& t_p.exit_code == t_p_old.exit_code
                &&& c.pid == child_pid
                &&& c.status == TaskStatus::Ready
                &&& c.parent == Some(cur)
                &&& c.children@.len() == 0
                &&& c.space == space
                &&& c.trap_cx == trap_cx
                &&& c.stride == stride
                &&& c.priority == priority
                &&& c.syscall_times@.len() == MAX_SYSCALL_NUM
                &&& (forall|k: int| 0 <= k < c.syscall_times@.len() ==> c.syscall_times@[k] == 0)
                &&& c.start_time_ms == 0
                &&& c.exit_code == 0
            }),
    {
        let ghost s = self.tasks@;
        let ghost q = self.manager.ready_queue@;
        let cur = self.current;
        let child_pid = self.next_pid;
        proof {
            if has_pid(s, child_pid) {
                let k = choose|k: int| 0 <= k < s.len() && s[k].pid == child_pid;
            }
            assert(!has_pid(s, child_pid));
        }
        let child = TaskControlBlock {
            pid: child_pid,
            status: TaskStatus::Ready,
            parent: Some(cur),
            children: Vec::new(),
            space,
            trap_cx,
            stride,
            priority,
            syscall_times: new_counter_table(),
            start_time_ms: 0,
            exit_code: 0,
        };
        let ci = self.current_index();
        self.tasks[ci].children.push(child_pid);
        let ghost t_p = self.tasks@[ci as int];
        proof {
            assert(t_p == TaskControlBlock {
                children: t_p.children,
                ..s[ci as int]
            });
            assert(t_p.children@ == s[ci as int].children@.push(child_pid));
            assert(self.tasks@ =~= s.update(ci as int, t_p));
            lemma_update_pid_preserved(s, ci as int, t_p);
            lemma_task_idx_unique(s, cur, ci as int);
        }
        let ghost s1 = self.tasks@;
        self.tasks.push(child);
        proof {
            assert(!has_pid(s1, child_pid));
            lemma_push_pid(s1, child);
        }
        let ghost s2 = self.tasks@;
        self.manager.add(child_pid);
        self.next_pid = self.next_pid + 1;
        proof {
            let q1 = self.manager.ready_queue@;
            assert(q1 == q.push(child_pid));
            // the fresh pid is in no old structure
            assert(!q.contains(child_pid)) by {
                if q.contains(child_pid) {
                    let k = choose|k: int| 0 <= k < q.len() && q[k] == child_pid;
                    assert(has_pid(s, q[k]));
                }
            }
            // frame: every old task keeps its value except the parent
            assert forall|p: usize| #[trigger] has_pid(s, p) implies has_pid(s2, p) && (p != cur
                ==> task_of(s2, p) == task_of(s, p)) && (p == cur ==> task_of(s2, p) == t_p) by {
                assert(has_pid(s1, p));
            }
            assert(task_of(s2, child_pid) == child);
            // pids stay below the advanced bound
            assert forall|i: int| 0 <= i < s2.len() implies (#[trigger] s2[i]).pid
                < self.next_pid by {
                let p = s2[i].pid;
                assert(has_pid(s2, p));
                if p != child_pid {
                    assert(has_pid(s1, p) || p == child.pid);
                    assert(has_pid(s, p));
                    let k = choose|k: int| 0 <= k < s.len() && s[k].pid == p;
                }
            }
            // statuses: the child is Ready, everyone else is as before
            assert forall|i: int|
                0 <= i < s2.len() && (#[trigger] s2[i]).status == TaskStatus::Running implies
                s2[i].pid == cur by {
                let p = s2[i].pid;
                assert(has_pid(s2, p));
                lemma_task_idx_unique(s2, p, i);
                if p != child_pid {
                    assert(has_pid(s, p));
                    if p != cur {
                        assert(task_of(s2, p) == task_of(s, p));
                        lemma_task_idx(s, p);
                        lemma_task_idx_unique(s, p, task_idx(s, p));
                        assert(s[task_idx(s, p)].pid == cur);
                    }
                }
            }
            lemma_task_idx(s2, cur);
            assert(task_of(s2, cur).status == TaskStatus::Running);
            // ready-set membership both ways
            assert forall|k: int| 0 <= k < q1.len() implies has_pid(s2, #[trigger] q1[k])
                && task_of(s2, q1[k]).status == TaskStatus::Ready by {
                if k < q.len() {
                    let p = q[k];
                    assert(has_pid(s, p));
                    assert(task_of(s, p).status == TaskStatus::Ready);
                    if p == cur {
                        assert(task_of(s, cur).status == TaskStatus::Running);
                    }
                } else {
                    assert(q1[k] == child_pid);
                }
            }
            assert forall|k1: int, k2: int| 0 <= k1 < k2 < q1.len() implies q1[k1] != q1[k2] by {
                if k2 == q.len() {
                    if q1[k1] == child_pid {
                        assert(q.contains(child_pid));
                    }
                }
            }
            assert forall|i: int|
                0 <= i < s2.len() && (#[trigger] s2[i]).status == TaskStatus::Ready implies
                q1.contains(s2[i].pid) by {
                let p = s2[i].pid;
                assert(has_pid(s2, p));
                lemma_task_idx_unique(s2, p, i);
                if p == child_pid {
                    assert(q1[q.len() as int] == child_pid);
                } else {
                    assert(has_pid(s, p));
                    if p == cur {
                        assert(task_of(s2, cur).status == TaskStatus::Running);
                    } else {
                        assert(task_of(s, p).status == TaskStatus::Ready);
                        lemma_task_idx(s, p);
                        assert(s[task_idx(s, p)].status == TaskStatus::Ready);
                        assert(q.contains(p));
                        let k = choose|k: int| 0 <= k < q.len() && q[k] == p;
                        assert(q1[k] == p);
                    }
                }
            }
            // per-task invariants: the parent gained one distinct child
            assert(t_p.wf()) by {
                assert(s[ci as int].wf());
                assert forall|a: int, b: int|
                    0 <= a < b < t_p.children@.len() implies t_p.children@[a]
                    != t_p.children@[b] by {
                    if b == t_p.children@.len() - 1 {
                        let cc = t_p.children@[a];
                        assert(cc == s[ci as int].children@[a]);
                        assert(has_pid(s, cc));
                        if cc == child_pid {
                            assert(!has_pid(s, child_pid));
                        }
                    }
                }
            }
            assert forall|i: int| 0 <= i < s2.len() implies (#[trigger] s2[i]).wf() by {
                let p = s2[i].pid;
                assert(has_pid(s2, p));
                lemma_task_idx_unique(s2, p, i);
                if p == child_pid {
                } else {
                    assert(has_pid(s, p));
                    lemma_task_idx(s, p);
                    assert(s[task_idx(s, p)].wf());
                }
            }
            // family links
            assert forall|ii: int, k: int|
                0 <= ii < s2.len() && 0 <= k < s2[ii].children@.len() implies {
                &&& has_pid(s2, #[trigger] s2[ii].children@[k])
                &&& task_of(s2, s2[ii].children@[k]).parent == Some(s2[ii].pid)
                &&& s2[ii].children@[k] != self.root_pid
            } by {
                let p = s2[ii].pid;
                assert(has_pid(s2, p));
                lemma_task_idx_unique(s2, p, ii);
                if p == child_pid {
                    assert(s2[ii].children@.len() == 0);
                } else {
                    assert(has_pid(s, p));
                    lemma_task_idx(s, p);
                    let oi = task_idx(s, p);
                    if p == cur {
                        assert(s2[ii].children@ == s[oi].children@.push(child_pid));
                    } else {
                        assert(s2[ii].children@ == s[oi].children@);
                    }
                    if k < s[oi].children@.len() {
                        let cc = s[oi].children@[k];
                        assert(has_pid(s, cc));
                        assert(task_of(s, cc).parent == Some(p));
                        assert(cc != child_pid);
                        if cc == cur {
                            assert(task_of(s2, cur).parent == task_of(s, cur).parent);
                        }
                    } else {
                        assert(p == cur);
                        assert(s2[ii].children@[k] == child_pid);
                        assert(task_of(s2, child_pid).parent == Some(cur));
                        assert(has_pid(s, self.root_pid));
                        assert(child_pid != self.root_pid) by {
                            if child_pid == self.root_pid {
                                assert(has_pid(s, child_pid));
                            }
                        }
                    }
                }
            }
            assert(has_pid(s2, self.root_pid));
            lemma_task_idx(s2, self.root_pid);
        }
        child_pid
    }

    /// Fork the running task: a new child with a deep copy of the parent's
    /// address space and trap context, except that the child's return-value
    /// register is 0 while the parent receives the child's process id. The
    /// child inherits priority; its stride starts from the parent's current
    /// value and advances independently from here on.
    pub fn sys_fork(&mut self) -> (r: isize)
        requires
            old(self).wf(),
            old(self).next_pid < (isize::MAX as usize),
        ensures
            final(self).wf(),
            ({
                let s = old(self).tasks@;
                let cur = old(self).current;
                let child_pid = old(self).next_pid;
                let t_p_old = task_of(s, cur);
                let t_p = task_of(final(self).tasks@, cur);
                let c = task_of(final(self).tasks@, child_pid);
                &&& r == child_pid as isize
                &&& r >= 0
                &&& !has_pid(s, child_pid)
                &&& has_pid(final(self).tasks@, child_pid)
                &&& final(self).next_pid == child_pid + 1
                &&& final(self).current == cur
                &&& final(self).root_pid == old(self).root_pid
                &&& final(self).images@ == old(self).images@
                &&& final(self).manager.ready_queue@ == old(self).manager.ready_queue@.push(
                    child_pid,
                )
                &&& final(self).tasks@.len() == s.len() + 1
                &&& forall|p: usize|
                    #[trigger] has_pid(s, p) && p != cur ==> task_of(final(self).tasks@, p)
                        == task_of(s, p)
                &&& t_p.children@ == t_p_old.children@.push(child_pid)
                &&& t_p.status == t_p_old.status
                &&& t_p.space == t_p_old.space
                &&& t_p.trap_cx == t_p_old.trap_cx
                &&& t_p.stride == t_p_old.stride
                &&& t_p.priority == t_p_old.priority
                &&& c.status == TaskStatus::Ready
                &&& c.parent == Some(cur)
                &&& c.children@.len() == 0
                &&& c.space.pages@ == t_p_old.space.pages@
                &&& c.space.heap_base == t_p_old.space.heap_base
                &&& c.space.brk == t_p_old.space.brk
                &&& c.trap_cx.entry == t_p_old.trap_cx.entry
                &&& c.trap_cx.sp == t_p_old.trap_cx.sp
                &&& c.trap_cx.a0 == 0
                &&& c.stride == t_p_old.stride
                &&& c.priority == t_p_old.priority
            }),
    {
        let ci = self.current_index();
        let space = self.tasks[ci].space.duplicate();
        let trap = TrapContext {
            entry: self.tasks[ci].trap_cx.entry,
            sp: self.tasks[ci].trap_cx.sp,
            a0: 0,
        };
        let stride = self.tasks[ci].stride;
        let priority = self.tasks[ci].priority;
        proof {
            assert(self.tasks@[ci as int].wf());
        }
        let child_pid = self.add_child_task(space, trap, stride, priority);
        child_pid as isize
    }

    /// Create a new child task directly from a named program image, without
    /// first duplicating the caller's memory (distinct from fork-then-exec).
    /// Fails with no mutation if no image of that name exists. The child
    /// starts Ready with the default priority and the parent's stride.
    pub fn sys_spawn(&mut self, path: &Vec<u8>) -> (r: isize)
        requires
            old(self).wf(),
            old(self).next_pid < (isize::MAX as usize),
        ensures
            final(self).wf(),
            ({
                let s = old(self).tasks@;
                let cur = old(self).current;
                let child_pid = old(self).next_pid;
                match lookup_image(old(self).images@, path@) {
                    None => r == -1 && *final(self) == *old(self),
                    Some(entry) => {
                        let t_p_old = task_of(s, cur);
                        let t_p = task_of(final(self).tasks@, cur);
                        let c = task_of(final(self).tasks@, child_pid);
                        &&& r == child_pid as isize
                        &&& r >= 0
                        &&& !has_pid(s, child_pid)
                        &&& has_pid(final(self).tasks@, child_pid)
                        &&& final(self).next_pid == child_pid + 1
                        &&& final(self).current == cur
                        &&& final(self).root_pid == old(self).root_pid
                        &&& final(self).images@ == old(self).images@
                        &&& final(self).manager.ready_queue@
                            == old(self).manager.ready_queue@.push(child_pid)
                        &&& final(self).tasks@.len() == s.len() + 1
                        &&& forall|p: usize|
                            #[trigger] has_pid(s, p) && p != cur ==> task_of(
                                final(self).tasks@,
                                p,
                            ) == task_of(s, p)
                        &&& t_p.children@ == t_p_old.children@.push(child_pid)
                        &&& t_p.status == t_p_old.status
                        &&& t_p.space == t_p_old.space
                        &&& t_p.trap_cx == t_p_old.trap_cx
                        &&& c.status == TaskStatus::Ready
                        &&& c.parent == Some(cur)
                        &&& c.children@.len() == 0
                        &&& c.space.pages@.len() == 0
                        &&& c.space.heap_base == 0
                        &&& c.space.brk == 0
                        &&& c.trap_cx == (TrapContext { entry: entry, sp: 0, a0: 0 })
                        &&& c.stride == t_p_old.stride
                        &&& c.priority == DEFAULT_PRIORITY
                    },
                }
            }),
    {
        match self.find_image(path) {
            None => -1,
            Some(entry) => {
                let ci = self.current_index();
                let stride = self.tasks[ci].stride;
                let space = AddressSpace::new_empty(0);
                let trap = TrapContext { entry, sp: 0, a0: 0 };
                let child_pid = self.add_child_task(space, trap, stride, DEFAULT_PRIORITY);
                child_pid as isize
            },
        }
    }
}

/// Whether a wait request for `pid` selects the child with process id `c`:
/// `-1` is the wildcard meaning any child.
pub open spec fn pid_matches(pid: isize, c: usize) -> bool {
    pid == -1 || c == pid as usize
}

/// The caller has no child that the request selects.
pub open spec fn wait_no_child(pre: Kernel, pid: isize) -> bool {
    let kids = task_of(pre.tasks@, pre.current).children@;
    forall|k: int| 0 <= k < kids.len() ==> !pid_matches(pid, #[trigger] kids[k])
}

/// The request selects children, but none of them has exited yet.
pub open spec fn wait_not_exited(pre: Kernel, pid: isize) -> bool {
    let kids = task_of(pre.tasks@, pre.current).children@;
    &&& (exists|k: int| 0 <= k < kids.len() && pid_matches(pid, kids[k]))
    &&& (forall|k: int|
        0 <= k < kids.len() && pid_matches(pid, #[trigger] kids[k]) ==> task_of(
            pre.tasks@,
            kids[k],
        ).status != TaskStatus::Zombie)
}

/// The request selects at least one zombie child, which can be reaped.
pub open spec fn wait_has_zombie(pre: Kernel, pid: isize) -> bool {
    let kids = task_of(pre.tasks@, pre.current).children@;
    exists|k: int|
        0 <= k < kids.len() && pid_matches(pid, #[trigger] kids[k]) && task_of(
            pre.tasks@,
            kids[k],
        ).status == TaskStatus::Zombie
}

impl Kernel {
    /// Wait for a child: `pid` names one child, or is `-1` for any child.
    /// Returns `-1` ("no such child") when no child matches, `-2` ("not yet
    /// exited", the caller must re-issue) when matching children exist but
    /// none is a zombie, and otherwise reaps the first matching zombie
    /// child: it leaves the children list and the process table, its exit
    /// code is written to `exit_code`, and its process id is returned.
    /// Scan the running task's children for the wait request: whether any
    /// child matches, and the position of the first matching zombie if one
    /// exists.
    fn scan_children(&self, pid: isize, ci: usize) -> (res: (bool, bool, usize))
        requires
            self.wf(),
            ci < self.tasks@.len(),
            ci as int == task_idx(self.tasks@, self.current),
        ensures
            ({
                let kids = self.tasks@[ci as int].children@;
                let (any_match, found, zidx) = res;
                &&& any_match == (exists|m: int| 0 <= m < kids.len() && pid_matches(pid, kids[m]))
                &&& found ==> {
                    &&& (zidx as int) < kids.len()
                    &&& pid_matches(pid, kids[zidx as int])
                    &&& task_of(self.tasks@, kids[zidx as int]).status == TaskStatus::Zombie
                    &&& forall|m: int|
                        0 <= m < zidx ==> !(pid_matches(pid, #[trigger] kids[m]) && task_of(
                            self.tasks@,
                            kids[m],
                        ).status == TaskStatus::Zombie)
                }
                &&& !found ==> forall|m: int|
                    0 <= m < kids.len() ==> !(pid_matches(pid, #[trigger] kids[m]) && task_of(
                        self.tasks@,
                        kids[m],
                    ).status == TaskStatus::Zombie)
            }),
    {
        let ghost s = self.tasks@;
        let ghost kids = self.tasks@[ci as int].children@;
        let n = self.tasks[ci].children.len();
        let mut any_match = false;
        let mut found = false;
        let mut zidx: usize = 0;
        let mut k: usize = 0;
        while k < n
            invariant
                self.wf(),
                ci < self.tasks@.len(),
                self.tasks@ == s,
                kids == s[ci as int].children@,
                n == kids.len(),
                k <= n,
                any_match == (exists|m: int| 0 <= m < k && pid_matches(pid, kids[m])),
                found ==> {
                    &&& (zidx as int) < k
                    &&& pid_matches(pid, kids[zidx as int])
                    &&& task_of(s, kids[zidx as int]).status == TaskStatus::Zombie
                    &&& forall|m: int|
                        0 <= m < zidx ==> !(pid_matches(pid, #[trigger] kids[m]) && task_of(
                            s,
                            kids[m],
                        ).status == TaskStatus::Zombie)
                },
                !found ==> forall|m: int|
                    0 <= m < k ==> !(pid_matches(pid, #[trigger] kids[m]) && task_of(
                        s,
                        kids[m],
                    ).status == TaskStatus::Zombie),
            decreases n - k,
        {
            let c = self.tasks[ci].children[k];
            proof {
                assert(has_pid(s, c));
            }
            let is_match = pid == -1 || c == (pid as usize);
            if is_match {
                any_match = true;
                if !found {
                    match find_task(&self.tasks, c) {
                        Some(idx) => {
                            proof {
                                lemma_task_idx_unique(s, c, idx as int);
                            }
                            if matches!(self.tasks[idx].status, TaskStatus::Zombie) {
                                found = true;
                                zidx = k;
                            }
                        },
                        None => {
                            proof {
                                assert(false);
                            }
                        },
                    }
                }
            }
            k += 1;
        }
        (any_match, found, zidx)
    }

    #[verifier::rlimit(100)]
    pub fn sys_waitpid(&mut self, pid: isize, exit_code: &mut i32) -> (r: isize)
        requires
            old(self).wf(),
        ensures
            final(self).wf(),
            wait_no_child(*old(self), pid) ==> r == -1 && *final(self) == *old(self)
                && *final(exit_code) == *old(exit_code),
            wait_not_exited(*old(self), pid) ==> r == -2 && *final(self) == *old(self)
                && *final(exit_code) == *old(exit_code),
            wait_has_zombie(*old(self), pid) ==> exists|j: int|
                waitpid_reap_post(*old(self), *final(self), *final(exit_code), pid, r, j),
    {
        let ci = self.current_index();
        let ghost s = self.tasks@;
        let ghost cur = self.current;
        let ghost kids = self.tasks@[ci as int].children@;
        proof {
            lemma_task_idx_unique(s, cur, ci as int);
        }
        let (any_match, found, zidx) = self.scan_children(pid, ci);
        if !found {
            if !any_match {
                proof {
                    assert forall|m: int| 0 <= m < kids.len() implies !pid_matches(
                        pid,
                        #[trigger] kids[m],
                    ) by {
                        if pid_matches(pid, kids[m]) {
                            assert(exists|m2: int|
                                0 <= m2 < kids.len() && pid_matches(pid, kids[m2]));
                        }
                    }
                }
                return -1;
            }
            return -2;
        }
        // reap the first matching zombie child
        let c = self.tasks[ci].children[zidx];
        self.tasks[ci].children.remove(zidx);
        let ghost t_p = self.tasks@[ci as int];
        proof {
            assert(t_p == TaskControlBlock { children: t_p.children, ..s[ci as int] });
            assert(t_p.children@ == kids.remove(zidx as int));
            assert(self.tasks@ =~= s.update(ci as int, t_p));
            lemma_update_pid_preserved(s, ci as int, t_p);
            // the zombie child is not the running task
            assert(task_of(s, c).status == TaskStatus::Zombie);
            assert(task_of(s, cur).status == TaskStatus::Running);
            assert(c != cur);
            assert(has_pid(self.tasks@, c));
        }
        let ghost s1 = self.tasks@;
        let idx = match find_task(&self.tasks, c) {
            Some(idx) => idx,
            None => {
                proof {
                    assert(false);
                }
                0
            },
        };
        proof {
            lemma_task_idx_unique(s1, c, idx as int);
            assert(task_of(s1, c) == task_of(s, c));
        }
        let code = self.tasks[idx].exit_code;
        *exit_code = code;
        self.tasks.remove(idx);
        proof {
            lemma_reap_restores(*old(self), *self, t_p, kids, cur, c, zidx as int, idx as int, code, pid);
        }
        c as isize
    }
}

/// What reaping leaves behind: the child at position `j` of the caller's
/// children list is the first matching zombie; it has left the children list
/// and the process table, its exit code reached the caller, its process id is
/// the result, and nothing else moved.
pub open spec fn waitpid_reap_post(
    pre: Kernel,
    post: Kernel,
    exit_new: i32,
    pid: isize,
    r: isize,
    j: int,
) -> bool {
    let s = pre.tasks@;
    let cur = pre.current;
    let kids = task_of(s, cur).children@;
    &&& 0 <= j < kids.len()
    &&& pid_matches(pid, kids[j])
    &&& task_of(s, kids[j]).status == TaskStatus::Zombie
    &&& (forall|m: int|
        0 <= m < j ==> !(pid_matches(pid, #[trigger] kids[m]) && task_of(s, kids[m]).status
            == TaskStatus::Zombie))
    &&& r == kids[j] as isize
    &&& r >= 0
    &&& exit_new == task_of(s, kids[j]).exit_code
    &&& post.tasks@.len() == s.len() - 1
    &&& !has_pid(post.tasks@, kids[j])
    &&& (forall|p: usize| p != kids[j] ==> has_pid(s, p) == #[trigger] has_pid(post.tasks@, p))
    &&& (forall|p: usize|
        #[trigger] has_pid(s, p) && p != kids[j] && p != cur ==> task_of(post.tasks@, p)
            == task_of(s, p))
    &&& task_of(post.tasks@, cur).children@ == kids.remove(j)
    &&& task_of(post.tasks@, cur) == (TaskControlBlock {
        children: task_of(post.tasks@, cur).children,
        ..task_of(s, cur)
    })
    &&& post.manager.ready_queue@ == pre.manager.ready_queue@
    &&& post.images@ == pre.images@
    &&& post.current == cur
    &&& post.root_pid == pre.root_pid
    &&& post.next_pid == pre.next_pid
}


/// The reaped child leaves every table exactly once and the kernel invariant
/// survives; split out of `sys_waitpid` to keep that body small.
#[verifier::rlimit(100)]
proof fn lemma_reap_restores(
    pre: Kernel,
    post: Kernel,
    t_p: TaskControlBlock,
    kids: Seq<usize>,
    cur: usize,
    c: usize,
    zidx: int,
    idx: int,
    code: i32,
    pid: isize,
)
    requires
        pre.wf(),
        cur == pre.current,
        kids == task_of(pre.tasks@, pre.current).children@,
        0 <= zidx < kids.len(),
        pid_matches(pid, kids[zidx]),
        task_of(pre.tasks@, kids[zidx]).status == TaskStatus::Zombie,
        forall|m: int|
            0 <= m < zidx ==> !(pid_matches(pid, #[trigger] kids[m]) && task_of(
                pre.tasks@,
                kids[m],
            ).status == TaskStatus::Zombie),
        c == kids[zidx],
        t_p == (TaskControlBlock { children: t_p.children, ..task_of(pre.tasks@, cur) }),
        t_p.children@ == kids.remove(zidx),
        0 <= idx < pre.tasks@.update(task_idx(pre.tasks@, cur), t_p).len(),
        pre.tasks@.update(task_idx(pre.tasks@, cur), t_p)[idx].pid == c,
        post.tasks@ == pre.tasks@.update(task_idx(pre.tasks@, cur), t_p).remove(idx),
        code == task_of(pre.tasks@, c).exit_code,
        post.manager.ready_queue@ == pre.manager.ready_queue@,
        post.images@ == pre.images@,
        post.current == cur,
        post.root_pid == pre.root_pid,
        post.next_pid == pre.next_pid,
    ensures
        post.wf(),
        waitpid_reap_post(pre, post, code, pid, c as isize, zidx),
{
    let s = pre.tasks@;
    let ci = task_idx(s, cur);
    lemma_task_idx(s, cur);
    lemma_update_pid_preserved(s, ci, t_p);
    let s1 = s.update(ci, t_p);
    lemma_task_idx_unique(s1, c, idx);
    assert(task_of(s, cur).status == TaskStatus::Running);
    assert(c != cur);
    assert(task_of(s1, c) == task_of(s, c));

            let s2 = post.tasks@;
            lemma_remove_pid(s1, idx as int);
            assert(s1[idx as int].pid == c);
            // every surviving task keeps its value, except the caller's list
            assert forall|p: usize| #[trigger] has_pid(s, p) && p != c implies has_pid(s2, p)
                && (p != cur ==> task_of(s2, p) == task_of(s, p)) && (p == cur ==> task_of(
                s2,
                p,
            ) == t_p) by {
                assert(has_pid(s1, p));
                assert(task_of(s2, p) == task_of(s1, p));
            }
            lemma_reap_family(pre, post, t_p, kids, cur, c, zidx, idx);
            // the ready set does not hold the zombie child
            assert forall|kk: int|
                0 <= kk < post.manager.ready_queue@.len() implies has_pid(
                s2,
                #[trigger] post.manager.ready_queue@[kk],
            ) && task_of(s2, post.manager.ready_queue@[kk]).status == TaskStatus::Ready by {
                let p = post.manager.ready_queue@[kk];
                assert(has_pid(s, p));
                assert(task_of(s, p).status == TaskStatus::Ready);
                assert(p != c);
                assert(p != cur);
                assert(task_of(s2, p) == task_of(s, p));
            }
            assert forall|ii: int|
                0 <= ii < s2.len() && (#[trigger] s2[ii]).status == TaskStatus::Ready implies
                post.manager.ready_queue@.contains(s2[ii].pid) by {
                let p = s2[ii].pid;
                assert(has_pid(s2, p));
                assert(p != c);
                assert(has_pid(s, p));
                lemma_task_idx_unique(s2, p, ii);
                if p == cur {
                    assert(task_of(s2, cur) == t_p);
                } else {
                    assert(task_of(s2, p) == task_of(s, p));
                    lemma_task_idx(s, p);
                    lemma_task_idx_unique(s, p, task_idx(s, p));
                }
            }
            assert forall|ii: int|
                0 <= ii < s2.len() && (#[trigger] s2[ii]).status == TaskStatus::Running implies
                s2[ii].pid == cur by {
                let p = s2[ii].pid;
                assert(has_pid(s2, p));
                assert(p != c);
                assert(has_pid(s, p));
                lemma_task_idx_unique(s2, p, ii);
                if p != cur {
                    assert(task_of(s2, p) == task_of(s, p));
                    lemma_task_idx(s, p);
                    lemma_task_idx_unique(s, p, task_idx(s, p));
                }
            }
            assert forall|ii: int| 0 <= ii < s2.len() implies (#[trigger] s2[ii]).pid
                < post.next_pid by {
                let p = s2[ii].pid;
                assert(has_pid(s2, p));
                assert(p != c);
                assert(has_pid(s, p));
                let w = choose|w: int| 0 <= w < s.len() && s[w].pid == p;
            }
            assert forall|ii: int| 0 <= ii < s2.len() implies (#[trigger] s2[ii]).wf() by {
                let p = s2[ii].pid;
                assert(has_pid(s2, p));
                assert(p != c);
                assert(has_pid(s, p));
                lemma_task_idx_unique(s2, p, ii);
                lemma_task_idx(s, p);
                assert(s[task_idx(s, p)].wf());
                if p == cur {
                    assert(task_of(s2, cur) == t_p);
                    assert forall|a: int, b: int|
                        0 <= a < b < t_p.children@.len() implies t_p.children@[a]
                        != t_p.children@[b] by {
                        let a2: int = if a < zidx as int { a } else { a + 1 };
                        let b2: int = if b < zidx as int { b } else { b + 1 };
                        assert(t_p.children@[a] == kids[a2]);
                        assert(t_p.children@[b] == kids[b2]);
                        assert(s[ci as int].wf());
                    }
                } else {
                    assert(task_of(s2, p) == task_of(s, p));
                }
            }
            // the root is never a child, so it survives the reap
            assert(post.root_pid != c) by {
                assert(kids[zidx as int] != pre.root_pid);
            }
            assert(has_pid(s2, post.root_pid));
            assert(cur != c);
            assert(has_pid(s2, cur));
            assert(task_of(s2, cur).status == TaskStatus::Running);
            assert forall|p: usize| p != c implies has_pid(s, p) == #[trigger] has_pid(s2, p) by {
                assert(has_pid(s1, p) == has_pid(s2, p));
            }
            assert(c as isize >= 0) by {
                let w = choose|w: int| 0 <= w < s.len() && s[w].pid == c;
            }
            assert(waitpid_reap_post(pre, post, code, pid, c as isize, zidx));
        
}


/// After a reap, every surviving child entry still names a live task whose
/// back reference agrees: the reaped child sat in exactly one children list.
proof fn lemma_reap_family(
    pre: Kernel,
    post: Kernel,
    t_p: TaskControlBlock,
    kids: Seq<usize>,
    cur: usize,
    c: usize,
    zidx: int,
    idx: int,
)
    requires
        pre.wf(),
        cur == pre.current,
        kids == task_of(pre.tasks@, pre.current).children@,
        0 <= zidx < kids.len(),
        c == kids[zidx],
        t_p == (TaskControlBlock { children: t_p.children, ..task_of(pre.tasks@, cur) }),
        t_p.children@ == kids.remove(zidx),
        0 <= idx < pre.tasks@.update(task_idx(pre.tasks@, cur), t_p).len(),
        pre.tasks@.update(task_idx(pre.tasks@, cur), t_p)[idx].pid == c,
        post.tasks@ == pre.tasks@.update(task_idx(pre.tasks@, cur), t_p).remove(idx),
        post.root_pid == pre.root_pid,
        task_of(pre.tasks@, kids[zidx]).status == TaskStatus::Zombie,
    ensures
        forall|ii: int, kk: int|
            0 <= ii < post.tasks@.len() && 0 <= kk < post.tasks@[ii].children@.len() ==> {
                &&& has_pid(post.tasks@, #[trigger] post.tasks@[ii].children@[kk])
                &&& task_of(post.tasks@, post.tasks@[ii].children@[kk]).parent == Some(
                    post.tasks@[ii].pid,
                )
                &&& post.tasks@[ii].children@[kk] != post.root_pid
            },
{
    let s = pre.tasks@;
    let ci = task_idx(s, cur);
    lemma_task_idx(s, cur);
    lemma_update_pid_preserved(s, ci, t_p);
    let s1 = s.update(ci, t_p);
    lemma_task_idx_unique(s1, c, idx);
    assert(task_of(s, cur).status == TaskStatus::Running);
    assert(c != cur);
    let s2 = post.tasks@;
    lemma_remove_pid(s1, idx);
    assert(s1[idx].pid == c);
            // no other task lists the reaped child: its parent link named cur,
            // and it was removed from cur's list, which held it once
            assert forall|ii: int, kk: int|
                0 <= ii < s2.len() && 0 <= kk < s2[ii].children@.len() implies {
                &&& has_pid(s2, #[trigger] s2[ii].children@[kk])
                &&& task_of(s2, s2[ii].children@[kk]).parent == Some(s2[ii].pid)
                &&& s2[ii].children@[kk] != post.root_pid
            } by {
                let p = s2[ii].pid;
                assert(has_pid(s2, p));
                assert(p != c);
                assert(has_pid(s1, p));
                assert(has_pid(s, p));
                lemma_task_idx_unique(s2, p, ii);
                assert(task_of(s2, p) == task_of(s1, p));
                lemma_task_idx(s, p);
                let oi = task_idx(s, p);
                let cc = s2[ii].children@[kk];
                if p == cur {
                    assert(task_of(s1, p) == t_p);
                    assert(cc == kids.remove(zidx as int)[kk]);
                    let kk2: int = if kk < zidx as int { kk } else { kk + 1 };
                    assert(cc == kids[kk2]);
                    assert(has_pid(s, cc));
                    assert(task_of(s, cc).parent == Some(cur));
                    assert(s[ci as int].wf());
                    if cc == c {
                        assert(kids[kk2] == kids[zidx as int]);
                        assert(kk2 != zidx as int);
                    }
                    assert(cc != c);
                    assert(has_pid(s1, cc));
                    if cc == cur {
                        assert(task_of(s1, cur) == t_p);
                        assert(task_of(s2, cur) == task_of(s1, cur));
                    } else {
                        assert(task_of(s1, cc) == task_of(s, cc));
                        assert(task_of(s2, cc) == task_of(s1, cc));
                    }
                } else {
                    assert(task_of(s1, p) == task_of(s, p));
                    assert(cc == s[oi].children@[kk]);
                    assert(has_pid(s, cc));
                    assert(task_of(s, cc).parent == Some(p));
                    if cc == c {
                        // then c's parent is both p and cur
                        assert(task_of(s, c).parent == Some(cur));
                    }
                    assert(cc != c);
                    assert(has_pid(s1, cc));
                    if cc == cur {
                        assert(task_of(s1, cur) == t_p);
                        assert(task_of(s2, cur) == task_of(s1, cur));
                    } else {
                        assert(task_of(s1, cc) == task_of(s, cc));
                        assert(task_of(s2, cc) == task_of(s1, cc));
                    }
                }
            }
}

/// An element-for-element copy of a process-id list.
fn clone_pids(v: &Vec<usize>) -> (r: Vec<usize>)
    ensures
        r@ == v@,
{
    let mut r: Vec<usize> = Vec::new();
    let mut i: usize = 0;
    while i < v.len()
        invariant
            i <= v@.len(),
            r@ == v@.take(i as int),
        decreases v@.len() - i,
    {
        r.push(v[i]);
        proof {
            assert(r@ =~= v@.take(i + 1));
        }
        i += 1;
    }
    proof {
        assert(v@.take(v@.len() as int) =~= v@);
    }
    r
}

/// How the table looks after a task has exited, before rescheduling: the
/// task is a zombie holding its exit code, its frames are released, and its
/// children (unless it is the root) have been re-parented to the root.
pub open spec fn exit_frame(
    s: Seq<TaskControlBlock>,
    b: TaskControlBlock,
    p: usize,
    cur: usize,
    root: usize,
    code: i32,
    kids: Seq<usize>,
) -> bool {
    let a = task_of(s, p);
    &&& b.pid == a.pid
    &&& b.status == (if p == cur {
        TaskStatus::Zombie
    } else {
        a.status
    })
    &&& b.stride == a.stride
    &&& b.priority == a.priority
    &&& b.syscall_times@ == a.syscall_times@
    &&& b.start_time_ms == a.start_time_ms
    &&& b.exit_code == (if p == cur {
        code
    } else {
        a.exit_code
    })
    &&& b.space.pages@ == (if p == cur {
        Seq::<crate::mem::PageEntry>::empty()
    } else {
        a.space.pages@
    })
    &&& b.children@ == (if p == cur && cur != root {
        Seq::<usize>::empty()
    } else if p == root && cur != root {
        task_of(s, root).children@ + kids
    } else {
        a.children@
    })
    &&& b.parent == (if cur != root && kids.contains(p) {
        Some(root)
    } else {
        a.parent
    })
}

impl Kernel {
    /// The running task exits with the given code: it becomes a zombie
    /// holding the code, its address space's frames are released, its live
    /// children are re-parented to the root task (never orphaned, so they
    /// stay reapable), and the stride scan picks the next task to run. The
    /// caller never resumes; a successor must exist, for an empty ready set
    /// here is the fatal "no runnable task" condition.
    #[verifier::rlimit(100)]
    pub fn sys_exit(&mut self, code: i32)
        requires
            old(self).wf(),
            old(self).manager.ready_queue@.len() > 0,
        ensures
            final(self).wf(),
            ({
                let s = old(self).tasks@;
                let cur = old(self).current;
                let root = old(self).root_pid;
                let q = old(self).manager.ready_queue@;
                let j = select_idx(queue_strides(q, s));
                let winner = q[j];
                let t_w = task_of(s, winner);
                let kids = task_of(s, cur).children@;
                &&& 0 <= j < q.len()
                &&& winner != cur
                &&& final(self).current == winner
                &&& final(self).manager.ready_queue@ == q.remove(j)
                &&& (forall|p: usize| has_pid(s, p) == #[trigger] has_pid(final(self).tasks@, p))
                &&& task_of(final(self).tasks@, cur).status == TaskStatus::Zombie
                &&& task_of(final(self).tasks@, cur).exit_code == code
                &&& task_of(final(self).tasks@, cur).space.pages@.len() == 0
                &&& (cur != root ==> task_of(final(self).tasks@, cur).children@.len() == 0)
                &&& (cur != root ==> task_of(final(self).tasks@, root).children@ == task_of(
                    s,
                    root,
                ).children@ + kids)
                &&& (cur != root ==> forall|k: int|
                    0 <= k < kids.len() ==> task_of(final(self).tasks@, #[trigger] kids[k]).parent
                        == Some(root))
                &&& task_of(final(self).tasks@, winner).status == TaskStatus::Running
                &&& task_of(final(self).tasks@, winner).stride == wadd(
                    t_w.stride,
                    BIG_STRIDE / t_w.priority,
                )
                &&& (forall|p: usize|
                    #[trigger] has_pid(s, p) && p != cur && p != winner && p != root
                        && !kids.contains(p) ==> task_of(final(self).tasks@, p) == task_of(s, p))
                &&& final(self).images@ == old(self).images@
                &&& final(self).root_pid == root
                &&& final(self).next_pid == old(self).next_pid
            }),
    {
        let ghost s = self.tasks@;
        let ghost q = self.manager.ready_queue@;
        let cur = self.current;
        let root = self.root_pid;
        let ghost kids = task_of(s, cur).children@;
        let ci = self.current_index();
        self.tasks[ci].status = TaskStatus::Zombie;
        self.tasks[ci].exit_code = code;
        self.tasks[ci].space.pages = Vec::new();
        let ghost t1 = self.tasks@[ci as int];
        proof {
            assert(self.tasks@ =~= s.update(ci as int, t1));
            lemma_update_pid_preserved(s, ci as int, t1);
        }
        let ghost s1 = self.tasks@;
        if cur != root {
            let kid_list = clone_pids(&self.tasks[ci].children);
            proof {
                assert(kid_list@ == kids);
            }
            self.tasks[ci].children = Vec::new();
            let ghost t2 = self.tasks@[ci as int];
            proof {
                assert(self.tasks@ =~= s1.update(ci as int, t2));
                lemma_update_pid_preserved(s1, ci as int, t2);
            }
            let ghost s2 = self.tasks@;
            let ri = match find_task(&self.tasks, root) {
                Some(i) => i,
                None => {
                    proof {
                        assert(has_pid(s2, root));
                        assert(false);
                    }
                    0
                },
            };
            proof {
                lemma_task_idx_unique(s2, root, ri as int);
                assert(s2[ri as int].pid == root);
                assert(ri != ci);
                assert forall|m: int| 0 <= m < kids.len() implies has_pid(s2, #[trigger] kids[m])
                    && kids[m] != root && task_of(s, kids[m]).parent == Some(cur) by {
                    lemma_task_idx(s, cur);
                    assert(s[ci as int].children@ == kids);
                    assert(has_pid(s, kids[m]));
                }
                assert(s[ci as int].wf());
            }
            let mut k: usize = 0;
            while k < kid_list.len()
                invariant
                    cur != root,
                    self.manager.ready_queue@ == q,
                    self.current == cur,
                    self.root_pid == root,
                    self.next_pid == old(self).next_pid,
                    self.images@ == old(self).images@,
                    k <= kid_list@.len(),
                    kid_list@ == kids,
                    ci < s2.len(),
                    ri < s2.len(),
                    ri != ci,
                    s2[ri as int].pid == root,
                    pids_unique(s2),
                    self.tasks@.len() == s2.len(),
                    forall|t: int|
                        0 <= t < s2.len() ==> (#[trigger] self.tasks@[t]).pid == s2[t].pid,
                    forall|m: int|
                        0 <= m < kids.len() ==> has_pid(s2, #[trigger] kids[m]) && kids[m] != root,
                    forall|m1: int, m2: int| 0 <= m1 < m2 < kids.len() ==> kids[m1] != kids[m2],
                    self.tasks@[ri as int] == (TaskControlBlock {
                        children: self.tasks@[ri as int].children,
                        ..s2[ri as int]
                    }),
                    self.tasks@[ri as int].children@ == s2[ri as int].children@ + kids.take(
                        k as int,
                    ),
                    forall|t: int|
                        0 <= t < s2.len() && t != ri && kids.take(k as int).contains(
                            (#[trigger] s2[t]).pid,
                        ) ==> self.tasks@[t] == (TaskControlBlock {
                            parent: Some(root),
                            ..s2[t]
                        }),
                    forall|t: int|
                        0 <= t < s2.len() && t != ri && !kids.take(k as int).contains(
                            (#[trigger] s2[t]).pid,
                        ) ==> self.tasks@[t] == s2[t],
                decreases kid_list@.len() - k,
            {
                let c = kid_list[k];
                proof {
                    assert(has_pid(s2, c));
                    let w = choose|w: int| 0 <= w < s2.len() && s2[w].pid == c;
                    assert(self.tasks@[w].pid == c);
                    assert(has_pid(self.tasks@, c));
                }
                let idx = match find_task(&self.tasks, c) {
                    Some(i) => i,
                    None => {
                        proof {
                            assert(false);
                        }
                        0
                    },
                };
                proof {
                    assert(idx != ri);
                    assert(!kids.take(k as int).contains(c)) by {
                        if kids.take(k as int).contains(c) {
                            let m = choose|m: int|
                                0 <= m < k && (#[trigger] kids.take(k as int)[m]) == c;
                            assert(kids[m] == kids[k as int]);
                        }
                    }
                    assert(s2[idx as int].pid == c);
                    assert(self.tasks@[idx as int] == s2[idx as int]);
                }
                self.tasks[idx].parent = Some(root);
                proof {
                    assert(self.tasks@[idx as int] == (TaskControlBlock {
                        parent: Some(root),
                        ..s2[idx as int]
                    }));
                }
                self.tasks[ri].children.push(c);
                proof {
                    assert(kids.take(k + 1).drop_last() =~= kids.take(k as int));
                    assert(self.tasks@[ri as int].children@ =~= s2[ri as int].children@
                        + kids.take(k + 1));
                    assert forall|t: int|
                        0 <= t < s2.len() && t != ri && kids.take(k + 1).contains(
                            (#[trigger] s2[t]).pid,
                        ) implies self.tasks@[t] == (TaskControlBlock {
                            parent: Some(root),
                            ..s2[t]
                        }) by {
                        let m = choose|m: int| 0 <= m < k + 1 && (#[trigger] kids.take(k + 1)[m]) == s2[t].pid;
                        if m < k {
                            assert(kids.take(k as int)[m] == s2[t].pid);
                            assert(kids.take(k as int).contains(s2[t].pid));
                            assert(t != idx);
                        } else {
                            assert(s2[t].pid == c);
                            lemma_task_idx_unique(s2, c, t);
                            lemma_task_idx_unique(s2, c, idx as int);
                        }
                    }
                    assert forall|t: int|
                        0 <= t < s2.len() && t != ri && !kids.take(k + 1).contains(
                            (#[trigger] s2[t]).pid,
                        ) implies self.tasks@[t] == s2[t] by {
                        assert(kids.take(k + 1)[k as int] == c);
                        assert(s2[t].pid != c);
                        assert(t != idx);
                        if kids.take(k as int).contains(s2[t].pid) {
                            let m = choose|m: int|
                                0 <= m < k && (#[trigger] kids.take(k as int)[m]) == s2[t].pid;
                            assert(kids.take(k + 1)[m] == s2[t].pid);
                        }
                    }
                }
                k += 1;
            }
            proof {
                assert(kids.take(kids.len() as int) =~= kids);
                let s3 = self.tasks@;
                assert(pids_unique(s3)) by {
                    assert forall|a: int, b: int| 0 <= a < b < s3.len() implies s3[a].pid
                        != s3[b].pid by {
                        assert(s3[a].pid == s2[a].pid);
                        assert(s3[b].pid == s2[b].pid);
                    }
                }
                assert forall|p: usize| has_pid(s, p) == #[trigger] has_pid(s3, p) by {
                    if has_pid(s, p) {
                        assert(has_pid(s2, p));
                        let t = choose|t: int| 0 <= t < s2.len() && s2[t].pid == p;
                        assert(s3[t].pid == p);
                    }
                    if has_pid(s3, p) {
                        let t = choose|t: int| 0 <= t < s3.len() && s3[t].pid == p;
                        assert(s2[t].pid == p);
                        assert(has_pid(s2, p));
                    }
                }
                assert(!kids.contains(root)) by {
                    if kids.contains(root) {
                        let m = choose|m: int| 0 <= m < kids.len() && kids[m] == root;
                    }
                }
                assert forall|p: usize| #[trigger] has_pid(s, p) implies exit_frame(
                    s,
                    task_of(s3, p),
                    p,
                    cur,
                    root,
                    code,
                    kids,
                ) && task_of(s3, p).wf() && (p != cur && p != root && !kids.contains(p)
                    ==> task_of(s3, p) == task_of(s, p)) by {
                    assert(has_pid(s2, p));
                    assert(!kids.contains(p) ==> !kids.take(kids.len() as int).contains(p));
                    lemma_task_idx(s2, p);
                    let t = task_idx(s2, p);
                    assert(s2[t].pid == p);
                    assert(s3[t].pid == p);
                    lemma_task_idx_unique(s3, p, t);
                    lemma_task_idx_unique(s2, p, t);
                    lemma_task_idx(s, p);
                    assert(s[task_idx(s, p)].wf());
                    if p == cur {
                        assert(task_of(s2, cur) == t2);
                        assert(task_of(s1, cur) == t1);
                    } else {
                        assert(task_of(s2, p) == task_of(s1, p));
                        assert(task_of(s1, p) == task_of(s, p));
                    }
                    if t == ri {
                        assert(p == root);
                        assert(s3[t].children@ == s2[ri as int].children@ + kids);
                        assert(s2[ri as int] == task_of(s2, root));
                        let rc = task_of(s, root).children@;
                        assert(s2[ri as int].children@ == rc);
                        lemma_task_idx(s, root);
                        assert(s[task_idx(s, root)].wf());
                        assert(s[task_idx(s, root)].children@ == rc);
                        lemma_task_idx(s, cur);
                        assert forall|a: int, b: int|
                            0 <= a < b < s3[t].children@.len() implies s3[t].children@[a]
                            != s3[t].children@[b] by {
                            if b >= rc.len() {
                                if a < rc.len() {
                                    let x = rc[a];
                                    let y = kids[b - rc.len()];
                                    assert(s3[t].children@[a] == x);
                                    assert(s3[t].children@[b] == y);
                                    assert(task_of(s, x).parent == Some(root));
                                    assert(s[task_idx(s, cur)].children@ == kids);
                                    assert(task_of(s, y).parent == Some(cur));
                                } else {
                                    assert(s3[t].children@[a] == kids[a - rc.len()]);
                                    assert(s3[t].children@[b] == kids[b - rc.len()]);
                                }
                            }
                        }
                    } else if kids.contains(p) {
                        assert(s3[t] == (TaskControlBlock { parent: Some(root), ..s2[t] }));
                    } else {
                        assert(s3[t] == s2[t]);
                    }
                }
            }
        } else {
            proof {
                let s3 = self.tasks@;
                assert(s3 == s1);
                assert forall|p: usize| #[trigger] has_pid(s, p) implies exit_frame(
                    s,
                    task_of(s3, p),
                    p,
                    cur,
                    root,
                    code,
                    kids,
                ) && task_of(s3, p).wf() && (p != cur && p != root && !kids.contains(p)
                    ==> task_of(s3, p) == task_of(s, p)) by {
                    lemma_task_idx(s, p);
                    assert(s[task_idx(s, p)].wf());
                    if p == cur {
                        assert(task_of(s1, cur) == t1);
                    } else {
                        assert(task_of(s1, p) == task_of(s, p));
                    }
                }
                assert forall|p: usize| has_pid(s, p) == #[trigger] has_pid(s3, p) by {}
                assert(pids_unique(s3));
            }
        }
        let ghost s3 = self.tasks@;
        proof {
            assert forall|kk: int| 0 <= kk < q.len() implies has_pid(s3, #[trigger] q[kk])
                && task_of(s3, q[kk]).priority >= 2 by {
                assert(has_pid(s, q[kk]));
                lemma_task_idx(s, q[kk]);
                assert(s[task_idx(s, q[kk])].wf());
            }
            assert(queue_strides(q, s3) =~= queue_strides(q, s)) by {
                assert forall|kk: int|
                    0 <= kk < q.len() implies queue_strides(q, s3)[kk] == queue_strides(
                    q,
                    s,
                )[kk] by {
                    assert(has_pid(s, q[kk]));
                }
            }
        }
        let pid = self.fetch_task();
        let ghost j = select_idx(queue_strides(q, s));
        let ghost s4 = self.tasks@;
        let wi = match find_task(&self.tasks, pid) {
            Some(i) => i,
            None => {
                proof {
                    assert(false);
                }
                0
            },
        };
        proof {
            lemma_task_idx_unique(s4, pid, wi as int);
        }
        self.tasks[wi].status = TaskStatus::Running;
        self.current = pid;
        proof {
            let t_fin = self.tasks@[wi as int];
            assert(t_fin == (TaskControlBlock { status: TaskStatus::Running, ..s4[wi as int] }));
            assert(self.tasks@ =~= s4.update(wi as int, t_fin));
            lemma_update_pid_preserved(s4, wi as int, t_fin);
            lemma_queue_remove(q, j);
            lemma_exit_done(*old(self), *self, s3, s4, kids, pid, j, code);
        }
    }
}


/// The rescheduling tail of an exit restores the kernel invariant; split out
/// of `sys_exit` to keep that body within bounds. `s3` is the table after
/// the zombie transition and re-parenting; `s4` is `s3` after the winner's
/// stride advanced.
#[verifier::rlimit(100)]
proof fn lemma_exit_done(
    pre: Kernel,
    post: Kernel,
    s3: Seq<TaskControlBlock>,
    s4: Seq<TaskControlBlock>,
    kids: Seq<usize>,
    pid: usize,
    j: int,
    code: i32,
)
    requires
        pre.wf(),
        pre.manager.ready_queue@.len() > 0,
        kids == task_of(pre.tasks@, pre.current).children@,
        pids_unique(s3),
        forall|p: usize| has_pid(pre.tasks@, p) == #[trigger] has_pid(s3, p),
        forall|p: usize|
            #[trigger] has_pid(pre.tasks@, p) ==> exit_frame(
                pre.tasks@,
                task_of(s3, p),
                p,
                pre.current,
                pre.root_pid,
                code,
                kids,
            ) && task_of(s3, p).wf() && (p != pre.current && p != pre.root_pid && !kids.contains(p)
                ==> task_of(s3, p) == task_of(pre.tasks@, p)),
        j == select_idx(queue_strides(pre.manager.ready_queue@, pre.tasks@)),
        0 <= j < pre.manager.ready_queue@.len(),
        pid == pre.manager.ready_queue@[j],
        pids_unique(s4),
        tasks_same_except(s3, s4, pid),
        task_of(s4, pid) == (TaskControlBlock {
            stride: wadd(task_of(s3, pid).stride, BIG_STRIDE / task_of(s3, pid).priority),
            ..task_of(s3, pid)
        }),
        pids_unique(post.tasks@),
        forall|p: usize| has_pid(s4, p) == #[trigger] has_pid(post.tasks@, p),
        forall|p: usize|
            #[trigger] has_pid(s4, p) && p != pid ==> task_of(post.tasks@, p) == task_of(s4, p),
        task_of(post.tasks@, pid) == (TaskControlBlock {
            status: TaskStatus::Running,
            ..task_of(s4, pid)
        }),
        post.manager.ready_queue@ == pre.manager.ready_queue@.remove(j),
        post.current == pid,
        post.root_pid == pre.root_pid,
        post.next_pid == pre.next_pid,
        post.images@ == pre.images@,
    ensures
        post.wf(),
        ({
            let s = pre.tasks@;
            let cur = pre.current;
            let root = pre.root_pid;
            let q = pre.manager.ready_queue@;
            let winner = q[j];
            let t_w = task_of(s, winner);
            &&& winner != cur
            &&& (forall|p: usize| has_pid(s, p) == #[trigger] has_pid(post.tasks@, p))
            &&& task_of(post.tasks@, cur).status == TaskStatus::Zombie
            &&& task_of(post.tasks@, cur).exit_code == code
            &&& task_of(post.tasks@, cur).space.pages@.len() == 0
            &&& (cur != root ==> task_of(post.tasks@, cur).children@.len() == 0)
            &&& (cur != root ==> task_of(post.tasks@, root).children@ == task_of(
                s,
                root,
            ).children@ + kids)
            &&& (cur != root ==> forall|k: int|
                0 <= k < kids.len() ==> task_of(post.tasks@, #[trigger] kids[k]).parent == Some(
                    root,
                ))
            &&& task_of(post.tasks@, winner).status == TaskStatus::Running
            &&& task_of(post.tasks@, winner).stride == wadd(
                t_w.stride,
                BIG_STRIDE / t_w.priority,
            )
            &&& (forall|p: usize|
                #[trigger] has_pid(s, p) && p != cur && p != winner && p != root
                    && !kids.contains(p) ==> task_of(post.tasks@, p) == task_of(s, p))
        }),
{
    let s = pre.tasks@;
    let cur = pre.current;
    let root = pre.root_pid;
    let q = pre.manager.ready_queue@;
    let winner = pid;
    let s5 = post.tasks@;
    lemma_task_idx(s, cur);
    assert(has_pid(s, winner));
    assert(task_of(s, winner).status == TaskStatus::Ready);
    assert(winner != cur);
    assert(!q.contains(cur)) by {
        if q.contains(cur) {
            let k = choose|k: int| 0 <= k < q.len() && q[k] == cur;
            assert(task_of(s, q[k]).status == TaskStatus::Ready);
        }
    }
    lemma_queue_remove(q, j);
    // what every task looks like at the end
    assert forall|p: usize| #[trigger] has_pid(s, p) implies has_pid(s5, p) && ({
        let a = task_of(s, p);
        let m = task_of(s3, p);
        let b = task_of(s5, p);
        &&& b.pid == p
        &&& b.children@ == m.children@
        &&& b.parent == m.parent
        &&& b.space.pages@ == m.space.pages@
        &&& b.exit_code == m.exit_code
        &&& b.priority == a.priority
        &&& b.syscall_times@ == m.syscall_times@
        &&& b.wf()
        &&& b.status == (if p == winner {
            TaskStatus::Running
        } else if p == cur {
            TaskStatus::Zombie
        } else {
            a.status
        })
        &&& b.stride == (if p == winner {
            wadd(a.stride, BIG_STRIDE / a.priority)
        } else {
            a.stride
        })
        &&& (p != cur && p != winner && p != root && !kids.contains(p) ==> b == a)
    }) by {
        assert(has_pid(s3, p));
        assert(has_pid(s4, p));
        lemma_task_idx(s, p);
        assert(s[task_idx(s, p)].wf());
        if p == winner {
            assert(task_of(s4, pid).pid == task_of(s3, pid).pid);
            assert(task_of(s3, pid).pid == p) by {
                lemma_task_idx(s3, p);
            }
        } else {
            assert(task_of(s5, p) == task_of(s4, p));
            assert(task_of(s4, p) == task_of(s3, p));
            lemma_task_idx(s3, p);
        }
    }
    // the winner's old stride and priority come from the pre table
    assert(task_of(s3, winner).stride == task_of(s, winner).stride);
    assert(task_of(s3, winner).priority == task_of(s, winner).priority);
    // invariant conjuncts
    assert forall|i: int| 0 <= i < s5.len() implies (#[trigger] s5[i]).pid < post.next_pid by {
        let p = s5[i].pid;
        assert(has_pid(s5, p));
        assert(has_pid(s4, p));
        assert(has_pid(s3, p));
        assert(has_pid(s, p));
        let w = choose|w: int| 0 <= w < s.len() && s[w].pid == p;
    }
    assert(has_pid(s5, winner));
    assert(task_of(s5, winner).status == TaskStatus::Running);
    assert forall|i: int|
        0 <= i < s5.len() && (#[trigger] s5[i]).status == TaskStatus::Running implies s5[i].pid
        == winner by {
        let p = s5[i].pid;
        assert(has_pid(s5, p));
        assert(has_pid(s4, p));
        assert(has_pid(s3, p));
        assert(has_pid(s, p));
        lemma_task_idx_unique(s5, p, i);
        if p != winner && p != cur {
            assert(task_of(s, p).status == TaskStatus::Running);
            lemma_task_idx(s, p);
            lemma_task_idx_unique(s, p, task_idx(s, p));
        }
    }
    assert forall|kk: int|
        0 <= kk < post.manager.ready_queue@.len() implies has_pid(
        s5,
        #[trigger] post.manager.ready_queue@[kk],
    ) && task_of(s5, post.manager.ready_queue@[kk]).status == TaskStatus::Ready by {
        let x = post.manager.ready_queue@[kk];
        assert(post.manager.ready_queue@.contains(x));
        assert(q.contains(x) && x != winner);
        let k1 = choose|k1: int| 0 <= k1 < q.len() && q[k1] == x;
        assert(has_pid(s, x));
        assert(task_of(s, x).status == TaskStatus::Ready);
        assert(x != cur);
    }
    assert forall|i: int|
        0 <= i < s5.len() && (#[trigger] s5[i]).status == TaskStatus::Ready implies
        post.manager.ready_queue@.contains(s5[i].pid) by {
        let p = s5[i].pid;
        assert(has_pid(s5, p));
        assert(has_pid(s4, p));
        assert(has_pid(s3, p));
        assert(has_pid(s, p));
        lemma_task_idx_unique(s5, p, i);
        assert(p != winner);
        assert(p != cur);
        assert(task_of(s, p).status == TaskStatus::Ready);
        lemma_task_idx(s, p);
        lemma_task_idx_unique(s, p, task_idx(s, p));
        assert(q.contains(p));
    }
    assert forall|i: int| 0 <= i < s5.len() implies (#[trigger] s5[i]).wf() by {
        let p = s5[i].pid;
        assert(has_pid(s5, p));
        assert(has_pid(s4, p));
        assert(has_pid(s3, p));
        assert(has_pid(s, p));
        lemma_task_idx_unique(s5, p, i);
    }
    assert(has_pid(s, root));
    assert(has_pid(s5, root));
    // family links
    assert forall|ii: int, kk: int|
        0 <= ii < s5.len() && 0 <= kk < s5[ii].children@.len() implies {
        &&& has_pid(s5, #[trigger] s5[ii].children@[kk])
        &&& task_of(s5, s5[ii].children@[kk]).parent == Some(s5[ii].pid)
        &&& s5[ii].children@[kk] != post.root_pid
    } by {
        let p = s5[ii].pid;
        assert(has_pid(s5, p));
        assert(has_pid(s4, p));
        assert(has_pid(s3, p));
        assert(has_pid(s, p));
        lemma_task_idx_unique(s5, p, ii);
        let cc = s5[ii].children@[kk];
        assert(s5[ii].children@ == task_of(s3, p).children@);
        lemma_task_idx(s, p);
        let oi = task_idx(s, p);
        lemma_task_idx(s, cur);
        assert(s[task_idx(s, cur)].children@ == kids);
        if p == cur && cur != root {
            assert(task_of(s3, p).children@.len() == 0);
        } else if p == root && cur != root {
            let rc = task_of(s, root).children@;
            assert(task_of(s3, p).children@ == rc + kids);
            if kk < rc.len() {
                assert(cc == rc[kk]);
                lemma_task_idx(s, root);
                assert(s[task_idx(s, root)].children@ == rc);
                assert(has_pid(s, cc));
                assert(task_of(s, cc).parent == Some(root));
                assert(cc != root);
                if kids.contains(cc) {
                    assert(task_of(s5, cc).parent == Some(root));
                } else {
                    assert(task_of(s5, cc).parent == task_of(s3, cc).parent);
                }
                assert(task_of(s5, cc).parent == Some(root));
            } else {
                assert(cc == kids[kk - rc.len()]);
                assert(has_pid(s, cc));
                assert(kids.contains(cc));
                assert(task_of(s3, cc).parent == Some(root));
                assert(task_of(s5, cc).parent == Some(root));
                assert(cc != root);
            }
        } else {
            // p's list is untouched
            assert(task_of(s3, p).children@ == task_of(s, p).children@);
            assert(cc == s[oi].children@[kk]);
            assert(has_pid(s, cc));
            assert(task_of(s, cc).parent == Some(p));
            assert(cc != root);
            if cur != root && kids.contains(cc) {
                assert(task_of(s, cc).parent == Some(cur));
                assert(p == cur);
                assert(false);
            }
            assert(task_of(s5, cc).parent == task_of(s3, cc).parent);
            assert(task_of(s3, cc).parent == task_of(s, cc).parent);
        }
    }
    // the bundle for the caller
    assert(task_of(s5, cur).status == TaskStatus::Zombie);
    assert(task_of(s5, cur).exit_code == code);
    assert(task_of(s5, cur).space.pages@.len() == 0);
    if cur != root {
        assert forall|k: int| 0 <= k < kids.len() implies task_of(
            s5,
            #[trigger] kids[k],
        ).parent == Some(root) by {
            lemma_task_idx(s, cur);
            assert(s[task_idx(s, cur)].children@ == kids);
            assert(has_pid(s, kids[k]));
            assert(kids.contains(kids[k]));
            assert(task_of(s3, kids[k]).parent == Some(root));
        }
    }
}

/// An element-for-element copy of a counter table.
fn clone_counters(v: &Vec<u32>) -> (r: Vec<u32>)
    ensures
        r@ == v@,
{
    let mut r: Vec<u32> = Vec::new();
    let mut i: usize = 0;
    while i < v.len()
        invariant
            i <= v@.len(),
            r@ == v@.take(i as int),
        decreases v@.len() - i,
    {
        r.push(v[i]);
        proof {
            assert(r@ =~= v@.take(i + 1));
        }
        i += 1;
    }
    proof {
        assert(v@.take(v@.len() as int) =~= v@);
    }
    r
}

} // verus!
