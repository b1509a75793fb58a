//! The process control block and the plain structures the syscall facade
//! hands back to user programs.

use vstd::prelude::*;
use crate::mem::AddressSpace;

verus! {

/// Number of syscall slots in the per-task invocation counter table.
pub const MAX_SYSCALL_NUM: usize = 500;

/// Scheduling priority every new task starts with.
pub const DEFAULT_PRIORITY: u64 = 16;

/// Where a task stands in its life cycle. A task is never observed blocked:
/// waiting is done by the parent re-polling, not by suspending the child.
#[derive(Clone, Copy, PartialEq, Eq, Debug, Structural)]
pub enum TaskStatus {
    Ready,
    Running,
    Zombie,
}

/// The saved user-mode control-flow state of a task: where it resumes, its
/// stack top, and the register in which it observes a syscall's return value.
#[derive(Clone, Copy, PartialEq, Eq, Structural)]
pub struct TrapContext {
    pub entry: usize,
    pub sp: usize,
    pub a0: usize,
}

/// Wall-clock time split into seconds and microseconds.
#[derive(Clone, Copy, PartialEq, Eq, Debug, Structural)]
pub struct TimeVal {
    pub sec: usize,
    pub usec: usize,
}

/// What a task learns about itself: its status, its per-syscall invocation
/// counts, and its elapsed running time in milliseconds.
pub struct TaskInfo {
    pub status: TaskStatus,
    pub syscall_times: Vec<u32>,
    pub time: usize,
}

/// The process control block: the unit of scheduling and bookkeeping for one
/// running program.
pub struct TaskControlBlock {
    /// Unique while any reference to this block is outstanding.
    pub pid: usize,
    pub status: TaskStatus,
    /// Non-owning back reference to the parent, by process id.
    pub parent: Option<usize>,
    /// Owned children, by process id, in the order they were created.
    pub children: Vec<usize>,
    /// Exclusively owned address space; replaced whole by exec.
    pub space: AddressSpace,
    /// Saved user-mode register state; seeded by fork/exec/spawn.
    pub trap_cx: TrapContext,
    /// Virtual-time counter of the stride scheduler; wraps modulo 2^64.
    pub stride: u64,
    /// Scheduling priority; values below 2 are rejected at assignment time.
    pub priority: u64,
    /// Invocation counter per syscall number.
    pub syscall_times: Vec<u32>,
    /// Wall-clock start timestamp, milliseconds.
    pub start_time_ms: usize,
    /// Valid only once the task is a zombie.
    pub exit_code: i32,
}

impl TaskControlBlock {
    /// Per-task invariant: a sound address space, a priority that keeps the
    /// stride pass size positive and bounded, a full counter table, and no
    /// child listed twice.
    pub open spec fn wf(self) -> bool {
        &&& self.space.wf()
        &&& self.priority >= 2
        &&& self.syscall_times@.len() == MAX_SYSCALL_NUM
        &&& forall|i: int, j: int|
            0 <= i < j < self.children@.len() ==> self.children@[i] != self.children@[j]
    }
}

/// No process id occurs twice in the table.
pub open spec fn pids_unique(s: Seq<TaskControlBlock>) -> bool {
    forall|i: int, j: int| 0 <= i < j < s.len() ==> s[i].pid != s[j].pid
}

/// Some task of the table carries this process id.
pub open spec fn has_pid(s: Seq<TaskControlBlock>, pid: usize) -> bool {
    exists|i: int| 0 <= i < s.len() && s[i].pid == pid
}

/// An index of the table whose task carries this process id.
pub open spec fn task_idx(s: Seq<TaskControlBlock>, pid: usize) -> int {
    choose|i: int| 0 <= i < s.len() && s[i].pid == pid
}

/// The task of the table that carries this process id.
pub open spec fn task_of(s: Seq<TaskControlBlock>, pid: usize) -> TaskControlBlock {
    s[task_idx(s, pid)]
}

/// A present process id names a real index.
pub proof fn lemma_task_idx(s: Seq<TaskControlBlock>, pid: usize)
    requires
        has_pid(s, pid),
    ensures
        0 <= task_idx(s, pid) < s.len(),
        s[task_idx(s, pid)].pid == pid,
        task_of(s, pid).pid == pid,
{
}

/// With unique process ids, any index carrying the id is the index.
pub proof fn lemma_task_idx_unique(s: Seq<TaskControlBlock>, pid: usize, i: int)
    requires
        pids_unique(s),
        0 <= i < s.len(),
        s[i].pid == pid,
    ensures
        task_idx(s, pid) == i,
        task_of(s, pid) == s[i],
{
    assert(has_pid(s, pid));
    lemma_task_idx(s, pid);
    let j = task_idx(s, pid);
    if i < j {
        assert(s[i].pid != s[j].pid);
    } else if j < i {
        assert(s[j].pid != s[i].pid);
    }
}

/// Scan the table for the task with this process id.
pub fn find_task(tasks: &Vec<TaskControlBlock>, pid: usize) -> (r: Option<usize>)
    ensures
        match r {
            Some(i) => i < tasks@.len() && tasks@[i as int].pid == pid,
            None => !has_pid(tasks@, pid),
        },
{
    let mut i: usize = 0;
    while i < tasks.len()
        invariant
            i <= tasks@.len(),
            forall|k: int| 0 <= k < i ==> tasks@[k].pid != pid,
        decreases tasks@.len() - i,
    {
        if tasks[i].pid == pid {
            return Some(i);
        }
        i += 1;
    }
    None
}

} // verus!
