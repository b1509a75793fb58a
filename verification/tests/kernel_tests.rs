use kernel_core::kernel::Kernel;
use kernel_core::kernel::sys_get_time;
use kernel_core::mem::PAGE_SIZE;
use kernel_core::sched::BIG_STRIDE;
use kernel_core::task::TaskInfo;
use kernel_core::task::TaskStatus;
use kernel_core::task::TimeVal;

fn task_index(k: &Kernel, pid: usize) -> usize {
    k.tasks.iter().position(|t| t.pid == pid).expect("pid not in table")
}

fn page_mapped(k: &Kernel, pid: usize, vpn: usize) -> bool {
    k.tasks[task_index(k, pid)].space.pages.iter().any(|e| e.vpn == vpn)
}

fn mapped_page_count(k: &Kernel, pid: usize) -> usize {
    k.tasks[task_index(k, pid)].space.pages.len()
}

#[test]
fn mmap_munmap_round_trip() {
    let mut k = Kernel::new();
    let start = 16 * PAGE_SIZE;
    let len = 3 * PAGE_SIZE + 1;
    assert_eq!(k.sys_mmap(start, len, 0x3), 0);
    assert_eq!(mapped_page_count(&k, 0), 4);
    assert!(page_mapped(&k, 0, 16));
    assert!(page_mapped(&k, 0, 19));
    assert_eq!(k.sys_munmap(start, len), 0);
    assert_eq!(mapped_page_count(&k, 0), 0);
}

#[test]
fn mmap_round_trip_keeps_other_pages() {
    let mut k = Kernel::new();
    assert_eq!(k.sys_mmap(100 * PAGE_SIZE, PAGE_SIZE, 0x1), 0);
    assert_eq!(k.sys_mmap(0, 2 * PAGE_SIZE, 0x7), 0);
    assert_eq!(k.sys_munmap(0, 2 * PAGE_SIZE), 0);
    assert_eq!(mapped_page_count(&k, 0), 1);
    assert!(page_mapped(&k, 0, 100));
}

#[test]
fn mmap_overlap_is_atomic() {
    let mut k = Kernel::new();
    // map one page in the middle of the range the big request will ask for
    assert_eq!(k.sys_mmap(2 * PAGE_SIZE, PAGE_SIZE, 0x3), 0);
    // the larger request overlaps it and must fail without mapping anything
    assert_eq!(k.sys_mmap(0, 5 * PAGE_SIZE, 0x3), -1);
    for vpn in 0..5 {
        assert_eq!(page_mapped(&k, 0, vpn), vpn == 2);
    }
}

#[test]
fn mmap_rejects_bad_arguments() {
    let mut k = Kernel::new();
    assert_eq!(k.sys_mmap(0, PAGE_SIZE, 0x8), -1); // dirty bit above bit2
    assert_eq!(k.sys_mmap(0, PAGE_SIZE, 0x17), -1); // dirty bits with low bits
    assert_eq!(k.sys_mmap(0, PAGE_SIZE, 0x0), -1); // meaningless mapping
    assert_eq!(k.sys_mmap(1, PAGE_SIZE, 0x3), -1); // unaligned start
    assert_eq!(k.sys_mmap(0, 0, 0x3), 0); // zero length is a no-op success
    assert_eq!(k.sys_mmap(0, 0x40000001, 0x3), -1); // above the 1 GiB ceiling
    assert_eq!(mapped_page_count(&k, 0), 0);
}

#[test]
fn munmap_partial_range_fails_untouched() {
    let mut k = Kernel::new();
    assert_eq!(k.sys_mmap(0, PAGE_SIZE, 0x3), 0);
    // the second page of the range is not mapped: no partial unmap
    assert_eq!(k.sys_munmap(0, 2 * PAGE_SIZE), -1);
    assert!(page_mapped(&k, 0, 0));
    assert_eq!(k.sys_munmap(PAGE_SIZE, PAGE_SIZE), -1);
    assert!(page_mapped(&k, 0, 0));
    assert_eq!(k.sys_munmap(1, PAGE_SIZE), -1); // unaligned start
    assert_eq!(k.sys_munmap(0, 0), 0); // zero length is a no-op success
    assert!(page_mapped(&k, 0, 0));
}

#[test]
fn scheduler_share_follows_priority() {
    let mut k = Kernel::new();
    let a = k.sys_fork() as usize;
    let b = k.sys_fork() as usize;
    let ia = task_index(&k, a);
    k.tasks[ia].priority = 2;
    let ib = task_index(&k, b);
    k.tasks[ib].priority = 4;
    let mut picks_a = 0u32;
    let mut picks_b = 0u32;
    for _ in 0..90 {
        let pid = k.fetch_task();
        if pid == a {
            picks_a += 1;
        } else {
            assert_eq!(pid, b);
            picks_b += 1;
        }
        k.add_task(pid);
    }
    // pass size is BIG_STRIDE / priority, so selection frequency is
    // proportional to priority: b should run about twice as often as a
    assert!(picks_a + picks_b == 90);
    assert!(picks_b >= 2 * picks_a - 2);
    assert!(picks_b <= 2 * picks_a + 2);
}

#[test]
fn fetch_advances_stride_by_one_pass() {
    let mut k = Kernel::new();
    let a = k.sys_fork() as usize;
    let ia = task_index(&k, a);
    k.tasks[ia].priority = 5;
    let before = k.tasks[ia].stride;
    let pid = k.fetch_task();
    assert_eq!(pid, a);
    let ia = task_index(&k, a);
    assert_eq!(k.tasks[ia].stride, before.wrapping_add(BIG_STRIDE / 5));
}

#[test]
fn stride_wraparound_orders_by_wrapped_difference() {
    let mut k = Kernel::new();
    let a = k.sys_fork() as usize;
    let b = k.sys_fork() as usize;
    // a sits just below the wrap boundary, b has already wrapped past it:
    // in temporal order a is behind b, though its raw value is far larger
    let ia = task_index(&k, a);
    k.tasks[ia].stride = u64::MAX - 10;
    let ib = task_index(&k, b);
    k.tasks[ib].stride = 5;
    let pid = k.fetch_task();
    assert_eq!(pid, a);
}

#[test]
fn fork_return_values() {
    let mut k = Kernel::new();
    let r = k.sys_fork();
    // the parent observes the child's pid
    assert_eq!(r, 1);
    let ic = task_index(&k, 1);
    // the child, on its first resumption, observes exactly 0
    assert_eq!(k.tasks[ic].trap_cx.a0, 0);
    assert_eq!(k.tasks[ic].status, TaskStatus::Ready);
    assert_eq!(k.tasks[ic].parent, Some(0));
    // the parent's children list gained the child
    assert_eq!(k.tasks[task_index(&k, 0)].children, vec![1]);
}

#[test]
fn waitpid_three_outcomes() {
    let mut k = Kernel::new();
    let mut ec: i32 = 0;
    // zero children: "no such child"
    assert_eq!(k.sys_waitpid(-1, &mut ec), -1);
    let child = k.sys_fork();
    assert_eq!(child, 1);
    // a child exists but has not exited: "not yet exited"
    assert_eq!(k.sys_waitpid(-1, &mut ec), -2);
    assert_eq!(k.sys_waitpid(1, &mut ec), -2);
    // no child carries pid 7
    assert_eq!(k.sys_waitpid(7, &mut ec), -1);
    // run the child and let it exit
    assert_eq!(k.sys_yield(), 0);
    assert_eq!(k.sys_getpid(), 1);
    k.sys_exit(42);
    assert_eq!(k.sys_getpid(), 0);
    let children_before = k.tasks[task_index(&k, 0)].children.len();
    assert_eq!(k.sys_waitpid(-1, &mut ec), 1);
    assert_eq!(ec, 42);
    assert_eq!(k.tasks[task_index(&k, 0)].children.len(), children_before - 1);
    // the reaped child is deallocated: no table entry remains
    assert!(k.tasks.iter().all(|t| t.pid != 1));
}

#[test]
fn exit_reparents_children_to_root() {
    let mut k = Kernel::new();
    let c1 = k.sys_fork();
    assert_eq!(c1, 1);
    k.sys_yield();
    assert_eq!(k.sys_getpid(), 1);
    let g = k.sys_fork();
    assert_eq!(g, 2);
    k.sys_exit(0);
    // the grandchild was re-parented to the root, never orphaned
    let ig = task_index(&k, 2);
    assert_eq!(k.tasks[ig].parent, Some(0));
    assert!(k.tasks[task_index(&k, 0)].children.contains(&2));
    // the zombie keeps its identity and exit code until reaped
    let i1 = task_index(&k, 1);
    assert_eq!(k.tasks[i1].status, TaskStatus::Zombie);
    let mut ec: i32 = 0;
    assert_eq!(k.sys_waitpid(1, &mut ec), 1);
    assert_eq!(ec, 0);
}

#[test]
fn set_priority_validation_and_effect() {
    let mut k = Kernel::new();
    assert_eq!(k.sys_set_priority(1), -1);
    assert_eq!(k.sys_set_priority(0), -1);
    assert_eq!(k.sys_set_priority(-5), -1);
    assert_eq!(k.sys_set_priority(2), 2);
    assert_eq!(k.tasks[task_index(&k, 0)].priority, 2);
    // subsequent scheduling reflects the new pass size
    k.sys_yield();
    assert_eq!(k.tasks[task_index(&k, 0)].stride, BIG_STRIDE / 2);
}

#[test]
fn exec_replaces_image_in_place() {
    let mut k = Kernel::new();
    k.register_image(b"init".to_vec(), 0x8040);
    assert_eq!(k.sys_exec(&b"absent".to_vec()), -1);
    let r = k.sys_fork();
    assert_eq!(r, 1);
    assert_eq!(k.sys_exec(&b"init".to_vec()), 0);
    let i0 = task_index(&k, 0);
    // same pid and children, new trap context and empty address space
    assert_eq!(k.tasks[i0].pid, 0);
    assert_eq!(k.tasks[i0].children, vec![1]);
    assert_eq!(k.tasks[i0].trap_cx.entry, 0x8040);
    assert_eq!(k.tasks[i0].trap_cx.a0, 0);
    assert_eq!(k.tasks[i0].space.pages.len(), 0);
}

#[test]
fn spawn_creates_child_from_image() {
    let mut k = Kernel::new();
    k.register_image(b"worker".to_vec(), 0x5000);
    assert_eq!(k.sys_spawn(&b"missing".to_vec()), -1);
    k.sys_mmap(0, PAGE_SIZE, 0x3);
    let pid = k.sys_spawn(&b"worker".to_vec());
    assert_eq!(pid, 1);
    let ic = task_index(&k, 1);
    assert_eq!(k.tasks[ic].status, TaskStatus::Ready);
    assert_eq!(k.tasks[ic].parent, Some(0));
    assert_eq!(k.tasks[ic].trap_cx.entry, 0x5000);
    assert_eq!(k.tasks[ic].trap_cx.a0, 0);
    // no wasted copy of the parent's memory, unlike fork-then-exec
    assert_eq!(k.tasks[ic].space.pages.len(), 0);
}

#[test]
fn sbrk_returns_previous_break() {
    let mut k = Kernel::new();
    assert_eq!(k.sys_sbrk(100), 0);
    assert_eq!(k.sys_sbrk(0), 100);
    assert_eq!(k.sys_sbrk(-40), 100);
    assert_eq!(k.sys_sbrk(0), 60);
    // moving below the heap base fails with no mutation
    assert_eq!(k.sys_sbrk(-100), -1);
    assert_eq!(k.sys_sbrk(0), 60);
}

#[test]
fn get_time_splits_microseconds() {
    let mut tv = TimeVal { sec: 0, usec: 0 };
    assert_eq!(sys_get_time(&mut tv, 3_500_001, 0), 0);
    assert_eq!(tv.sec, 3);
    assert_eq!(tv.usec, 500_001);
    assert_eq!(sys_get_time(&mut tv, 999_999, 0), 0);
    assert_eq!(tv.sec, 0);
    assert_eq!(tv.usec, 999_999);
}

#[test]
fn task_info_reports_counts_and_time() {
    let mut k = Kernel::new();
    k.record_syscall(64);
    k.record_syscall(64);
    k.record_syscall(93);
    let mut ti = TaskInfo { status: TaskStatus::Ready, syscall_times: Vec::new(), time: 0 };
    assert_eq!(k.sys_task_info(&mut ti, 250), 0);
    assert_eq!(ti.status, TaskStatus::Running);
    assert_eq!(ti.syscall_times[64], 2);
    assert_eq!(ti.syscall_times[93], 1);
    assert_eq!(ti.syscall_times[0], 0);
    assert_eq!(ti.time, 250);
}

#[test]
fn getpid_and_yield() {
    let mut k = Kernel::new();
    assert_eq!(k.sys_getpid(), 0);
    // with no other ready task, yielding reschedules the same task
    assert_eq!(k.sys_yield(), 0);
    assert_eq!(k.sys_getpid(), 0);
    let c = k.sys_fork();
    k.sys_yield();
    assert_eq!(k.sys_getpid(), c);
}
