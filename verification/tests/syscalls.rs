use os::config::{
    IDLE_PID, MAX_SYSCALL_NUM, PAGE_SIZE, SYSCALL_EXEC, SYSCALL_EXIT, SYSCALL_FORK, SYSCALL_GETPID,
    SYSCALL_GET_TIME, SYSCALL_MMAP, SYSCALL_SET_PRIORITY, SYSCALL_SPAWN, SYSCALL_TASK_INFO,
    SYSCALL_WAITPID, SYSCALL_WRITE, SYSCALL_YIELD,
};
use os::kernel::Kernel;
use os::mm::{MapArea, MemorySet, VirtAddr};
use os::process::{
    addinfo, sys_exec, sys_exit, sys_fork, sys_get_time, sys_getpid, sys_mmap, sys_set_priority,
    sys_spawn, sys_task_info, sys_waitpid, sys_yield, TaskInfo, TimeVal,
};
use os::task::TaskStatus;

fn area(start_vpn: usize, end_vpn: usize) -> MapArea {
    MapArea { start_vpn, end_vpn, perm: 22 }
}

fn space(areas: &[MapArea]) -> MemorySet {
    let mut ms = MemorySet::new_bare();
    for a in areas {
        ms.insert_framed_area(VirtAddr(a.start_vpn * PAGE_SIZE), VirtAddr(a.end_vpn * PAGE_SIZE), a.perm);
    }
    ms
}

/// A kernel whose first task (pid 0) runs since time `start_us`, with one text area and its
/// heap at 0x8000.
fn booted(start_us: usize) -> Kernel {
    let mut k = Kernel::new(space(&[area(1, 2)]), 0x8000);
    assert!(k.can_run_next());
    assert!(k.run_next(start_us));
    assert_eq!(k.current_pid(), Some(IDLE_PID));
    k
}

fn times(k: &Kernel, pid: usize) -> [u32; MAX_SYSCALL_NUM] {
    k.task(pid).unwrap().syscall_times
}

fn children(k: &Kernel, pid: usize) -> Vec<usize> {
    k.task(pid).unwrap().children.clone()
}

fn blank_info() -> TaskInfo {
    TaskInfo { status: TaskStatus::Zombie, syscall_times: [7; MAX_SYSCALL_NUM], time: 0 }
}

/// Runs the next task, which must be `pid`.
fn switch_to(k: &mut Kernel, pid: usize, now_us: usize) {
    assert!(k.can_run_next());
    assert!(k.run_next(now_us));
    assert_eq!(k.current_pid(), Some(pid));
}

#[test]
fn addinfo_counts_any_syscall_by_id() {
    let mut k = booted(0);
    assert_eq!(addinfo(&mut k, SYSCALL_WRITE), 0);
    assert_eq!(addinfo(&mut k, SYSCALL_WRITE), 0);
    assert_eq!(addinfo(&mut k, SYSCALL_EXIT), 0);
    assert_eq!(addinfo(&mut k, MAX_SYSCALL_NUM + 3), 0);
    let t = times(&k, IDLE_PID);
    assert_eq!(t[SYSCALL_WRITE], 2);
    assert_eq!(t[SYSCALL_EXIT], 1);
    assert_eq!(t.iter().map(|&c| c as usize).sum::<usize>(), 3);
}

#[test]
fn every_syscall_is_counted_by_its_id() {
    let mut k = booted(0);
    assert_eq!(sys_getpid(&mut k), 0);
    assert_eq!(sys_getpid(&mut k), 0);
    let mut ts = TimeVal { sec: 9, usec: 9 };
    assert_eq!(sys_get_time(&mut k, &mut ts, 0, 5), 0);
    assert_eq!(sys_set_priority(&mut k, 1), -1);
    assert_eq!(sys_mmap(&mut k, 0x5000, 0x1000, 3), 0);
    let mut ti = blank_info();
    assert_eq!(sys_task_info(&mut k, &mut ti, 10), 0);
    assert_eq!(ti.syscall_times[SYSCALL_GETPID], 2);
    assert_eq!(ti.syscall_times[SYSCALL_GET_TIME], 1);
    assert_eq!(ti.syscall_times[SYSCALL_SET_PRIORITY], 1);
    assert_eq!(ti.syscall_times[SYSCALL_MMAP], 1);
    assert_eq!(ti.syscall_times[SYSCALL_TASK_INFO], 1);
    assert_eq!(ti.syscall_times.iter().map(|&c| c as usize).sum::<usize>(), 6);
}

#[test]
fn get_time_splits_microseconds() {
    let mut k = booted(0);
    let mut ts = TimeVal { sec: 0, usec: 0 };
    assert_eq!(sys_get_time(&mut k, &mut ts, 0, 3_500_123), 0);
    assert_eq!((ts.sec, ts.usec), (3, 500_123));
    assert_eq!(sys_get_time(&mut k, &mut ts, 0, 999_999), 0);
    assert_eq!((ts.sec, ts.usec), (0, 999_999));
    assert_eq!(times(&k, IDLE_PID)[SYSCALL_GET_TIME], 2);
}

#[test]
fn time_never_goes_back() {
    let mut k = booted(0);
    let mut earlier = TimeVal { sec: 0, usec: 0 };
    let mut later = TimeVal { sec: 0, usec: 0 };
    for (a, b) in [(999_999, 1_000_000), (5, 5), (1_000_001, 2_000_000), (0, 1)] {
        sys_get_time(&mut k, &mut earlier, 0, a);
        sys_get_time(&mut k, &mut later, 0, b);
        assert!((earlier.sec, earlier.usec) <= (later.sec, later.usec));
    }
}

#[test]
fn task_info_reports_status_counts_and_running_time() {
    let mut k = booted(1_000_000);
    let mut ti = blank_info();
    assert_eq!(sys_task_info(&mut k, &mut ti, 3_345_678), 0);
    assert_eq!(ti.status, TaskStatus::Running);
    assert_eq!(ti.time, 2_345);
    assert_eq!(ti.syscall_times[SYSCALL_TASK_INFO], 1);
    assert_eq!(ti.syscall_times[0], 0);
    assert_eq!(sys_task_info(&mut k, &mut ti, 3_346_000), 0);
    assert_eq!(ti.syscall_times[SYSCALL_TASK_INFO], 2);
    assert_eq!(ti.time, 2_346);
    assert_eq!(ti.syscall_times.iter().map(|&c| c as usize).sum::<usize>(), 2);
}

#[test]
fn running_time_counts_from_the_first_run() {
    let mut k = booted(0);
    assert_eq!(sys_fork(&mut k), 1);
    assert_eq!(sys_yield(&mut k), 0);
    switch_to(&mut k, 1, 4_000_000);
    assert_eq!(sys_yield(&mut k), 0);
    switch_to(&mut k, IDLE_PID, 5_000_000);
    assert_eq!(sys_yield(&mut k), 0);
    switch_to(&mut k, 1, 6_000_000);
    let mut ti = blank_info();
    assert_eq!(sys_task_info(&mut k, &mut ti, 6_500_000), 0);
    assert_eq!(ti.time, 2_500);
    assert_eq!(k.task(1).unwrap().first_run_us, Some(4_000_000));
}

#[test]
fn set_priority_rejects_small_values() {
    let mut k = booted(0);
    assert_eq!(sys_set_priority(&mut k, 1), -1);
    assert_eq!(sys_set_priority(&mut k, 0), -1);
    assert_eq!(sys_set_priority(&mut k, -5), -1);
    let t = k.task(IDLE_PID).unwrap();
    assert_eq!((t.priority, t.stride), (16, 625));
    assert_eq!(t.syscall_times[SYSCALL_SET_PRIORITY], 3);
}

#[test]
fn set_priority_resets_stride() {
    let mut k = booted(0);
    assert_eq!(sys_set_priority(&mut k, 2), 2);
    assert_eq!((k.task(0).unwrap().priority, k.task(0).unwrap().stride), (2, 5000));
    assert_eq!(sys_set_priority(&mut k, 3), 3);
    assert_eq!((k.task(0).unwrap().priority, k.task(0).unwrap().stride), (3, 3333));
}

#[test]
fn getpid_reports_the_running_task() {
    let mut k = booted(0);
    assert_eq!(sys_fork(&mut k), 1);
    assert_eq!(sys_yield(&mut k), 0);
    switch_to(&mut k, 1, 1);
    assert_eq!(sys_getpid(&mut k), 1);
    assert_eq!(times(&k, 1)[SYSCALL_GETPID], 1);
    assert_eq!(times(&k, IDLE_PID)[SYSCALL_GETPID], 0);
}

#[test]
fn waitpid_without_children_fails() {
    let mut k = booted(0);
    let mut code = 99;
    assert_eq!(sys_waitpid(&mut k, -1, &mut code), -1);
    assert_eq!(code, 99);
    assert_eq!(times(&k, IDLE_PID)[SYSCALL_WAITPID], 1);
}

#[test]
fn waitpid_for_a_running_child_returns_minus_two() {
    let mut k = booted(0);
    assert_eq!(sys_fork(&mut k), 1);
    let mut code = 99;
    assert_eq!(sys_waitpid(&mut k, 1, &mut code), -2);
    assert_eq!(sys_waitpid(&mut k, -1, &mut code), -2);
    assert_eq!(sys_waitpid(&mut k, 5, &mut code), -1);
    assert_eq!(children(&k, IDLE_PID), vec![1]);
    assert_eq!(code, 99);
}

#[test]
fn fork_queues_the_child_that_the_parent_records() {
    let mut k = booted(0);
    assert!(k.can_alloc_pid());
    assert_eq!(sys_getpid(&mut k), 0);
    assert_eq!(sys_fork(&mut k), 1);
    assert_eq!(k.ready_pids(), vec![1]);
    assert_eq!(children(&k, IDLE_PID), vec![1]);
    assert_eq!(times(&k, IDLE_PID)[SYSCALL_FORK], 1);
    let child = k.task(1).unwrap();
    assert_eq!(child.pid, 1);
    assert_eq!(child.task_status, TaskStatus::Ready);
    assert_eq!(child.trap_a0, 0);
    assert_eq!(child.parent, Some(IDLE_PID));
    assert_eq!(child.memory_set.areas().clone(), vec![area(1, 2)]);
    assert_eq!((child.heap_bottom, child.program_brk), (0x8000, 0x8000));
    assert_eq!(child.syscall_times.iter().map(|&c| c as usize).sum::<usize>(), 0);
    assert_eq!((child.priority, child.stride), (16, 0));
    assert_eq!(child.first_run_us, None);
    assert_eq!(sys_fork(&mut k), 2);
    assert_eq!(k.ready_pids(), vec![1, 2]);
    assert_eq!(children(&k, IDLE_PID), vec![1, 2]);
}

#[test]
fn exec_replaces_the_address_space() {
    let mut k = booted(0);
    assert_eq!(sys_exec(&mut k, Some(space(&[area(7, 9)]))), 0);
    let t = k.task(IDLE_PID).unwrap();
    assert_eq!(t.memory_set.areas().clone(), vec![area(7, 9)]);
    assert_eq!(t.trap_a0, 0);
    assert_eq!(t.syscall_times[SYSCALL_EXEC], 1);
    assert_eq!(t.syscall_times[SYSCALL_EXIT], 0);
}

#[test]
fn exec_of_a_missing_program_fails() {
    let mut k = booted(0);
    assert_eq!(sys_exec(&mut k, None), -1);
    let t = k.task(IDLE_PID).unwrap();
    assert_eq!(t.memory_set.areas().clone(), vec![area(1, 2)]);
    assert_eq!(t.syscall_times[SYSCALL_EXEC], 1);
    assert_eq!(t.syscall_times[SYSCALL_EXIT], 0);
}

#[test]
fn spawn_runs_the_program_in_the_recorded_child() {
    let mut k = booted(0);
    assert_eq!(sys_spawn(&mut k, Some(space(&[area(3, 4)]))), 1);
    assert_eq!(k.ready_pids(), vec![1]);
    assert_eq!(children(&k, IDLE_PID), vec![1]);
    let child = k.task(1).unwrap();
    assert_eq!(child.memory_set.areas().clone(), vec![area(3, 4)]);
    assert_eq!(child.parent, Some(IDLE_PID));
    assert_eq!(k.task(IDLE_PID).unwrap().memory_set.areas().clone(), vec![area(1, 2)]);
    assert_eq!(times(&k, IDLE_PID)[SYSCALL_SPAWN], 1);
}

#[test]
fn spawn_of_a_missing_program_creates_nothing() {
    let mut k = booted(0);
    assert_eq!(sys_spawn(&mut k, None), -1);
    assert!(k.ready_pids().is_empty());
    assert!(children(&k, IDLE_PID).is_empty());
    assert!(k.task(1).is_none());
    assert_eq!(times(&k, IDLE_PID)[SYSCALL_SPAWN], 1);
    assert_eq!(sys_fork(&mut k), 1);
}

#[test]
fn exit_makes_a_zombie_and_hands_children_to_the_first_task() {
    let mut k = booted(0);
    assert_eq!(sys_fork(&mut k), 1);
    assert_eq!(sys_yield(&mut k), 0);
    switch_to(&mut k, 1, 1);
    assert_eq!(sys_fork(&mut k), 2);
    assert_eq!(sys_fork(&mut k), 3);
    assert!(!sys_exit(&mut k, 17));
    assert_eq!(k.current_pid(), None);
    let t = k.task(1).unwrap();
    assert_eq!(t.task_status, TaskStatus::Zombie);
    assert_eq!(t.exit_code, 17);
    assert_eq!(t.syscall_times[SYSCALL_EXIT], 1);
    assert!(t.children.is_empty());
    assert!(t.memory_set.areas().is_empty());
    assert_eq!(children(&k, IDLE_PID), vec![1, 2, 3]);
    assert_eq!(k.task(2).unwrap().parent, Some(IDLE_PID));
    assert_eq!(k.task(3).unwrap().parent, Some(IDLE_PID));
    assert_eq!(k.ready_pids(), vec![IDLE_PID, 2, 3]);
}

#[test]
fn exit_of_the_first_task_shuts_down() {
    let mut k = booted(0);
    assert!(sys_exit(&mut k, 3));
    let t = k.task(IDLE_PID).unwrap();
    assert_eq!(t.task_status, TaskStatus::Running);
    assert_eq!(t.syscall_times[SYSCALL_EXIT], 1);
    assert_eq!(k.current_pid(), Some(IDLE_PID));
}

#[test]
fn exited_child_is_reaped_by_its_parent() {
    let mut k = booted(0);
    assert_eq!(sys_fork(&mut k), 1);
    assert_eq!(sys_yield(&mut k), 0);
    switch_to(&mut k, 1, 1);
    assert!(!sys_exit(&mut k, 3));
    switch_to(&mut k, IDLE_PID, 2);
    let mut code = 0;
    assert_eq!(sys_waitpid(&mut k, 1, &mut code), 1);
    assert_eq!(code, 3);
    assert!(children(&k, IDLE_PID).is_empty());
    assert!(k.task(1).is_none());
    assert_eq!(sys_waitpid(&mut k, 1, &mut code), -1);
    assert_eq!(code, 3);
}

#[test]
fn a_reaped_pid_is_handed_out_again() {
    let mut k = booted(0);
    assert_eq!(sys_fork(&mut k), 1);
    assert_eq!(sys_fork(&mut k), 2);
    assert_eq!(sys_yield(&mut k), 0);
    switch_to(&mut k, 1, 1);
    assert!(!sys_exit(&mut k, 0));
    switch_to(&mut k, 2, 2);
    assert_eq!(sys_yield(&mut k), 0);
    switch_to(&mut k, IDLE_PID, 3);
    let mut code = 9;
    assert_eq!(sys_waitpid(&mut k, -1, &mut code), 1);
    assert_eq!(code, 0);
    assert_eq!(sys_fork(&mut k), 1);
    assert_eq!(sys_fork(&mut k), 3);
    assert_eq!(children(&k, IDLE_PID), vec![2, 1, 3]);
}

#[test]
fn waitpid_for_any_child_reaps_exited_children_in_order() {
    let mut k = booted(0);
    for pid in 1..4 {
        assert_eq!(sys_fork(&mut k), pid as isize);
    }
    assert_eq!(sys_yield(&mut k), 0);
    switch_to(&mut k, 1, 1);
    assert!(!sys_exit(&mut k, 5));
    switch_to(&mut k, 2, 2);
    assert!(!sys_exit(&mut k, -7));
    switch_to(&mut k, 3, 3);
    assert_eq!(sys_yield(&mut k), 0);
    switch_to(&mut k, IDLE_PID, 4);
    let mut code = 0;
    assert_eq!(sys_waitpid(&mut k, -1, &mut code), 1);
    assert_eq!(code, 5);
    assert_eq!(sys_waitpid(&mut k, -1, &mut code), 2);
    assert_eq!(code, -7);
    assert_eq!(sys_waitpid(&mut k, -1, &mut code), -2);
    assert_eq!(sys_waitpid(&mut k, 3, &mut code), -2);
    assert_eq!(children(&k, IDLE_PID), vec![3]);
    assert_eq!(times(&k, IDLE_PID)[SYSCALL_WAITPID], 4);
    assert_eq!(times(&k, IDLE_PID)[SYSCALL_YIELD], 1);
}
