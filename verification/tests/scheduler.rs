use os::config::{BIG_STRIDE, IDLE_PID, MAX_SYSCALL_NUM, SYSCALL_YIELD};
use os::kernel::Kernel;
use os::manager::{add_task, fetch_task, TaskManager, TaskTable};
use os::mm::MemorySet;
use os::process::{sys_set_priority, sys_yield};
use os::task::{TaskControlBlock, TaskStatus};

fn task(pid: usize, status: TaskStatus, stride: usize, priority: usize) -> TaskControlBlock {
    TaskControlBlock {
        pid,
        task_status: status,
        priority,
        stride,
        exit_code: 0,
        parent: None,
        children: Vec::new(),
        memory_set: MemorySet::new_bare(),
        heap_bottom: 0,
        program_brk: 0,
        trap_a0: 0,
        syscall_times: [0; MAX_SYSCALL_NUM],
        first_run_us: None,
    }
}

/// A table holding the given tasks and a manager that queues them in the given order.
fn queued(tasks: Vec<TaskControlBlock>) -> (TaskManager, TaskTable) {
    let mut m = TaskManager::new();
    let mut table = TaskTable::new();
    for t in tasks {
        m.add(t.pid);
        table.insert(t.pid, t);
    }
    (m, table)
}

fn stride_of(table: &TaskTable, pid: usize) -> usize {
    table.get(pid).unwrap().stride
}

#[test]
fn new_manager_is_empty() {
    let mut m = TaskManager::new();
    let mut table = TaskTable::new();
    assert_eq!(m.len(), 0);
    assert!(m.can_fetch(&table));
    assert!(m.fetch(&mut table).is_none());
    assert_eq!(m.len(), 0);
}

#[test]
fn fetch_single_task_advances_stride() {
    let (mut m, mut table) = queued(vec![task(3, TaskStatus::Ready, 100, 16)]);
    assert_eq!(m.fetch(&mut table), Some(3));
    assert_eq!(stride_of(&table, 3), 100 + BIG_STRIDE / 16);
    assert_eq!(stride_of(&table, 3), 725);
    assert_eq!(m.len(), 0);
}

#[test]
fn fetch_picks_smallest_stride_and_keeps_order() {
    let (mut m, mut table) = queued(vec![
        task(1, TaskStatus::Ready, 50, 10),
        task(2, TaskStatus::Ready, 20, 10),
        task(3, TaskStatus::Ready, 70, 10),
        task(4, TaskStatus::Ready, 30, 10),
    ]);
    assert_eq!(m.fetch(&mut table), Some(2));
    assert_eq!(stride_of(&table, 2), 1020);
    assert_eq!(stride_of(&table, 1), 50);
    assert_eq!(m.pids(), vec![1, 3, 4]);
}

#[test]
fn fetch_ties_go_to_the_earliest() {
    let (mut m, mut table) = queued(vec![
        task(7, TaskStatus::Ready, 40, 2),
        task(8, TaskStatus::Ready, 10, 2),
        task(9, TaskStatus::Ready, 10, 2),
    ]);
    assert_eq!(m.fetch(&mut table), Some(8));
    assert_eq!(m.pids(), vec![7, 9]);
}

#[test]
fn fetch_skips_tasks_that_are_not_ready() {
    let (mut m, mut table) = queued(vec![
        task(1, TaskStatus::Zombie, 0, 10),
        task(2, TaskStatus::Running, 1, 10),
        task(3, TaskStatus::Ready, 500, 10),
    ]);
    assert_eq!(m.fetch(&mut table), Some(3));
    assert_eq!(m.pids(), vec![1, 2]);
}

#[test]
fn fetch_skips_tasks_at_the_stride_ceiling() {
    let (mut m, mut table) = queued(vec![
        task(1, TaskStatus::Ready, usize::MAX, 10),
        task(2, TaskStatus::Ready, usize::MAX - 2000, 10),
    ]);
    assert!(m.can_fetch(&table));
    assert_eq!(m.fetch(&mut table), Some(2));
    assert_eq!(stride_of(&table, 2), usize::MAX - 1000);
    assert_eq!(m.pids(), vec![1]);
}

#[test]
fn fetch_removes_every_entry_with_the_picked_pid() {
    let (mut m, mut table) = queued(vec![
        task(5, TaskStatus::Ready, 90, 10),
        task(6, TaskStatus::Ready, 10, 10),
        task(7, TaskStatus::Ready, 95, 10),
    ]);
    m.add(6);
    assert_eq!(m.pids(), vec![5, 6, 7, 6]);
    assert_eq!(m.fetch(&mut table), Some(6));
    assert_eq!(stride_of(&table, 6), 1010);
    assert_eq!(m.pids(), vec![5, 7]);
}

#[test]
fn can_fetch_refuses_an_unknown_pid_or_a_queue_with_nothing_to_run() {
    let (mut m, table) = queued(vec![task(1, TaskStatus::Ready, 0, 16)]);
    m.add(9);
    assert!(!m.can_fetch(&table));
    let (m2, table2) = queued(vec![task(1, TaskStatus::Zombie, 0, 16)]);
    assert!(!m2.can_fetch(&table2));
    let (m3, table3) = queued(vec![task(1, TaskStatus::Ready, usize::MAX - 10, 1)]);
    assert!(!m3.can_fetch(&table3));
    let (m4, table4) = queued(vec![task(1, TaskStatus::Ready, 0, 0)]);
    assert!(!m4.can_fetch(&table4));
}

#[test]
fn equal_strides_are_served_first_in_first_out() {
    let (mut m, mut table) = queued((0..4).map(|pid| task(pid, TaskStatus::Ready, 0, 16)).collect());
    assert_eq!(m.fetch(&mut table), Some(0));
    assert_eq!(m.pids(), vec![1, 2, 3]);
}

#[test]
fn stride_scheduling_shares_time_by_priority() {
    let (mut m, mut table) =
        queued(vec![task(1, TaskStatus::Ready, 0, 2), task(2, TaskStatus::Ready, 0, 10)]);
    let mut runs = [0usize; 3];
    for _ in 0..12 {
        let pid = m.fetch(&mut table).unwrap();
        runs[pid] += 1;
        m.add(pid);
    }
    // Priority 10 steps by 1000, priority 2 by 5000: five turns to one.
    assert_eq!(runs[1], 2);
    assert_eq!(runs[2], 10);
}

#[test]
fn strides_stay_within_half_the_big_stride() {
    let (mut m, mut table) = queued(vec![
        task(1, TaskStatus::Ready, 0, 2),
        task(2, TaskStatus::Ready, 0, 3),
        task(3, TaskStatus::Ready, 0, 7),
    ]);
    for _ in 0..200 {
        let pid = m.fetch(&mut table).unwrap();
        m.add(pid);
        let strides: Vec<usize> = (1..4).map(|p| stride_of(&table, p)).collect();
        let spread = strides.iter().max().unwrap() - strides.iter().min().unwrap();
        assert!(spread <= BIG_STRIDE / 2);
    }
}

#[test]
fn add_task_and_fetch_task_use_the_manager() {
    let (mut m, mut table) = queued(Vec::new());
    table.insert(4, task(4, TaskStatus::Ready, 1, 1));
    table.insert(5, task(5, TaskStatus::Ready, 0, 1));
    add_task(&mut m, 4);
    add_task(&mut m, 5);
    assert_eq!(fetch_task(&mut m, &mut table), Some(5));
    assert_eq!(stride_of(&table, 5), BIG_STRIDE);
    assert_eq!(m.pids(), vec![4]);
}

#[test]
fn lone_task_is_fetched_again_after_add() {
    let (mut m, mut table) = queued(Vec::new());
    table.insert(8, task(8, TaskStatus::Ready, 30, 4));
    add_task(&mut m, 8);
    assert_eq!(fetch_task(&mut m, &mut table), Some(8));
    assert_eq!(m.len(), 0);
    assert_eq!(stride_of(&table, 8), 30 + 2500);
}

#[test]
fn task_table_stores_one_record_per_pid() {
    let mut table = TaskTable::new();
    assert!(!table.contains(3));
    table.insert(3, task(3, TaskStatus::Ready, 0, 16));
    table.insert(3, task(3, TaskStatus::Ready, 40, 16));
    assert!(table.contains(3));
    assert_eq!(stride_of(&table, 3), 40);
    let t = table.remove(3).unwrap();
    assert_eq!(t.stride, 40);
    assert!(table.get(3).is_none());
    assert!(table.remove(3).is_none());
}

fn running_kernel() -> Kernel {
    let mut k = Kernel::new(MemorySet::new_bare(), 0);
    assert!(k.can_run_next());
    assert!(k.run_next(0));
    k
}

#[test]
fn higher_priority_gets_smaller_step() {
    let mut k = running_kernel();
    assert_eq!(sys_set_priority(&mut k, 10), 10);
    assert_eq!(k.task(IDLE_PID).unwrap().stride, 1000);
    assert_eq!(sys_set_priority(&mut k, 4), 4);
    assert_eq!(k.task(IDLE_PID).unwrap().stride, 2500);
    assert_eq!(k.task(IDLE_PID).unwrap().priority, 4);
}

#[test]
fn yielding_alone_runs_again() {
    let mut k = running_kernel();
    assert_eq!(k.task(IDLE_PID).unwrap().stride, 625);
    assert_eq!(sys_yield(&mut k), 0);
    assert_eq!(k.current_pid(), None);
    assert_eq!(k.ready_pids(), vec![IDLE_PID]);
    assert_eq!(k.task(IDLE_PID).unwrap().task_status, TaskStatus::Ready);
    assert!(k.run_next(10));
    assert_eq!(k.current_pid(), Some(IDLE_PID));
    let t = k.task(IDLE_PID).unwrap();
    assert_eq!(t.task_status, TaskStatus::Running);
    assert_eq!(t.syscall_times[SYSCALL_YIELD], 1);
    assert_eq!(t.stride, 1250);
    assert_eq!(t.first_run_us, Some(0));
    assert!(k.ready_pids().is_empty());
}
