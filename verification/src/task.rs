use vstd::prelude::*;
use crate::config::{DEFAULT_PRIORITY, MAX_SYSCALL_NUM};
use crate::mm::{
    can_append, can_shrink, ceil_vpn, covers, first_starting_at, floor_vpn,
    has_area_starting_at, resize_area, MapArea, MemorySet, VirtAddr,
};

verus! {

/// The life-cycle state of a task.
#[derive(Clone, Copy, PartialEq, Eq, Structural, Debug)]
pub enum TaskStatus {
    Ready,
    Running,
    Zombie,
}

/// The state that the kernel keeps about one task (a process).
pub struct TaskControlBlock {
    /// Process id.
    pub pid: usize,
    pub task_status: TaskStatus,
    /// Scheduling priority; a task advances its stride by `BIG_STRIDE / priority` per turn.
    pub priority: usize,
    /// Scheduling pass value; the ready task with the smallest one runs next.
    pub stride: usize,
    /// Exit code, meaningful once the task is a zombie.
    pub exit_code: i32,
    /// Pid of the parent task, if any.
    pub parent: Option<usize>,
    /// Pids of the children that have not been waited for yet, oldest first.
    pub children: Vec<usize>,
    /// The task's address space.
    pub memory_set: MemorySet,
    /// Lowest address of the heap.
    pub heap_bottom: usize,
    /// Current end of the heap.
    pub program_brk: usize,
    /// Register a0 of the saved user context: the value a syscall hands back to user mode.
    pub trap_a0: usize,
    /// How many times the task has called each syscall, indexed by syscall id.
    pub syscall_times: [u32; MAX_SYSCALL_NUM],
    /// When the task first ran, in microseconds since boot; `None` before that.
    pub first_run_us: Option<usize>,
}

/// `times` after one more call of syscall `id` (ids past the table are not counted).
pub open spec fn count_call(times: Seq<u32>, id: usize) -> Seq<u32> {
    if id < MAX_SYSCALL_NUM {
        times.update(id as int, (times[id as int] + 1) as u32)
    } else {
        times
    }
}

/// Whether `task` can count one more call of syscall `id` without its counter overflowing.
pub open spec fn can_count(task: TaskControlBlock, id: usize) -> bool {
    id < MAX_SYSCALL_NUM ==> task.syscall_times@[id as int] < u32::MAX
}

/// Whether `after` is `before` with one more call of syscall `id` counted.
pub open spec fn counted(after: TaskControlBlock, before: TaskControlBlock, id: usize) -> bool {
    &&& after.syscall_times@ == count_call(before.syscall_times@, id)
    &&& TaskControlBlock { syscall_times: before.syscall_times, ..after } == before
}

/// The heap end that `change_program_brk(size)` asks for.
pub open spec fn brk_request(task: TaskControlBlock, size: i32) -> int {
    task.program_brk as isize + size
}

/// Whether moving the heap end of `task` by `size` bytes runs without a fault: the new end is a
/// valid `isize`, and when it is not below the heap bottom, the heap area can be cut back to it
/// (when `size` is negative) or extended to it over unmapped pages (otherwise).
pub open spec fn brk_feasible(task: TaskControlBlock, size: i32) -> bool {
    let new_brk = brk_request(task, size);
    &&& isize::MIN <= new_brk <= isize::MAX
    &&& new_brk >= task.heap_bottom as isize ==> {
        let end = (new_brk as isize) as usize;
        &&& size < 0 ==> can_shrink(
            task.memory_set@,
            floor_vpn(task.heap_bottom as int),
            ceil_vpn(end as int),
        )
        &&& size >= 0 ==> can_append(
            task.memory_set@,
            floor_vpn(task.heap_bottom as int),
            ceil_vpn(end as int),
        )
    }
}

/// Whether `child` is what forking `parent` creates under pid `pid`: a ready task with a copy of
/// the parent's address space, heap and saved registers, no children, fresh scheduling state,
/// zeroed syscall counters, and not run yet.
pub open spec fn is_fork_of(child: TaskControlBlock, parent: TaskControlBlock, pid: usize) -> bool {
    &&& child.pid == pid
    &&& child.task_status == TaskStatus::Ready
    &&& child.priority == DEFAULT_PRIORITY
    &&& child.stride == 0
    &&& child.exit_code == 0
    &&& child.parent == Some(parent.pid)
    &&& child.children@ == Seq::<usize>::empty()
    &&& child.memory_set@ == parent.memory_set@
    &&& child.heap_bottom == parent.heap_bottom
    &&& child.program_brk == parent.program_brk
    &&& child.trap_a0 == parent.trap_a0
    &&& child.syscall_times@ == Seq::new(MAX_SYSCALL_NUM as nat, |i: int| 0u32)
    &&& child.first_run_us == None::<usize>
}

/// Whether `after` is task `before` ended with `exit_code`: a zombie with that exit code, no
/// children and no mapped area, and otherwise unchanged.
pub open spec fn is_exit_of(after: TaskControlBlock, before: TaskControlBlock, exit_code: i32) -> bool {
    &&& after.task_status == TaskStatus::Zombie
    &&& after.exit_code == exit_code
    &&& after.children@ == Seq::<usize>::empty()
    &&& after.memory_set@ == Seq::<MapArea>::empty()
    &&& (TaskControlBlock {
        task_status: before.task_status,
        exit_code: before.exit_code,
        children: before.children,
        memory_set: before.memory_set,
        ..after
    }) == before
}

/// Task `t` handed over to the task with pid `new_parent`.
pub open spec fn adopted(t: TaskControlBlock, new_parent: usize) -> TaskControlBlock {
    TaskControlBlock { parent: Some(new_parent), ..t }
}

impl TaskControlBlock {
    /// The task's process id.
    pub fn getpid(&self) -> (r: usize)
        ensures
            r == self.pid,
    {
        self.pid
    }

    /// Whether the task has exited and waits to be reaped by its parent.
    pub fn is_zombie(&self) -> (r: bool)
        ensures
            r == (self.task_status == TaskStatus::Zombie),
    {
        self.task_status == TaskStatus::Zombie
    }

    /// Counts one call of syscall `id`.
    pub fn count_syscall(&mut self, id: usize)
        requires
            can_count(*old(self), id),
        ensures
            counted(*final(self), *old(self), id),
    {
        if id < MAX_SYSCALL_NUM {
            self.syscall_times[id] = self.syscall_times[id] + 1;
        }
        assert(self.syscall_times@ =~= count_call(old(self).syscall_times@, id));
        assert(TaskControlBlock { syscall_times: old(self).syscall_times, ..*self } == *old(self));
    }

    /// Moves the end of the heap by `size` bytes. Returns `None` (changing nothing) when the new
    /// end would fall below the heap bottom or when no area starts at the heap bottom; otherwise
    /// resizes the heap area to the new end and returns the old end.
    pub fn change_program_brk(&mut self, size: i32) -> (r: Option<usize>)
        requires
            brk_feasible(*old(self), size),
        ensures
            (TaskControlBlock {
                program_brk: old(self).program_brk,
                memory_set: old(self).memory_set,
                ..*final(self)
            }) == *old(self),
            brk_request(*old(self), size) < old(self).heap_bottom as isize ==> r.is_none()
                && *final(self) == *old(self),
            brk_request(*old(self), size) >= old(self).heap_bottom as isize ==> {
                let end = (brk_request(*old(self), size) as isize) as usize;
                let found = has_area_starting_at(
                    old(self).memory_set@,
                    floor_vpn(old(self).heap_bottom as int),
                );
                &&& r == (if found { Some(old(self).program_brk) } else { None })
                &&& final(self).memory_set@ == resize_area(
                    old(self).memory_set@,
                    floor_vpn(old(self).heap_bottom as int),
                    ceil_vpn(end as int),
                )
                &&& final(self).program_brk == (if found { end } else { old(self).program_brk })
            },
    {
        let heap_bottom = self.heap_bottom;
        let old_break = self.program_brk;
        let new_brk = self.program_brk as isize + size as isize;
        if new_brk < heap_bottom as isize {
            return None;
        }
        let result = if size < 0 {
            self.memory_set.shrink_to(VirtAddr(heap_bottom), VirtAddr(new_brk as usize))
        } else {
            self.memory_set.append_to(VirtAddr(heap_bottom), VirtAddr(new_brk as usize))
        };
        if result {
            self.program_brk = new_brk as usize;
            Some(old_break)
        } else {
            None
        }
    }

    /// Whether `change_program_brk(size)` runs without a fault (see `brk_feasible`).
    #[verifier::loop_isolation(false)]
    pub fn can_change_brk(&self, size: i32) -> (r: bool)
        ensures
            r == brk_feasible(*self, size),
    {
        let new_brk: i128 = self.program_brk as isize as i128 + size as i128;
        if new_brk < isize::MIN as i128 || new_brk > isize::MAX as i128 {
            return false;
        }
        let new_brk = new_brk as isize;
        if new_brk < self.heap_bottom as isize {
            return true;
        }
        let end = new_brk as usize;
        let new_end = VirtAddr(end).ceil();
        let start_vpn = VirtAddr(self.heap_bottom).floor();
        let areas = self.memory_set.areas();
        let mut i: usize = 0;
        while i < areas.len()
            invariant
                i <= areas@.len(),
                areas@ == self.memory_set@,
                forall|j: int| 0 <= j < i ==> (#[trigger] areas@[j]).start_vpn != start_vpn,
            decreases areas@.len() - i,
        {
            if areas[i].start_vpn == start_vpn {
                assert(first_starting_at(areas@, start_vpn as int, i as int));
                let a = areas[i];
                proof {
                    crate::mm::lemma_first_starting_at_unique(areas@, start_vpn as int);
                }
                if size < 0 {
                    return a.start_vpn <= new_end && new_end <= a.end_vpn;
                }
                if !(a.start_vpn <= a.end_vpn && a.end_vpn <= new_end) {
                    return false;
                }
                return Self::range_unmapped(areas, a.end_vpn, new_end);
            }
            i = i + 1;
        }
        assert(!exists|k: int| first_starting_at(areas@, start_vpn as int, k));
        true
    }

    /// Whether no area of `areas` maps a page in `[lo, hi)`.
    fn range_unmapped(areas: &Vec<MapArea>, lo: usize, hi: usize) -> (r: bool)
        ensures
            r == forall|v: int| lo <= v < hi ==> !covers(areas@, v),
    {
        let mut i: usize = 0;
        while i < areas.len()
            invariant
                i <= areas@.len(),
                forall|v: int, j: int|
                    0 <= j < i && lo <= v < hi ==> !(#[trigger] crate::mm::area_contains(areas@[j], v)),
            decreases areas@.len() - i,
        {
            let a = areas[i];
            let l = if a.start_vpn > lo { a.start_vpn } else { lo };
            let h = if a.end_vpn < hi { a.end_vpn } else { hi };
            if l < h {
                assert(crate::mm::area_contains(areas@[i as int], l as int));
                assert(covers(areas@, l as int));
                return false;
            }
            i = i + 1;
        }
        true
    }

    /// Replaces the program that the task runs: it gets the address space `memory_set` of the
    /// new program and a fresh register context.
    pub fn exec(&mut self, memory_set: MemorySet)
        ensures
            (TaskControlBlock {
                memory_set: old(self).memory_set,
                trap_a0: old(self).trap_a0,
                ..*final(self)
            }) == *old(self),
            final(self).memory_set@ == memory_set@,
            final(self).trap_a0 == 0,
    {
        self.memory_set = memory_set;
        self.trap_a0 = 0;
    }

    /// The task that forking this one under pid `pid` creates.
    pub fn new_child(&self, pid: usize) -> (child: TaskControlBlock)
        ensures
            is_fork_of(child, *self, pid),
    {
        let child = TaskControlBlock {
            pid,
            task_status: TaskStatus::Ready,
            priority: DEFAULT_PRIORITY,
            stride: 0,
            exit_code: 0,
            parent: Some(self.pid),
            children: Vec::new(),
            memory_set: MemorySet::from_existed_user(&self.memory_set),
            heap_bottom: self.heap_bottom,
            program_brk: self.program_brk,
            trap_a0: self.trap_a0,
            syscall_times: [0u32; MAX_SYSCALL_NUM],
            first_run_us: None,
        };
        assert(child.syscall_times@ =~= Seq::new(MAX_SYSCALL_NUM as nat, |i: int| 0u32));
        child
    }
}

} // verus!
