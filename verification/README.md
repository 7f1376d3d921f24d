# os

The process-management core of a small RISC-V teaching kernel, verified with Verus:

- `kernel`: the process subsystem as one value (`Kernel`): every task filed by pid, the ready
  queue, the task that runs and the pid allocator, with the invariant that ties them together
  (`kernel_wf`). It forks, spawns, reaps and ends tasks and runs the next one.
- `manager`: the ready queue (`TaskManager`, by pid) and its stride scheduler:
  `TaskManager::fetch` runs the ready task with the smallest stride and charges it
  `BIG_STRIDE / priority`; `TaskTable` holds the task records.
- `process`: the process syscalls (`sys_fork`, `sys_exec`, `sys_spawn`, `sys_waitpid`,
  `sys_exit`, `sys_yield`, `sys_mmap`, `sys_munmap`, `sys_sbrk`, `sys_set_priority`,
  `sys_get_time`, `sys_task_info`, `sys_getpid`) as operations on the kernel state; each counts
  itself in the calling task's syscall table.
- `task`: the task control block, heap resizing, exec and the child a fork creates.
- `mm`: an address space as a list of disjoint mapped page ranges.
- `pid`: the pid allocator.

The laws the library keeps are public proof functions (`law_*`).

`app/` holds the shared kernel state, the program table that exec and spawn load from, the
copies of syscall records to and from user memory, and the syscall dispatch.
