use vstd::prelude::*;

verus! {

/// Size of a virtual memory page, in bytes.
pub const PAGE_SIZE: usize = 4096;

/// Number of bits of a page offset.
pub const PAGE_SIZE_BITS: usize = 12;

/// Mask that keeps the low 39 bits of an address (the width of an Sv39 virtual address).
pub const VA_MASK_SV39: u64 = 0x7f_ffff_ffff;

/// Largest syscall id that the per-task syscall counters can record, plus one.
pub const MAX_SYSCALL_NUM: usize = 500;

/// The stride step that a task of priority 1 advances by each time it is scheduled.
pub const BIG_STRIDE: usize = 10000;

/// Priority that a freshly created task starts with.
pub const DEFAULT_PRIORITY: usize = 16;

/// Pid of the first task, whose exit shuts the machine down.
pub const IDLE_PID: usize = 0;

/// Syscall id of `write`.
pub const SYSCALL_WRITE: usize = 64;

/// Syscall id of `exit`.
pub const SYSCALL_EXIT: usize = 93;

/// Syscall id of `waitpid`.
pub const SYSCALL_WAITPID: usize = 260;

/// Syscall id of `set_priority`.
pub const SYSCALL_SET_PRIORITY: usize = 140;

/// Syscall id of `getpid`.
pub const SYSCALL_GETPID: usize = 172;

/// Syscall id of `sbrk`.
pub const SYSCALL_SBRK: usize = 214;

/// Syscall id of `munmap`.
pub const SYSCALL_MUNMAP: usize = 215;

/// Syscall id of `fork`.
pub const SYSCALL_FORK: usize = 220;

/// Syscall id of `exec`.
pub const SYSCALL_EXEC: usize = 221;

/// Syscall id of `mmap`.
pub const SYSCALL_MMAP: usize = 222;

/// Syscall id of `spawn`.
pub const SYSCALL_SPAWN: usize = 400;

/// Syscall id of `yield`.
pub const SYSCALL_YIELD: usize = 124;

/// Syscall id of `get_time`.
pub const SYSCALL_GET_TIME: usize = 169;

/// Syscall id of `task_info`.
pub const SYSCALL_TASK_INFO: usize = 410;

} // verus!
