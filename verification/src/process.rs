use vstd::prelude::*;
use crate::config::{
    BIG_STRIDE, MAX_SYSCALL_NUM, PAGE_SIZE, SYSCALL_EXEC, SYSCALL_EXIT, SYSCALL_FORK,
    SYSCALL_GETPID, SYSCALL_GET_TIME, SYSCALL_MMAP, SYSCALL_MUNMAP, SYSCALL_SBRK,
    SYSCALL_SET_PRIORITY, SYSCALL_SPAWN, SYSCALL_TASK_INFO, SYSCALL_WAITPID, SYSCALL_YIELD,
    IDLE_PID,
};
use crate::kernel::{
    children_ok, first_reapable, has_matching_child, has_reapable_child, law_exited_child_answers_wait,
    reapable, started, Kernel,
};
use crate::mm::{
    area_contains, areas_disjoint, ceil_vpn, covers, first_starting_at, floor_vpn,
    has_area_starting_at, lemma_remove_area_keeps_disjoint, remove_area_starting_at,
    resize_area, va_space, MapArea, MemorySet, VirtAddr, MAP_PERM_R, MAP_PERM_U, MAP_PERM_W,
    MAP_PERM_X,
};
use crate::task::{
    adopted, brk_feasible, brk_request, can_count, count_call, counted, is_exit_of, is_fork_of,
    TaskControlBlock, TaskStatus,
};

verus! {

/// A point in time, split into seconds and microseconds.
#[derive(Debug)]
pub struct TimeVal {
    pub sec: usize,
    pub usec: usize,
}

/// What `sys_task_info` reports about the calling task.
pub struct TaskInfo {
    /// Task status in its life cycle.
    pub status: TaskStatus,
    /// The numbers of syscall called by task, indexed by syscall id.
    pub syscall_times: [u32; MAX_SYSCALL_NUM],
    /// Total running time of task, in milliseconds: the time since it first ran.
    pub time: usize,
}

/// Counts one call of syscall `tt` for the task that runs. Returns 0.
pub fn addinfo(k: &mut Kernel, tt: usize) -> (r: isize)
    requires
        old(k).wf(),
        old(k).has_current(),
        can_count(old(k).current_task(), tt),
    ensures
        r == 0,
        final(k).wf(),
        old(k).only_current_changed(*final(k)),
        counted(final(k).current_task(), old(k).current_task(), tt),
{
    let ghost before = k.current_task();
    let mut t = k.take_current();
    t.count_syscall(tt);
    k.put_current(t, Ghost(before));
    0
}

/// Number of pages that `len` bytes span.
pub open spec fn page_count(len: int) -> int {
    (len + PAGE_SIZE - 1) / PAGE_SIZE as int
}

/// The page of the `i`-th page-sized step from address `start`.
pub open spec fn page_vpn(start: int, i: int) -> int {
    floor_vpn((start + i * PAGE_SIZE) % va_space())
}

/// Whether `port` asks for a permission that `mmap` accepts: some of read, write and execute,
/// and nothing else.
pub open spec fn valid_port(port: usize) -> bool {
    0 < port < 8
}

/// The permission that `mmap` maps pages with for `port`: user-accessible, plus read, write
/// and execute for bits 0, 1 and 2 of `port`.
pub open spec fn port_perm(port: usize) -> u8 {
    let p1: u8 = if port & 1 != 0 { MAP_PERM_U | MAP_PERM_R } else { MAP_PERM_U };
    let p2: u8 = if port & 2 != 0 { p1 | MAP_PERM_W } else { p1 };
    if port & 4 != 0 { p2 | MAP_PERM_X } else { p2 }
}

/// Whether page `i` of a mapping request from `start` cannot be mapped on top of `areas`:
/// `areas` already maps it, or an earlier page of the request is the same page.
pub open spec fn page_conflict(areas: Seq<MapArea>, start: int, i: int) -> bool {
    ||| covers(areas, page_vpn(start, i))
    ||| exists|j: int| 0 <= j < i && page_vpn(start, j) == page_vpn(start, i)
}

/// The one-page area that `mmap` adds for page `i` of a request from `start`.
pub open spec fn page_area(start: int, i: int, perm: u8) -> MapArea {
    MapArea {
        start_vpn: page_vpn(start, i) as usize,
        end_vpn: (page_vpn(start, i) + 1) as usize,
        perm,
    }
}

/// The one-page areas of pages `lo` up to `hi` of a request from `start`, in order.
pub open spec fn page_areas(start: int, lo: int, hi: int, perm: u8) -> Seq<MapArea> {
    Seq::new((hi - lo) as nat, |j: int| page_area(start, lo + j, perm))
}

/// What `munmap` makes of `areas` after its first `n` pages from `start`, and whether every
/// one of those pages was mapped when its turn came: a mapped page has the first area that
/// starts at it removed.
pub open spec fn unmap_pages(areas: Seq<MapArea>, start: int, n: nat) -> (Seq<MapArea>, bool)
    decreases n,
{
    if n == 0 {
        (areas, true)
    } else {
        let prev = unmap_pages(areas, start, (n - 1) as nat);
        let vpn = page_vpn(start, n - 1);
        if covers(prev.0, vpn) {
            (remove_area_starting_at(prev.0, vpn), prev.1)
        } else {
            (prev.0, false)
        }
    }
}



/// What `mmap_pages(start, len, port)` makes of address space `before`: `after` and result `r`.
/// A misaligned start or an invalid port gives -1 and no change; otherwise the pages before the
/// first conflicting one (see `page_conflict`) are mapped, one area each, and the result is -1
/// when there is a conflicting page, 0 otherwise.
pub open spec fn mmap_result(
    before: Seq<MapArea>,
    start: usize,
    len: usize,
    port: usize,
    r: isize,
    after: Seq<MapArea>,
) -> bool {
    &&& start % PAGE_SIZE != 0 || !valid_port(port) ==> r == -1 && after == before
    &&& start % PAGE_SIZE == 0 && valid_port(port) && (forall|i: int|
        0 <= i < page_count(len as int) ==> !page_conflict(before, start as int, i)) ==> r == 0
        && after == before + page_areas(start as int, 0, page_count(len as int), port_perm(port))
    &&& forall|k: int|
        #![trigger page_conflict(before, start as int, k)]
        0 <= k < page_count(len as int) && start % PAGE_SIZE == 0 && valid_port(port)
            && page_conflict(before, start as int, k) && (forall|i: int|
            0 <= i < k ==> !page_conflict(before, start as int, i)) ==> r == -1 && after == before
            + page_areas(start as int, 0, k, port_perm(port))
}

/// What `munmap_pages(start, len)` makes of address space `before`: `after` and result `r`.
/// A misaligned start gives -1 and no change; otherwise the pages are unmapped in turn (see
/// `unmap_pages`) and the result is -1 when some page was not mapped when its turn came.
pub open spec fn munmap_result(before: Seq<MapArea>, start: usize, len: usize, r: isize, after: Seq<MapArea>) -> bool {
    &&& start % PAGE_SIZE != 0 ==> r == -1 && after == before
    &&& start % PAGE_SIZE == 0 ==> {
        let res = unmap_pages(before, start as int, page_count(len as int) as nat);
        &&& after == res.0
        &&& r == (if res.1 { 0isize } else { -1isize })
    }
}

proof fn lemma_align_down(x: usize)
    ensures
        x & !4095usize == (x - x % 4096) as usize,
{
    assert(x & !4095usize == (x - x % 4096) as usize) by (bit_vector);
}

proof fn lemma_port_check(port: usize)
    ensures
        (port & !0x7usize != 0 || port & 0x7usize == 0) == !valid_port(port),
{
    assert((port & !0x7usize != 0 || port & 0x7usize == 0) == !(0 < port && port < 8))
        by (bit_vector);
}

proof fn lemma_page_end(v: u64)
    requires
        v % 4096 == 0,
        v <= 0xffff_ffff_ffff_f000u64,
    ensures
        (((v + 4095) % 0x80_0000_0000) + 4095) / 4096 == (v % 0x80_0000_0000) / 4096 + 1,
        (v + 4095) % 0x80_0000_0000 + 4095 <= u64::MAX,
        (v % 0x80_0000_0000) / 4096 < 0x800_0000,
{
    let w: u64 = (v + 4095) as u64;
    let a: u64 = w % 0x80_0000_0000u64;
    let b: u64 = v % 0x80_0000_0000u64;
    let c: u64 = (a + 4095) as u64;
    let d: u64 = c / 4096u64;
    let e: u64 = b / 4096u64;
    assert(a < 0x80_0000_0000u64 && d == e + 1 && e < 0x800_0000u64) by (bit_vector)
        requires
            w == v + 4095,
            a == w % 0x80_0000_0000u64,
            b == v % 0x80_0000_0000u64,
            c == a + 4095,
            d == c / 4096u64,
            e == b / 4096u64,
            v % 4096 == 0,
            v <= 0xffff_ffff_ffff_f000u64,
    ;
}

/// The `i`-th page of a range of `n` pages from page-aligned `start` lies within the range and
/// is page aligned.
proof fn lemma_page_step(start: int, i: int, n: int)
    by (nonlinear_arith)
    requires
        0 <= i < n,
        start % 4096 == 0,
    ensures
        i * 4096 + 4096 <= n * 4096,
        (start + i * 4096) % 4096 == 0,
{
}

/// A one-page area holds exactly its page.
proof fn lemma_page_area_contains(start: int, i: int, perm: u8, v: int)
    requires
        start >= 0,
    ensures
        area_contains(page_area(start, i, perm), v) == (v == page_vpn(start, i)),
        0 <= page_vpn(start, i) < 0x800_0000,
{
    assert(0 <= (start + i * PAGE_SIZE) % va_space() < va_space());
}

/// The pages that a run of one-page areas maps.
proof fn lemma_covers_page_areas(
    areas: Seq<MapArea>,
    start: int,
    k: int,
    perm: u8,
    v: int,
)
    requires
        start >= 0,
        k >= 0,
    ensures
        covers(areas + page_areas(start, 0, k, perm), v) == (covers(areas, v) || exists|j: int|
            0 <= j < k && page_vpn(start, j) == v),
{
    let s = areas + page_areas(start, 0, k, perm);
    if covers(s, v) {
        let i = choose|i: int| 0 <= i < s.len() && #[trigger] area_contains(s[i], v);
        if i < areas.len() {
            assert(area_contains(areas[i], v));
        } else {
            let j = i - areas.len();
            lemma_page_area_contains(start, j, perm, v);
            assert(page_vpn(start, j) == v);
        }
    }
    if covers(areas, v) {
        let i = choose|i: int| 0 <= i < areas.len() && #[trigger] area_contains(areas[i], v);
        assert(area_contains(s[i], v));
    }
    if exists|j: int| 0 <= j < k && page_vpn(start, j) == v {
        let j = choose|j: int| 0 <= j < k && page_vpn(start, j) == v;
        lemma_page_area_contains(start, j, perm, v);
        assert(area_contains(s[areas.len() + j], v));
    }
}


/// Maps `len` bytes from `start` into address space `ms`, one page at a time, with
/// the permission that `port` asks for. Returns -1 when `start` is not page aligned, when
/// `port` is not valid, or when some page of the range is already mapped (the pages before
/// that one stay mapped); 0 otherwise.
pub fn mmap_pages(ms: &mut MemorySet, start: usize, len: usize, port: usize) -> (r: isize)
    requires
        len + PAGE_SIZE - 1 <= usize::MAX,
        start % PAGE_SIZE == 0 && valid_port(port) ==> start + page_count(len as int)
            * PAGE_SIZE <= usize::MAX + 1,
    ensures
        mmap_result(old(ms)@, start, len, port, r, final(ms)@),
{
    let page_align_start = start & !(PAGE_SIZE - 1);
    let page_align_len = (len + (PAGE_SIZE - 1)) & !(PAGE_SIZE - 1);
    proof {
        lemma_align_down(start);
        lemma_align_down((len + PAGE_SIZE - 1) as usize);
    }
    if start != page_align_start {
        return -1;
    }
    proof {
        lemma_port_check(port);
    }
    if port & !0x7 != 0 || port & 0x7 == 0 {
        return -1;
    }
    let mut permission: u8 = MAP_PERM_U;
    if port & 1 != 0 {
        permission = permission | MAP_PERM_R;
    }
    if port & 2 != 0 {
        permission = permission | MAP_PERM_W;
    }
    if port & 4 != 0 {
        permission = permission | MAP_PERM_X;
    }
    let ghost old_areas = ms@;
    let ghost n = page_count(len as int);
    let ghost mut k: int = 0;
    let mut flag: isize = 0;
    let count = page_align_len / PAGE_SIZE;
    assert(count == n);
    let mut i: usize = 0;
    while i < count
        invariant
            count == n,
            page_align_start == start,
            start % PAGE_SIZE == 0,
            start + n * PAGE_SIZE <= usize::MAX + 1,
            permission == port_perm(port),
            i <= count,
            old_areas == old(ms)@,
            flag == 0 || flag == -1,
            flag == 0 ==> k == i && forall|j: int| 0 <= j < i ==> !page_conflict(old_areas, start as int, j),
            flag == -1 ==> 0 <= k < i && page_conflict(old_areas, start as int, k) && forall|j: int|
                0 <= j < k ==> !page_conflict(old_areas, start as int, j),
            ms@ == old_areas + page_areas(start as int, 0, k, permission),
        decreases count - i,
    {
        proof {
            lemma_page_step(start as int, i as int, n);
        }
        let vaddr = page_align_start + i * PAGE_SIZE;
        let start_vpn = VirtAddr::from_usize(vaddr).floor();
        assert(start_vpn == page_vpn(start as int, i as int));
        let t = ms.translate(start_vpn);
        proof {
            lemma_covers_page_areas(old_areas, start as int, k, permission, start_vpn as int);
        }
        if t.is_some() {
            if t.unwrap().is_valid() {
                if flag == 0 {
                    proof {
                        k = i as int;
                    }
                }
                flag = -1;
            }
        }
        if flag == 0 {
            proof {
                lemma_page_end(vaddr as u64);
                assert forall|v: int|
                    floor_vpn(vaddr as int % va_space()) <= v < ceil_vpn(
                        (vaddr + PAGE_SIZE - 1) as int % va_space(),
                    ) implies !covers(ms@, v) by {}
            }
            let end_va = VirtAddr::from_usize(vaddr + (PAGE_SIZE - 1));
            ms.insert_framed_area(VirtAddr::from_usize(vaddr), end_va, permission);
            proof {
                lemma_page_area_contains(start as int, i as int, permission, 0);
                assert(page_areas(start as int, 0, i + 1, permission) == page_areas(
                    start as int,
                    0,
                    i as int,
                    permission,
                ).push(page_area(start as int, i as int, permission)));
                k = i + 1;
            }
        }
        i = i + 1;
    }
    flag
}


/// Unmaps the pages of `len` bytes from `start` out of address space `ms`, one page
/// at a time: for a mapped page, the first area that starts at it is removed. Returns -1 when
/// `start` is not page aligned (nothing changes) or when some page was not mapped when its
/// turn came (the other pages are still handled); 0 otherwise.
pub fn munmap_pages(ms: &mut MemorySet, start: usize, len: usize) -> (r: isize)
    requires
        len + PAGE_SIZE - 1 <= usize::MAX,
        start % PAGE_SIZE == 0 ==> start + page_count(len as int) * PAGE_SIZE <= usize::MAX + 1,
    ensures
        munmap_result(old(ms)@, start, len, r, final(ms)@),
{
    let page_align_start = start & !(PAGE_SIZE - 1);
    let page_align_len = (len + (PAGE_SIZE - 1)) & !(PAGE_SIZE - 1);
    proof {
        lemma_align_down(start);
        lemma_align_down((len + PAGE_SIZE - 1) as usize);
    }
    if start != page_align_start {
        return -1;
    }
    let ghost old_areas = ms@;
    let ghost n = page_count(len as int);
    let mut flag: isize = 0;
    let count = page_align_len / PAGE_SIZE;
    assert(count == n);
    let mut j: usize = 0;
    while j < count
        invariant
            count == n,
            page_align_start == start,
            start % PAGE_SIZE == 0,
            start + n * PAGE_SIZE <= usize::MAX + 1,
            j <= count,
            old_areas == old(ms)@,
            ms@ == unmap_pages(old_areas, start as int, j as nat).0,
            flag == (if unmap_pages(old_areas, start as int, j as nat).1 { 0isize } else { -1isize }),
        decreases count - j,
    {
        proof {
            lemma_page_step(start as int, j as int, n);
        }
        let vaddr = page_align_start + j * PAGE_SIZE;
        let start_vpn = VirtAddr::from_usize(vaddr).floor();
        assert(start_vpn == page_vpn(start as int, j as int));
        let t = ms.translate(start_vpn);
        match t {
            Some(tt) => {
                if tt.is_valid() {
                    ms.remove_area_with_start_vpn(start_vpn);
                } else {
                    flag = -1;
                }
            },
            None => {
                flag = -1;
            },
        }
        j = j + 1;
    }
    flag
}

/// Unmapping the first `k` pages of a run of one-page areas that follows `areas` removes
/// exactly those `k` areas.
proof fn lemma_unmap_page_areas(areas: Seq<MapArea>, start: int, n: nat, perm: u8, k: nat)
    requires
        start >= 0,
        k <= n,
        forall|i: int, j: int|
            0 <= i < areas.len() && 0 <= j < n ==> areas[i].start_vpn != page_vpn(start, j),
    ensures
        unmap_pages(areas + page_areas(start, 0, n as int, perm), start, k) == (
            areas + page_areas(start, k as int, n as int, perm),
            true,
        ),
    decreases k,
{
    if k > 0 {
        let k1 = (k - 1) as nat;
        lemma_unmap_page_areas(areas, start, n, perm, k1);
        let prev = areas + page_areas(start, k1 as int, n as int, perm);
        let vpn = page_vpn(start, k1 as int);
        let at = areas.len() as int;
        lemma_page_area_contains(start, k1 as int, perm, vpn);
        assert(prev[at] == page_area(start, k1 as int, perm));
        assert(area_contains(prev[at], vpn));
        assert(covers(prev, vpn));
        assert(first_starting_at(prev, vpn, at));
        assert forall|i: int| first_starting_at(prev, vpn, i) implies i == at by {
            if i < at {
                assert(prev[i] == areas[i]);
            }
        }
        assert(prev.remove(at) =~= areas + page_areas(start, k as int, n as int, perm));
    } else {
        assert(page_areas(start, 0, n as int, perm) =~= page_areas(start, k as int, n as int, perm));
    }
}

/// `sys_munmap` undoes `sys_mmap`: when `sys_mmap` maps `len` bytes from `start` on top of
/// `areas` (aligned start, valid port, no page of the range already mapped), unmapping the same
/// range gives `areas` back and succeeds, provided no area of `areas` starts at a page of the
/// range.
pub proof fn law_munmap_undoes_mmap(areas: Seq<MapArea>, start: usize, len: usize, port: usize)
    requires
        start % PAGE_SIZE == 0,
        valid_port(port),
        forall|i: int| 0 <= i < page_count(len as int) ==> !page_conflict(areas, start as int, i),
        forall|i: int, j: int|
            0 <= i < areas.len() && 0 <= j < page_count(len as int) ==> areas[i].start_vpn
                != page_vpn(start as int, j),
    ensures
        unmap_pages(
            areas + page_areas(start as int, 0, page_count(len as int), port_perm(port)),
            start as int,
            page_count(len as int) as nat,
        ) == (areas, true),
{
    let n = page_count(len as int) as nat;
    lemma_unmap_page_areas(areas, start as int, n, port_perm(port), n);
    assert(areas + page_areas(start as int, n as int, n as int, port_perm(port)) =~= areas);
}


/// Removing an area never maps a page.
proof fn lemma_remove_area_shrinks(areas: Seq<MapArea>, vpn: int, v: int)
    requires
        covers(remove_area_starting_at(areas, vpn), v),
    ensures
        covers(areas, v),
{
    if exists|i: int| first_starting_at(areas, vpn, i) {
        let i = choose|i: int| first_starting_at(areas, vpn, i);
        let r = areas.remove(i);
        let k = choose|k: int| 0 <= k < r.len() && #[trigger] area_contains(r[k], v);
        if k < i {
            assert(area_contains(areas[k], v));
        } else {
            assert(area_contains(areas[k + 1], v));
        }
    }
}

/// Unmapping pages never maps a page.
proof fn lemma_unmap_pages_shrinks(areas: Seq<MapArea>, start: int, m: nat, v: int)
    requires
        covers(unmap_pages(areas, start, m).0, v),
    ensures
        covers(areas, v),
    decreases m,
{
    if m > 0 {
        let prev = unmap_pages(areas, start, (m - 1) as nat);
        let vpn = page_vpn(start, m - 1);
        if covers(prev.0, vpn) {
            lemma_remove_area_shrinks(prev.0, vpn, v);
        }
        lemma_unmap_pages_shrinks(areas, start, (m - 1) as nat, v);
    }
}

/// Once a page of the range was found unmapped, the whole unmapping fails.
proof fn lemma_unmap_failure_sticks(areas: Seq<MapArea>, start: int, m1: nat, m2: nat)
    requires
        m1 <= m2,
        !unmap_pages(areas, start, m1).1,
    ensures
        !unmap_pages(areas, start, m2).1,
    decreases m2,
{
    if m1 < m2 {
        lemma_unmap_failure_sticks(areas, start, m1, (m2 - 1) as nat);
    }
}

/// `sys_munmap` fails when a page of the range is not mapped beforehand.
pub proof fn law_munmap_fails_on_unmapped_page(areas: Seq<MapArea>, start: usize, len: usize, k: int)
    requires
        0 <= k < page_count(len as int),
        !covers(areas, page_vpn(start as int, k)),
    ensures
        !unmap_pages(areas, start as int, page_count(len as int) as nat).1,
{
    let prev = unmap_pages(areas, start as int, k as nat);
    if covers(prev.0, page_vpn(start as int, k)) {
        lemma_unmap_pages_shrinks(areas, start as int, k as nat, page_vpn(start as int, k));
    }
    assert(!unmap_pages(areas, start as int, (k + 1) as nat).1);
    lemma_unmap_failure_sticks(areas, start as int, (k + 1) as nat, page_count(len as int) as nat);
}

/// `sys_mmap` keeps the areas of an address space disjoint: the one-page areas it adds for the
/// pages before the first conflicting one neither overlap the old areas nor each other.
pub proof fn law_mmap_keeps_areas_disjoint(areas: Seq<MapArea>, start: usize, k: int, perm: u8)
    requires
        areas_disjoint(areas),
        k >= 0,
        forall|i: int| 0 <= i < k ==> !page_conflict(areas, start as int, i),
    ensures
        areas_disjoint(areas + page_areas(start as int, 0, k, perm)),
{
    let s = areas + page_areas(start as int, 0, k, perm);
    assert forall|i: int, j: int, v: int|
        0 <= i < j < s.len() implies !(#[trigger] area_contains(s[i], v)
        && #[trigger] area_contains(s[j], v)) by {
        if area_contains(s[i], v) && area_contains(s[j], v) {
            let a = areas.len() as int;
            if j < a {
                assert(area_contains(areas[i], v) && area_contains(areas[j], v));
            } else {
                lemma_page_area_contains(start as int, j - a, perm, v);
                assert(v == page_vpn(start as int, j - a));
                assert(!page_conflict(areas, start as int, j - a));
                if i < a {
                    assert(area_contains(areas[i], v));
                } else {
                    lemma_page_area_contains(start as int, i - a, perm, v);
                    assert(page_vpn(start as int, i - a) == page_vpn(start as int, j - a));
                }
            }
        }
    }
}

/// `sys_munmap` keeps the areas of an address space disjoint.
pub proof fn law_munmap_keeps_areas_disjoint(areas: Seq<MapArea>, start: usize, n: nat)
    requires
        areas_disjoint(areas),
    ensures
        areas_disjoint(unmap_pages(areas, start as int, n).0),
    decreases n,
{
    if n > 0 {
        law_munmap_keeps_areas_disjoint(areas, start, (n - 1) as nat);
        let prev = unmap_pages(areas, start as int, (n - 1) as nat);
        lemma_remove_area_keeps_disjoint(prev.0, page_vpn(start as int, n - 1));
    }
}


/// Maps `len` bytes from `start` into the address space of the task that runs (see
/// `mmap_pages`), counting the call.
pub fn sys_mmap(k: &mut Kernel, start: usize, len: usize, port: usize) -> (r: isize)
    requires
        old(k).wf(),
        old(k).has_current(),
        can_count(old(k).current_task(), SYSCALL_MMAP),
        len + PAGE_SIZE - 1 <= usize::MAX,
        start % PAGE_SIZE == 0 && valid_port(port) ==> start + page_count(len as int)
            * PAGE_SIZE <= usize::MAX + 1,
    ensures
        final(k).wf(),
        old(k).only_current_changed(*final(k)),
        counted(
            TaskControlBlock {
                memory_set: old(k).current_task().memory_set,
                ..final(k).current_task()
            },
            old(k).current_task(),
            SYSCALL_MMAP,
        ),
        mmap_result(old(k).current_task().memory_set@, start, len, port, r, final(k).current_task().memory_set@),
{
    let ghost before = k.current_task();
    let mut t = k.take_current();
    t.count_syscall(SYSCALL_MMAP);
    let r = mmap_pages(&mut t.memory_set, start, len, port);
    k.put_current(t, Ghost(before));
    r
}

/// Unmaps `len` bytes from `start` out of the address space of the task that runs (see
/// `munmap_pages`), counting the call.
pub fn sys_munmap(k: &mut Kernel, start: usize, len: usize) -> (r: isize)
    requires
        old(k).wf(),
        old(k).has_current(),
        can_count(old(k).current_task(), SYSCALL_MUNMAP),
        len + PAGE_SIZE - 1 <= usize::MAX,
        start % PAGE_SIZE == 0 ==> start + page_count(len as int) * PAGE_SIZE <= usize::MAX + 1,
    ensures
        final(k).wf(),
        old(k).only_current_changed(*final(k)),
        counted(
            TaskControlBlock {
                memory_set: old(k).current_task().memory_set,
                ..final(k).current_task()
            },
            old(k).current_task(),
            SYSCALL_MUNMAP,
        ),
        munmap_result(old(k).current_task().memory_set@, start, len, r, final(k).current_task().memory_set@),
{
    let ghost before = k.current_task();
    let mut t = k.take_current();
    t.count_syscall(SYSCALL_MUNMAP);
    let r = munmap_pages(&mut t.memory_set, start, len);
    k.put_current(t, Ghost(before));
    r
}

/// Moves the end of the heap of the task that runs by `size` bytes (see
/// `TaskControlBlock::change_program_brk`), counting the call. Returns the old end, or -1 when
/// the heap cannot move.
pub fn sys_sbrk(k: &mut Kernel, size: i32) -> (r: isize)
    requires
        old(k).wf(),
        old(k).has_current(),
        can_count(old(k).current_task(), SYSCALL_SBRK),
        brk_feasible(old(k).current_task(), size),
    ensures
        final(k).wf(),
        old(k).only_current_changed(*final(k)),
        ({
            let t0 = old(k).current_task();
            let t1 = final(k).current_task();
            &&& counted(
                TaskControlBlock { memory_set: t0.memory_set, program_brk: t0.program_brk, ..t1 },
                t0,
                SYSCALL_SBRK,
            )
            &&& brk_request(t0, size) < t0.heap_bottom as isize ==> r == -1
                && t1.memory_set@ == t0.memory_set@ && t1.program_brk == t0.program_brk
            &&& brk_request(t0, size) >= t0.heap_bottom as isize ==> {
                let end = (brk_request(t0, size) as isize) as usize;
                let found = has_area_starting_at(t0.memory_set@, floor_vpn(t0.heap_bottom as int));
                &&& r == (if found { t0.program_brk as isize } else { -1isize })
                &&& t1.memory_set@ == resize_area(
                    t0.memory_set@,
                    floor_vpn(t0.heap_bottom as int),
                    ceil_vpn(end as int),
                )
                &&& t1.program_brk == (if found { end } else { t0.program_brk })
            }
        }),
{
    let ghost before = k.current_task();
    let mut t = k.take_current();
    t.count_syscall(SYSCALL_SBRK);
    let r = if let Some(old_brk) = t.change_program_brk(size) {
        old_brk as isize
    } else {
        -1
    };
    k.put_current(t, Ghost(before));
    r
}

/// Sets the priority of the task that runs to `prio` and restarts its stride at
/// `BIG_STRIDE / prio`, counting the call. Returns -1 (changing nothing else) when `prio` is
/// below 2, `prio` otherwise.
pub fn sys_set_priority(k: &mut Kernel, prio: isize) -> (r: isize)
    requires
        old(k).wf(),
        old(k).has_current(),
        can_count(old(k).current_task(), SYSCALL_SET_PRIORITY),
    ensures
        final(k).wf(),
        old(k).only_current_changed(*final(k)),
        prio < 2 ==> r == -1 && counted(final(k).current_task(), old(k).current_task(), SYSCALL_SET_PRIORITY),
        prio >= 2 ==> {
            &&& r == prio
            &&& final(k).current_task().priority == prio as usize
            &&& final(k).current_task().stride == BIG_STRIDE / prio as usize
            &&& counted(
                TaskControlBlock {
                    priority: old(k).current_task().priority,
                    stride: old(k).current_task().stride,
                    ..final(k).current_task()
                },
                old(k).current_task(),
                SYSCALL_SET_PRIORITY,
            )
        },
{
    let ghost before = k.current_task();
    let mut t = k.take_current();
    t.count_syscall(SYSCALL_SET_PRIORITY);
    let r = if prio < 2 {
        -1
    } else {
        t.priority = prio as usize;
        t.stride = BIG_STRIDE / t.priority;
        t.priority as isize
    };
    k.put_current(t, Ghost(before));
    r
}

/// The pid of the task that runs; counts the call.
pub fn sys_getpid(k: &mut Kernel) -> (r: isize)
    requires
        old(k).wf(),
        old(k).has_current(),
        can_count(old(k).current_task(), SYSCALL_GETPID),
    ensures
        final(k).wf(),
        old(k).only_current_changed(*final(k)),
        counted(final(k).current_task(), old(k).current_task(), SYSCALL_GETPID),
        r == old(k).current().unwrap() as isize,
{
    let ghost before = k.current_task();
    let mut t = k.take_current();
    t.count_syscall(SYSCALL_GETPID);
    let r = t.getpid() as isize;
    k.put_current(t, Ghost(before));
    r
}

/// Moment `us` microseconds after boot, in seconds and microseconds.
pub open spec fn time_val_of(us: usize) -> TimeVal {
    TimeVal { sec: (us / 1_000_000) as usize, usec: (us % 1_000_000) as usize }
}

/// Reports the current time, `now_us` microseconds after boot, in `ts`, counting the call.
/// Returns 0.
pub fn sys_get_time(k: &mut Kernel, ts: &mut TimeVal, _tz: usize, now_us: usize) -> (r: isize)
    requires
        old(k).wf(),
        old(k).has_current(),
        can_count(old(k).current_task(), SYSCALL_GET_TIME),
    ensures
        r == 0,
        final(k).wf(),
        old(k).only_current_changed(*final(k)),
        counted(final(k).current_task(), old(k).current_task(), SYSCALL_GET_TIME),
        *final(ts) == time_val_of(now_us),
        final(ts).sec * 1_000_000 + final(ts).usec == now_us,
        final(ts).usec < 1_000_000,
{
    addinfo(k, SYSCALL_GET_TIME);
    let us = now_us;
    *ts = TimeVal { sec: us / 1_000_000, usec: us % 1_000_000 };
    0
}

/// How long task `t` has run at `now_us`, in milliseconds: 0 before its first run.
pub open spec fn running_ms(t: TaskControlBlock, now_us: usize) -> usize {
    match t.first_run_us {
        Some(s) => ((now_us - s) / 1000) as usize,
        None => 0,
    }
}

/// Counts the call, then reports in `ti` the status of the task that runs, the number of
/// calls it made of each syscall (this one included) and how long it has run at `now_us`.
/// Returns 0.
pub fn sys_task_info(k: &mut Kernel, ti: &mut TaskInfo, now_us: usize) -> (r: isize)
    requires
        old(k).wf(),
        old(k).has_current(),
        can_count(old(k).current_task(), SYSCALL_TASK_INFO),
        old(k).current_task().first_run_us is Some ==> old(k).current_task().first_run_us.unwrap()
            <= now_us,
    ensures
        r == 0,
        final(k).wf(),
        old(k).only_current_changed(*final(k)),
        counted(final(k).current_task(), old(k).current_task(), SYSCALL_TASK_INFO),
        final(ti).status == old(k).current_task().task_status,
        final(ti).syscall_times@ == final(k).current_task().syscall_times@,
        final(ti).time == running_ms(old(k).current_task(), now_us),
{
    let ghost before = k.current_task();
    let mut t = k.take_current();
    t.count_syscall(SYSCALL_TASK_INFO);
    let time = match t.first_run_us {
        Some(s) => (now_us - s) / 1000,
        None => 0,
    };
    *ti = TaskInfo { status: t.task_status, syscall_times: t.syscall_times, time };
    k.put_current(t, Ghost(before));
    0
}

/// Replaces the program of the task that runs with the program whose address space is `app`
/// (`None` when no program has the requested name), counting the call. Returns 0, or -1
/// (changing nothing else) when there is no such program.
pub fn sys_exec(k: &mut Kernel, app: Option<MemorySet>) -> (r: isize)
    requires
        old(k).wf(),
        old(k).has_current(),
        can_count(old(k).current_task(), SYSCALL_EXEC),
    ensures
        final(k).wf(),
        old(k).only_current_changed(*final(k)),
        app is None ==> r == -1 && counted(final(k).current_task(), old(k).current_task(), SYSCALL_EXEC),
        app is Some ==> {
            &&& r == 0
            &&& final(k).current_task().memory_set@ == app.unwrap()@
            &&& final(k).current_task().trap_a0 == 0
            &&& counted(
                TaskControlBlock {
                    memory_set: old(k).current_task().memory_set,
                    trap_a0: old(k).current_task().trap_a0,
                    ..final(k).current_task()
                },
                old(k).current_task(),
                SYSCALL_EXEC,
            )
        },
{
    let ghost before = k.current_task();
    let mut t = k.take_current();
    t.count_syscall(SYSCALL_EXEC);
    let r = match app {
        Some(data) => {
            t.exec(data);
            0
        },
        None => -1,
    };
    k.put_current(t, Ghost(before));
    r
}

/// Counts the call, then the task that runs gives up the processor: it becomes ready and joins
/// the back of the ready queue, and no task runs (see `Kernel::suspend_current`). Returns 0.
pub fn sys_yield(k: &mut Kernel) -> (r: isize)
    requires
        old(k).wf(),
        old(k).has_current(),
        can_count(old(k).current_task(), SYSCALL_YIELD),
    ensures
        r == 0,
        final(k).wf(),
        final(k).current() == None::<usize>,
        final(k).queue() == old(k).queue().push(old(k).current().unwrap()),
        final(k).pid_allocator() == old(k).pid_allocator(),
        final(k).tasks() == old(k).tasks().insert(
            old(k).current().unwrap(),
            final(k).tasks()[old(k).current().unwrap()],
        ),
        final(k).tasks()[old(k).current().unwrap()].task_status == TaskStatus::Ready,
        counted(
            TaskControlBlock {
                task_status: old(k).current_task().task_status,
                ..final(k).tasks()[old(k).current().unwrap()]
            },
            old(k).current_task(),
            SYSCALL_YIELD,
        ),
{
    addinfo(k, SYSCALL_YIELD);
    k.suspend_current();
    0
}

/// Whether `k1` is `k0` once its running task `c` (not the first task) has called exit with
/// `exit_code`: the call is counted, `c` becomes a zombie with that exit code and no address
/// space, its children are handed over to the first task (appended to its children, in order),
/// no task runs, and nothing else changes.
pub open spec fn exited(k0: Kernel, k1: Kernel, exit_code: i32) -> bool {
    let c = k0.current().unwrap();
    let orphans = k0.current_task().children@;
    let t0 = k0.tasks();
    let t1 = k1.tasks();
    &&& k1.current() == None::<usize>
    &&& k1.queue() == k0.queue()
    &&& k1.pid_allocator() == k0.pid_allocator()
    &&& t1.dom() =~= t0.dom()
    &&& t1[c].syscall_times@ =~= count_call(t0[c].syscall_times@, SYSCALL_EXIT)
    &&& is_exit_of(t1[c], TaskControlBlock { syscall_times: t1[c].syscall_times, ..t0[c] }, exit_code)
    &&& t1[IDLE_PID].children@ =~= t0[IDLE_PID].children@ + orphans
    &&& (TaskControlBlock { children: t0[IDLE_PID].children, ..t1[IDLE_PID] }) == t0[IDLE_PID]
    &&& forall|j: int|
        0 <= j < orphans.len() ==> t1[#[trigger] orphans[j]] == adopted(t0[orphans[j]], IDLE_PID)
    &&& forall|x: usize|
        #[trigger] t0.contains_key(x) && x != c && x != IDLE_PID && !orphans.contains(x) ==> t1[x] == t0[x]
}

/// Counts the call, then ends the task that runs with `exit_code` (see
/// `Kernel::exit_current`). Returns whether the machine shuts down.
#[verifier::spinoff_prover]
pub fn sys_exit(k: &mut Kernel, exit_code: i32) -> (shutdown: bool)
    requires
        old(k).wf(),
        old(k).has_current(),
        can_count(old(k).current_task(), SYSCALL_EXIT),
    ensures
        final(k).wf(),
        shutdown == (old(k).current().unwrap() == IDLE_PID),
        final(k).queue() == old(k).queue(),
        final(k).pid_allocator() == old(k).pid_allocator(),
        shutdown ==> old(k).only_current_changed(*final(k)) && counted(
            final(k).current_task(),
            old(k).current_task(),
            SYSCALL_EXIT,
        ),
        !shutdown ==> exited(*old(k), *final(k), exit_code),
{
    addinfo(k, SYSCALL_EXIT);
    k.exit_current(exit_code)
}

/// Counts the call, then forks the task that runs (see `Kernel::fork`). Returns the child's
/// pid.
pub fn sys_fork(k: &mut Kernel) -> (r: isize)
    requires
        old(k).wf(),
        old(k).has_current(),
        can_count(old(k).current_task(), SYSCALL_FORK),
        old(k).pid_allocator().can_alloc(),
    ensures
        final(k).wf(),
        ({
            let c = old(k).current().unwrap();
            let n = old(k).next_alloc();
            let t0 = old(k).tasks();
            let t1 = final(k).tasks();
            &&& r == n as isize
            &&& !t0.contains_key(n)
            &&& final(k).current() == old(k).current()
            &&& final(k).queue() == old(k).queue().push(n)
            &&& t1.dom() == t0.dom().insert(n)
            &&& forall|x: usize| x != c && x != n ==> #[trigger] t1[x] == t0[x]
            &&& t1[c].children@ == t0[c].children@.push(n)
            &&& counted(TaskControlBlock { children: t0[c].children, ..t1[c] }, t0[c], SYSCALL_FORK)
            &&& t1[n].trap_a0 == 0
            &&& is_fork_of(TaskControlBlock { trap_a0: t0[c].trap_a0, ..t1[n] }, t0[c], n)
        }),
{
    addinfo(k, SYSCALL_FORK);
    let n = k.fork();
    n as isize
}

/// Counts the call, then, when `app` is the address space of the requested program, creates a
/// child of the task that runs that runs that program (see `Kernel::spawn`) and returns the
/// child's pid. When there is no such program (`app` is `None`) it creates nothing and returns
/// -1: only the call is counted.
pub fn sys_spawn(k: &mut Kernel, app: Option<MemorySet>) -> (r: isize)
    requires
        old(k).wf(),
        old(k).has_current(),
        can_count(old(k).current_task(), SYSCALL_SPAWN),
        app is Some ==> old(k).pid_allocator().can_alloc(),
    ensures
        final(k).wf(),
        app is None ==> r == -1 && old(k).only_current_changed(*final(k)) && counted(
            final(k).current_task(),
            old(k).current_task(),
            SYSCALL_SPAWN,
        ),
        app is Some ==> {
            let c = old(k).current().unwrap();
            let n = old(k).next_alloc();
            let t0 = old(k).tasks();
            let t1 = final(k).tasks();
            &&& r == n as isize
            &&& !t0.contains_key(n)
            &&& final(k).current() == old(k).current()
            &&& final(k).queue() == old(k).queue().push(n)
            &&& t1.dom() == t0.dom().insert(n)
            &&& forall|x: usize| x != c && x != n ==> #[trigger] t1[x] == t0[x]
            &&& t1[c].children@ == t0[c].children@.push(n)
            &&& counted(TaskControlBlock { children: t0[c].children, ..t1[c] }, t0[c], SYSCALL_SPAWN)
            &&& t1[n].memory_set@ == app.unwrap()@
            &&& t1[n].trap_a0 == 0
            &&& is_fork_of(
                TaskControlBlock { trap_a0: t0[c].trap_a0, memory_set: t0[c].memory_set, ..t1[n] },
                t0[c],
                n,
            )
        },
{
    addinfo(k, SYSCALL_SPAWN);
    match app {
        None => -1,
        Some(image) => {
            let n = k.spawn(image);
            n as isize
        },
    }
}

/// Counts the call, then waits for a child of the task that runs (see `Kernel::waitpid`):
/// returns -1 when no child answers `pid`, -2 when none of those has exited, and otherwise
/// reaps the first exited one, storing its exit code in `exit_code_ptr` and returning its pid.
pub fn sys_waitpid(k: &mut Kernel, pid: isize, exit_code_ptr: &mut i32) -> (r: isize)
    requires
        old(k).wf(),
        old(k).has_current(),
        can_count(old(k).current_task(), SYSCALL_WAITPID),
    ensures
        final(k).wf(),
        final(k).current() == old(k).current(),
        final(k).queue() == old(k).queue(),
        ({
            let c = old(k).current().unwrap();
            let ch = old(k).current_task().children@;
            let t0 = old(k).tasks();
            let t1 = final(k).tasks();
            &&& counted(TaskControlBlock { children: t0[c].children, ..t1[c] }, t0[c], SYSCALL_WAITPID)
            &&& !has_reapable_child(ch, t0, pid) ==> {
                &&& r == (if has_matching_child(ch, pid) { -2isize } else { -1isize })
                &&& t1 == t0.insert(c, t1[c])
                &&& t1[c].children@ == ch
                &&& final(k).pid_allocator() == old(k).pid_allocator()
                &&& *final(exit_code_ptr) == *old(exit_code_ptr)
            }
            &&& has_reapable_child(ch, t0, pid) ==> exists|i: int| first_reapable(ch, t0, pid, i)
            &&& forall|i: int|
                #![trigger first_reapable(ch, t0, pid, i)]
                first_reapable(ch, t0, pid, i) ==> {
                    &&& r == ch[i] as isize
                    &&& *final(exit_code_ptr) == t0[ch[i]].exit_code
                    &&& t1 == t0.remove(ch[i]).insert(c, t1[c])
                    &&& t1[c].children@ == ch.remove(i)
                    &&& final(k).pid_allocator().recycled() == old(k).pid_allocator().recycled().push(ch[i])
                    &&& final(k).pid_allocator().next_pid() == old(k).pid_allocator().next_pid()
                }
        }),
{
    let ghost t0 = k.tasks();
    let ghost c = k.current().unwrap();
    let ghost ch = t0[c].children@;
    addinfo(k, SYSCALL_WAITPID);
    let ghost ta = k.tasks();
    proof {
        assert(children_ok(t0, c));
        assert(ta[c].children@ == ch);
        assert forall|j: int| 0 <= j < ch.len() implies #[trigger] ta[ch[j]] == t0[ch[j]] by {
            assert(t0.contains_key(ch[j]));
            assert(ch[j] != c);
        }
        assert forall|i: int| first_reapable(ch, ta, pid, i) == first_reapable(ch, t0, pid, i) by {
            if 0 <= i < ch.len() {
                assert(ta[ch[i]] == t0[ch[i]]);
            }
        }
        assert(has_reapable_child(ch, ta, pid) == has_reapable_child(ch, t0, pid)) by {
            if has_reapable_child(ch, t0, pid) {
                let j = choose|j: int| 0 <= j < ch.len() && reapable(t0, pid, #[trigger] ch[j]);
                assert(ta[ch[j]] == t0[ch[j]]);
            }
            if has_reapable_child(ch, ta, pid) {
                let j = choose|j: int| 0 <= j < ch.len() && reapable(ta, pid, #[trigger] ch[j]);
                assert(ta[ch[j]] == t0[ch[j]]);
            }
        }
    }
    let r = k.waitpid(pid, exit_code_ptr);
    proof {
        assert forall|i: int| #![trigger first_reapable(ch, t0, pid, i)] first_reapable(ch, t0, pid, i) implies k.tasks()
            == t0.remove(ch[i]).insert(c, k.tasks()[c]) by {
            assert(first_reapable(ch, ta, pid, i));
            assert(ta.remove(ch[i]).insert(c, k.tasks()[c]) =~= t0.remove(ch[i]).insert(c, k.tasks()[c]));
        }
        if !has_reapable_child(ch, t0, pid) {
            assert(k.tasks() =~= t0.insert(c, k.tasks()[c]));
        }
    }
    r
}


/// A task that exits is reaped by a wait of its parent for its pid: right after the exit it is
/// still the same child of its parent, it holds its exit code, and it is the first, and only,
/// child that such a wait reaps.
pub proof fn law_exited_task_is_reaped_by_parent(k0: Kernel, k1: Kernel, exit_code: i32, p: usize, i: int)
    requires
        k0.wf(),
        k1.wf(),
        k0.has_current(),
        k0.current() != Some(IDLE_PID),
        exited(k0, k1, exit_code),
        k0.tasks().contains_key(p),
        0 <= i < k0.tasks()[p].children@.len(),
        k0.tasks()[p].children@[i] == k0.current().unwrap(),
    ensures
        k1.tasks()[p].children@[i] == k0.current().unwrap(),
        k1.tasks()[k0.current().unwrap()].task_status == TaskStatus::Zombie,
        k1.tasks()[k0.current().unwrap()].exit_code == exit_code,
        first_reapable(k1.tasks()[p].children@, k1.tasks(), k0.current().unwrap() as isize, i),
{
    let c = k0.current().unwrap();
    let t0 = k0.tasks();
    let t1 = k1.tasks();
    let orphans = t0[c].children@;
    assert(children_ok(t0, p));
    assert(t0.contains_key(c));
    assert(p != c);
    if p == IDLE_PID {
        assert(t1[p].children@[i] == (t0[p].children@ + orphans)[i]);
    } else if orphans.contains(p) {
        let j = choose|j: int| 0 <= j < orphans.len() && orphans[j] == p;
        assert(t1[orphans[j]] == adopted(t0[orphans[j]], IDLE_PID));
    } else {
        assert(t1[p] == t0[p]);
    }
    assert(t1.contains_key(p));
    law_exited_child_answers_wait(k1, p, i);
}

/// The time that `sys_get_time` reports never goes back: a later reading of the timer gives a
/// moment that is not earlier, comparing seconds first and then microseconds.
pub proof fn law_time_never_goes_back(a: usize, b: usize)
    requires
        a <= b,
    ensures
        time_val_of(a).sec < time_val_of(b).sec || (time_val_of(a).sec == time_val_of(b).sec
            && time_val_of(a).usec <= time_val_of(b).usec),
{
    vstd::arithmetic::div_mod::lemma_div_is_ordered(a as int, b as int, 1_000_000);
    vstd::arithmetic::div_mod::lemma_fundamental_div_mod(a as int, 1_000_000);
    vstd::arithmetic::div_mod::lemma_fundamental_div_mod(b as int, 1_000_000);
}

/// Two reports of `sys_task_info` in a row, with no other syscall between them: the second
/// counts one more call of `sys_task_info` than the first, and every other count is the same in
/// both.
pub proof fn law_task_info_counts_each_report(times: Seq<u32>)
    requires
        times.len() == MAX_SYSCALL_NUM,
        times[SYSCALL_TASK_INFO as int] + 2 <= u32::MAX,
    ensures
        ({
            let first = count_call(times, SYSCALL_TASK_INFO);
            let second = count_call(first, SYSCALL_TASK_INFO);
            &&& second[SYSCALL_TASK_INFO as int] == first[SYSCALL_TASK_INFO as int] + 1
            &&& forall|i: int|
                0 <= i < MAX_SYSCALL_NUM && i != SYSCALL_TASK_INFO ==> #[trigger] second[i] == first[i]
        }),
{
}

/// The first page of the pages `0..n` of a request from `start` that conflicts with `areas`, or
/// `n` when none does.
proof fn lemma_first_conflict(areas: Seq<MapArea>, start: int, n: int) -> (k: int)
    requires
        0 <= n,
    ensures
        0 <= k <= n,
        forall|i: int| 0 <= i < k ==> !page_conflict(areas, start, i),
        k < n ==> page_conflict(areas, start, k),
    decreases n,
{
    if n == 0 {
        0
    } else {
        let k = lemma_first_conflict(areas, start, n - 1);
        if k < n - 1 {
            k
        } else if page_conflict(areas, start, n - 1) {
            n - 1
        } else {
            n
        }
    }
}

/// `mmap` maps with the permission that `port` asks for: every area it adds is one page that is
/// user-accessible, readable exactly when bit 0 of `port` is set, writable exactly when bit 1 is
/// set and executable exactly when bit 2 is set, with no other bit; that is, its permission is
/// `MAP_PERM_U + 2 * port` (port 5, read and execute, maps with U|R|X = 26). The areas that were
/// there stay, in order.
pub proof fn law_mmap_maps_with_the_permission_of_port(
    before: Seq<MapArea>,
    start: usize,
    len: usize,
    port: usize,
    r: isize,
    after: Seq<MapArea>,
)
    requires
        mmap_result(before, start, len, port, r, after),
    ensures
        before.len() <= after.len(),
        after.subrange(0, before.len() as int) == before,
        forall|i: int|
            before.len() <= i < after.len() ==> {
                let a = #[trigger] after[i];
                &&& valid_port(port)
                &&& a.end_vpn == a.start_vpn + 1
                &&& a.perm == MAP_PERM_U + 2 * port
                &&& a.perm & MAP_PERM_U != 0
                &&& (a.perm & MAP_PERM_R != 0) == (port & 1 != 0)
                &&& (a.perm & MAP_PERM_W != 0) == (port & 2 != 0)
                &&& (a.perm & MAP_PERM_X != 0) == (port & 4 != 0)
                &&& a.perm & !(MAP_PERM_U | MAP_PERM_R | MAP_PERM_W | MAP_PERM_X) == 0
            },
{
    if start % PAGE_SIZE != 0 || !valid_port(port) {
        assert(after.subrange(0, before.len() as int) =~= before);
        return;
    }
    let n = page_count(len as int);
    let k = lemma_first_conflict(before, start as int, n);
    if k < n {
        assert(page_conflict(before, start as int, k));
    }
    let perm = port_perm(port);
    assert(after == before + page_areas(start as int, 0, k, perm));
    assert(after.subrange(0, before.len() as int) =~= before);
    let p = perm;
    assert(p == MAP_PERM_U + 2 * port && p & 16u8 != 0 && (p & 2u8 != 0) == (port & 1usize != 0) && (
    p & 4u8 != 0) == (port & 2usize != 0) && (p & 8u8 != 0) == (port & 4usize != 0) && p & !(16u8
        | 2u8 | 4u8 | 8u8) == 0) by (bit_vector)
        requires
            0 < port < 8,
            p == (if port & 4 != 0 {
                (if port & 2 != 0 {
                    (if port & 1 != 0 { 16u8 | 2u8 } else { 16u8 }) | 4u8
                } else {
                    (if port & 1 != 0 { 16u8 | 2u8 } else { 16u8 })
                }) | 8u8
            } else {
                (if port & 2 != 0 {
                    (if port & 1 != 0 { 16u8 | 2u8 } else { 16u8 }) | 4u8
                } else {
                    (if port & 1 != 0 { 16u8 | 2u8 } else { 16u8 })
                })
            }),
    ;
    assert forall|i: int| before.len() <= i < after.len() implies #[trigger] after[i] == page_area(
        start as int,
        i - before.len(),
        perm,
    ) by {}
}

/// The running time that `sys_task_info` reports is the time since the task first ran, in whole
/// milliseconds: a task that the scheduler first runs at `s` (or that first ran at `s`) reports,
/// at `now_us`, a number of milliseconds `ms` with `ms * 1000 <= now_us - s < ms * 1000 + 1000`
/// (a task started at 0 and asked at 2_500_000 reports 2500).
pub proof fn law_running_time_is_time_since_first_run(t: TaskControlBlock, s: usize, now_us: usize)
    requires
        t.first_run_us is None || t.first_run_us == Some(s),
        s <= now_us,
    ensures
        ({
            let ms = running_ms(started(t, s), now_us);
            ms * 1000 <= now_us - s < ms * 1000 + 1000
        }),
{
    vstd::arithmetic::div_mod::lemma_fundamental_div_mod((now_us - s) as int, 1000);
    vstd::arithmetic::div_mod::lemma_mod_bound((now_us - s) as int, 1000);
}

/// `mmap` and `munmap` work on the whole pages that `len` bytes span: `page_count(len)` pages
/// are the fewest that hold `len` bytes (none for 0 bytes, one for 1 up to `PAGE_SIZE` bytes).
pub proof fn law_page_count_covers_the_length(len: nat)
    ensures
        page_count(len as int) >= 0,
        page_count(len as int) * PAGE_SIZE >= len,
        page_count(len as int) * PAGE_SIZE < len + PAGE_SIZE,
{
    let n = page_count(len as int);
    vstd::arithmetic::div_mod::lemma_fundamental_div_mod(len + PAGE_SIZE - 1, PAGE_SIZE as int);
    vstd::arithmetic::div_mod::lemma_mod_bound(len + PAGE_SIZE - 1, PAGE_SIZE as int);
    vstd::arithmetic::div_mod::lemma_div_pos_is_pos(len + PAGE_SIZE - 1, PAGE_SIZE as int);
}

/// A successful `mmap` maps exactly the pages of the requested range: for a page-aligned
/// `start` inside the address space, it adds one area per page, the `i`-th for page
/// `start / PAGE_SIZE + i`, as many as the fewest pages that hold `len` bytes.
pub proof fn law_mmap_maps_the_requested_pages(
    before: Seq<MapArea>,
    start: usize,
    len: usize,
    port: usize,
    after: Seq<MapArea>,
)
    requires
        mmap_result(before, start, len, port, 0, after),
        start + len <= va_space(),
    ensures
        start % PAGE_SIZE == 0,
        valid_port(port),
        after.len() == before.len() + page_count(len as int),
        page_count(len as int) * PAGE_SIZE >= len,
        page_count(len as int) * PAGE_SIZE < len + PAGE_SIZE,
        forall|i: int|
            0 <= i < page_count(len as int) ==> (#[trigger] after[before.len() + i]).start_vpn == start
                / PAGE_SIZE + i && after[before.len() + i].end_vpn == start / PAGE_SIZE + i + 1,
{
    law_page_count_covers_the_length(len as nat);
    let n = page_count(len as int);
    let k = lemma_first_conflict(before, start as int, n);
    if k < n {
        assert(page_conflict(before, start as int, k));
    }
    assert(k == n);
    assert(after == before + page_areas(start as int, 0, n, port_perm(port)));
    assert forall|i: int| 0 <= i < n implies (#[trigger] after[before.len() + i]).start_vpn == start
        / PAGE_SIZE + i && after[before.len() + i].end_vpn == start / PAGE_SIZE + i + 1 by {
        assert(after[before.len() + i] == page_area(start as int, i, port_perm(port)));
        let a = start + i * PAGE_SIZE;
        assert(a < va_space()) by (nonlinear_arith)
            requires
                0 <= i < n,
                n * PAGE_SIZE < len + PAGE_SIZE,
                start + len <= va_space(),
                a == start + i * PAGE_SIZE,
        {
            assert(i * PAGE_SIZE <= (n - 1) * PAGE_SIZE);
        }
        vstd::arithmetic::div_mod::lemma_small_mod(a as nat, va_space() as nat);
        vstd::arithmetic::div_mod::lemma_fundamental_div_mod(start as int, PAGE_SIZE as int);
        vstd::arithmetic::div_mod::lemma_div_multiples_vanish_fancy(
            start / PAGE_SIZE + i,
            0,
            PAGE_SIZE as int,
        );
    }
}

} // verus!
