use vstd::prelude::*;
use crate::config::{PAGE_SIZE, VA_MASK_SV39};

verus! {

/// Number of addresses in the Sv39 virtual address space.
pub open spec fn va_space() -> int {
    0x80_0000_0000
}

/// The page that holds address `va`.
pub open spec fn floor_vpn(va: int) -> int {
    va / PAGE_SIZE as int
}

/// The first page at or after address `va`.
pub open spec fn ceil_vpn(va: int) -> int {
    (va + PAGE_SIZE - 1) / PAGE_SIZE as int
}

/// Permission bit: readable.
pub const MAP_PERM_R: u8 = 2;

/// Permission bit: writable.
pub const MAP_PERM_W: u8 = 4;

/// Permission bit: executable.
pub const MAP_PERM_X: u8 = 8;

/// Permission bit: accessible from user mode.
pub const MAP_PERM_U: u8 = 16;

/// Page table entry flag: the entry is valid.
pub const PTE_V: u8 = 1;

/// A virtual address; `from_usize` keeps the low 39 bits (the Sv39 width) of a raw address.
#[derive(Clone, Copy)]
pub struct VirtAddr(pub usize);

impl VirtAddr {
    /// The address that `v` denotes: its low 39 bits.
    pub fn from_usize(v: usize) -> (r: VirtAddr)
        ensures
            r.0 == (v as int) % va_space(),
    {
        let w: u64 = v as u64;
        let x: u64 = w & VA_MASK_SV39;
        assert(w & 0x7f_ffff_ffffu64 == w % 0x80_0000_0000u64) by (bit_vector);
        VirtAddr(x as usize)
    }

    /// The page that holds this address.
    pub fn floor(&self) -> (r: usize)
        ensures
            r == floor_vpn(self.0 as int),
    {
        self.0 / PAGE_SIZE
    }

    /// The first page at or after this address.
    pub fn ceil(&self) -> (r: usize)
        ensures
            r == ceil_vpn(self.0 as int),
    {
        if self.0 == 0 {
            0
        } else {
            (self.0 - 1) / PAGE_SIZE + 1
        }
    }
}

/// A contiguous range of virtual pages `[start_vpn, end_vpn)` mapped with one permission.
#[derive(Clone, Copy, PartialEq, Eq, Structural, Debug)]
pub struct MapArea {
    pub start_vpn: usize,
    pub end_vpn: usize,
    pub perm: u8,
}

/// The leaf page table entry that a translation finds.
#[derive(Clone, Copy, PartialEq, Eq, Structural, Debug)]
pub struct PageTableEntry {
    pub flags: u8,
}

impl PageTableEntry {
    pub open spec fn valid(self) -> bool {
        self.flags & PTE_V != 0
    }

    /// Whether the entry maps its page.
    pub fn is_valid(&self) -> (r: bool)
        ensures
            r == self.valid(),
    {
        self.flags & PTE_V != 0
    }
}

/// Whether page `vpn` lies in area `a`.
pub open spec fn area_contains(a: MapArea, vpn: int) -> bool {
    a.start_vpn <= vpn < a.end_vpn
}

/// Whether some area of `areas` maps page `vpn`.
pub open spec fn covers(areas: Seq<MapArea>, vpn: int) -> bool {
    exists|i: int| 0 <= i < areas.len() && #[trigger] area_contains(areas[i], vpn)
}

/// Whether no page is mapped by two areas of `areas`.
pub open spec fn areas_disjoint(areas: Seq<MapArea>) -> bool {
    forall|i: int, j: int, v: int|
        0 <= i < j < areas.len() ==> !(#[trigger] area_contains(areas[i], v)
            && #[trigger] area_contains(areas[j], v))
}

/// Whether `i` is the first index of `areas` whose area starts at page `vpn`.
pub open spec fn first_starting_at(areas: Seq<MapArea>, vpn: int, i: int) -> bool {
    &&& 0 <= i < areas.len()
    &&& areas[i].start_vpn == vpn
    &&& forall|j: int| 0 <= j < i ==> areas[j].start_vpn != vpn
}

/// `areas` without its first area that starts at page `vpn` (unchanged when there is none).
pub open spec fn remove_area_starting_at(areas: Seq<MapArea>, vpn: int) -> Seq<MapArea> {
    if exists|i: int| first_starting_at(areas, vpn, i) {
        areas.remove(choose|i: int| first_starting_at(areas, vpn, i))
    } else {
        areas
    }
}

/// Whether the first area that starts at page `start_vpn` (if any) can be cut back to end at
/// page `new_end`.
pub open spec fn can_shrink(areas: Seq<MapArea>, start_vpn: int, new_end: int) -> bool {
    forall|i: int|
        first_starting_at(areas, start_vpn, i) ==> areas[i].start_vpn <= new_end
            <= areas[i].end_vpn
}

/// Whether the first area that starts at page `start_vpn` (if any) can be extended to end at
/// page `new_end`: the pages it gains are mapped by no area.
pub open spec fn can_append(areas: Seq<MapArea>, start_vpn: int, new_end: int) -> bool {
    forall|i: int|
        first_starting_at(areas, start_vpn, i) ==> {
            &&& areas[i].start_vpn <= areas[i].end_vpn <= new_end
            &&& forall|v: int| areas[i].end_vpn <= v < new_end ==> !covers(areas, v)
        }
}

/// Whether some area starts at page `start_vpn`.
pub open spec fn has_area_starting_at(areas: Seq<MapArea>, start_vpn: int) -> bool {
    exists|i: int| first_starting_at(areas, start_vpn, i)
}

/// `areas` with the first area that starts at page `start_vpn` made to end at page `new_end`
/// (unchanged when no area starts there).
pub open spec fn resize_area(areas: Seq<MapArea>, start_vpn: int, new_end: int) -> Seq<MapArea> {
    if has_area_starting_at(areas, start_vpn) {
        let i = choose|i: int| first_starting_at(areas, start_vpn, i);
        areas.update(i, MapArea { end_vpn: new_end as usize, ..areas[i] })
    } else {
        areas
    }
}

/// The address space of a task: its list of mapped areas, in the order they were added. No page
/// is mapped by two areas.
pub struct MemorySet {
    areas: Vec<MapArea>,
}

impl View for MemorySet {
    type V = Seq<MapArea>;

    closed spec fn view(&self) -> Seq<MapArea> {
        self.areas@
    }
}

impl MemorySet {
    /// The areas never overlap.
    #[verifier::type_invariant]
    spec fn disjoint(self) -> bool {
        areas_disjoint(self.areas@)
    }

    /// An address space with no mapping.
    pub fn new_bare() -> (r: MemorySet)
        ensures
            r@ == Seq::<MapArea>::empty(),
            areas_disjoint(r@),
    {
        MemorySet { areas: Vec::new() }
    }

    /// The mapped areas, in the order they were added.
    pub fn areas(&self) -> (r: &Vec<MapArea>)
        ensures
            r@ == self@,
            areas_disjoint(self@),
    {
        proof {
            use_type_invariant(self);
        }
        &self.areas
    }

    /// Looks up the page table entry of page `vpn`: when an area maps it, a valid entry that
    /// carries the area's permission.
    pub fn translate(&self, vpn: usize) -> (r: Option<PageTableEntry>)
        ensures
            r.is_some() == covers(self@, vpn as int),
            forall|i: int|
                0 <= i < self@.len() && area_contains(#[trigger] self@[i], vpn as int) ==> r == Some(
                    PageTableEntry { flags: self@[i].perm | PTE_V },
                ),
            r.is_some() ==> r.unwrap().valid(),
    {
        proof {
            use_type_invariant(self);
        }
        let mut i: usize = 0;
        while i < self.areas.len()
            invariant
                i <= self.areas.len(),
                areas_disjoint(self.areas@),
                forall|j: int| 0 <= j < i ==> !area_contains(#[trigger] self.areas@[j], vpn as int),
            decreases self.areas.len() - i,
        {
            let a = self.areas[i];
            if a.start_vpn <= vpn && vpn < a.end_vpn {
                assert(area_contains(self.areas@[i as int], vpn as int));
                assert forall|k: int|
                    0 <= k < self@.len() && area_contains(#[trigger] self@[k], vpn as int) implies k
                    == i by {
                    if k < i {
                    } else if k > i {
                        assert(!(area_contains(self.areas@[i as int], vpn as int) && area_contains(
                            self.areas@[k],
                            vpn as int,
                        )));
                    }
                }
                let perm: u8 = a.perm;
                let flags: u8 = perm | PTE_V;
                assert((perm | 1u8) & 1u8 != 0u8) by (bit_vector);
                return Some(PageTableEntry { flags });
            }
            i = i + 1;
        }
        None
    }

    /// Adds a framed area from `start_va` up to `end_va`, mapping each of its pages.
    pub fn insert_framed_area(&mut self, start_va: VirtAddr, end_va: VirtAddr, perm: u8)
        requires
            floor_vpn(start_va.0 as int) <= ceil_vpn(end_va.0 as int),
            forall|v: int|
                floor_vpn(start_va.0 as int) <= v < ceil_vpn(end_va.0 as int) ==> !covers(
                    old(self)@,
                    v,
                ),
        ensures
            final(self)@ == old(self)@.push(
                MapArea {
                    start_vpn: floor_vpn(start_va.0 as int) as usize,
                    end_vpn: ceil_vpn(end_va.0 as int) as usize,
                    perm,
                },
            ),
            areas_disjoint(final(self)@),
    {
        proof {
            use_type_invariant(&*self);
        }
        let start_vpn = start_va.floor();
        let end_vpn = end_va.ceil();
        let area = MapArea { start_vpn, end_vpn, perm };
        proof {
            assert(old(self)@ == self.areas@);
            let s = self.areas@.push(area);
            assert forall|i: int, j: int, v: int|
                0 <= i < j < s.len() implies !(#[trigger] area_contains(s[i], v)
                && #[trigger] area_contains(s[j], v)) by {
                if area_contains(s[i], v) && area_contains(s[j], v) {
                    assert(s[i] == self.areas@[i]);
                    if j == s.len() - 1 {
                        assert(area_contains(self.areas@[i], v));
                        assert(covers(self.areas@, v));
                    } else {
                        assert(s[j] == self.areas@[j]);
                        assert(area_contains(self.areas@[i], v) && area_contains(self.areas@[j], v));
                    }
                }
            }
        }
        let mut areas: Vec<MapArea> = Vec::new();
        std::mem::swap(&mut areas, &mut self.areas);
        areas.push(area);
        self.areas = areas;
    }

    /// Removes the first area that starts at page `start_vpn`, unmapping its pages.
    pub fn remove_area_with_start_vpn(&mut self, start_vpn: usize)
        ensures
            final(self)@ == remove_area_starting_at(old(self)@, start_vpn as int),
            areas_disjoint(final(self)@),
    {
        proof {
            use_type_invariant(&*self);
        }
        let found = self.find_area_starting_at(start_vpn);
        match found {
            Some(i) => {
                proof {
                    lemma_first_starting_at_unique(self.areas@, start_vpn as int);
                    lemma_remove_area_keeps_disjoint(self.areas@, start_vpn as int);
                }
                let mut areas: Vec<MapArea> = Vec::new();
                std::mem::swap(&mut areas, &mut self.areas);
                areas.remove(i);
                self.areas = areas;
            },
            None => {},
        }
    }

    /// A copy of this address space, with the same areas.
    pub fn from_existed_user(user_space: &MemorySet) -> (r: MemorySet)
        ensures
            r@ == user_space@,
            areas_disjoint(r@),
    {
        proof {
            use_type_invariant(user_space);
        }
        let mut areas: Vec<MapArea> = Vec::new();
        let mut i: usize = 0;
        while i < user_space.areas.len()
            invariant
                i <= user_space.areas.len(),
                areas@ == user_space.areas@.take(i as int),
            decreases user_space.areas.len() - i,
        {
            areas.push(user_space.areas[i]);
            i = i + 1;
            assert(areas@ == user_space.areas@.take(i as int));
        }
        assert(user_space.areas@.take(i as int) == user_space.areas@);
        MemorySet { areas }
    }

    /// Unmaps every page: the address space keeps no area.
    pub fn recycle_data_pages(&mut self)
        ensures
            final(self)@ == Seq::<MapArea>::empty(),
            areas_disjoint(final(self)@),
    {
        let mut areas: Vec<MapArea> = Vec::new();
        std::mem::swap(&mut areas, &mut self.areas);
        areas.clear();
        self.areas = areas;
    }

    /// Finds the first area that starts at page `vpn`.
    fn find_area_starting_at(&self, vpn: usize) -> (r: Option<usize>)
        ensures
            r.is_none() == !exists|i: int| first_starting_at(self@, vpn as int, i),
            r.is_some() ==> first_starting_at(self@, vpn as int, r.unwrap() as int),
    {
        let mut i: usize = 0;
        while i < self.areas.len()
            invariant
                i <= self.areas.len(),
                forall|j: int| 0 <= j < i ==> (#[trigger] self.areas@[j]).start_vpn != vpn,
            decreases self.areas.len() - i,
        {
            if self.areas[i].start_vpn == vpn {
                assert(self@ == self.areas@);
                assert(first_starting_at(self.areas@, vpn as int, i as int));
                return Some(i);
            }
            i = i + 1;
        }
        assert(self@ == self.areas@);
        None
    }

    /// Shrinks the area that starts at the page of `start` so that it ends at the page of
    /// `new_end`, unmapping the pages past it. Returns whether there is such an area.
    pub fn shrink_to(&mut self, start: VirtAddr, new_end: VirtAddr) -> (r: bool)
        requires
            can_shrink(old(self)@, floor_vpn(start.0 as int), ceil_vpn(new_end.0 as int)),
        ensures
            r == has_area_starting_at(old(self)@, floor_vpn(start.0 as int)),
            final(self)@ == resize_area(
                old(self)@,
                floor_vpn(start.0 as int),
                ceil_vpn(new_end.0 as int),
            ),
            areas_disjoint(final(self)@),
    {
        self.resize(start, new_end)
    }

    /// Extends the area that starts at the page of `start` so that it ends at the page of
    /// `new_end`, mapping the new pages. Returns whether there is such an area.
    pub fn append_to(&mut self, start: VirtAddr, new_end: VirtAddr) -> (r: bool)
        requires
            can_append(old(self)@, floor_vpn(start.0 as int), ceil_vpn(new_end.0 as int)),
        ensures
            r == has_area_starting_at(old(self)@, floor_vpn(start.0 as int)),
            final(self)@ == resize_area(
                old(self)@,
                floor_vpn(start.0 as int),
                ceil_vpn(new_end.0 as int),
            ),
            areas_disjoint(final(self)@),
    {
        self.resize(start, new_end)
    }

    /// Makes the area that starts at the page of `start` end at the page of `new_end`.
    fn resize(&mut self, start: VirtAddr, new_end: VirtAddr) -> (r: bool)
        requires
            can_shrink(old(self)@, floor_vpn(start.0 as int), ceil_vpn(new_end.0 as int))
                || can_append(old(self)@, floor_vpn(start.0 as int), ceil_vpn(new_end.0 as int)),
        ensures
            r == has_area_starting_at(old(self)@, floor_vpn(start.0 as int)),
            final(self)@ == resize_area(
                old(self)@,
                floor_vpn(start.0 as int),
                ceil_vpn(new_end.0 as int),
            ),
            areas_disjoint(final(self)@),
    {
        proof {
            use_type_invariant(&*self);
        }
        let found = self.find_area_starting_at(start.floor());
        match found {
            Some(i) => {
                proof {
                    lemma_first_starting_at_unique(self.areas@, floor_vpn(start.0 as int));
                    law_resize_keeps_areas_disjoint(
                        self.areas@,
                        floor_vpn(start.0 as int),
                        ceil_vpn(new_end.0 as int),
                    );
                }
                let mut area = self.areas[i];
                area.end_vpn = new_end.ceil();
                let mut areas: Vec<MapArea> = Vec::new();
                std::mem::swap(&mut areas, &mut self.areas);
                areas.set(i, area);
                self.areas = areas;
                true
            },
            None => false,
        }
    }
}

/// Removing an area keeps the areas disjoint.
pub proof fn lemma_remove_area_keeps_disjoint(areas: Seq<MapArea>, vpn: int)
    requires
        areas_disjoint(areas),
    ensures
        areas_disjoint(remove_area_starting_at(areas, vpn)),
{
    if exists|i: int| first_starting_at(areas, vpn, i) {
        let k = choose|i: int| first_starting_at(areas, vpn, i);
        let r = areas.remove(k);
        assert forall|i: int, j: int, v: int|
            0 <= i < j < r.len() implies !(#[trigger] area_contains(r[i], v)
            && #[trigger] area_contains(r[j], v)) by {
            let oi = if i < k { i } else { i + 1 };
            let oj = if j < k { j } else { j + 1 };
            assert(r[i] == areas[oi] && r[j] == areas[oj]);
            assert(!(area_contains(areas[oi], v) && area_contains(areas[oj], v)));
        }
    }
}

/// At most one index is the first area that starts at a page.
pub proof fn lemma_first_starting_at_unique(areas: Seq<MapArea>, vpn: int)
    ensures
        forall|i: int, j: int|
            first_starting_at(areas, vpn, i) && first_starting_at(areas, vpn, j) ==> i == j,
{
    assert forall|i: int, j: int|
        first_starting_at(areas, vpn, i) && first_starting_at(areas, vpn, j) implies i == j by {
        if i < j {
            assert(areas[i].start_vpn == vpn);
        } else if j < i {
            assert(areas[j].start_vpn == vpn);
        }
    }
}

/// Resizing the heap area keeps the areas disjoint, both when it is cut back and when it grows
/// over unmapped pages.
pub proof fn law_resize_keeps_areas_disjoint(areas: Seq<MapArea>, start_vpn: int, new_end: int)
    requires
        areas_disjoint(areas),
        can_shrink(areas, start_vpn, new_end) || can_append(areas, start_vpn, new_end),
        0 <= new_end <= usize::MAX,
    ensures
        areas_disjoint(resize_area(areas, start_vpn, new_end)),
{
    if has_area_starting_at(areas, start_vpn) {
        let k = choose|i: int| first_starting_at(areas, start_vpn, i);
        let r = resize_area(areas, start_vpn, new_end);
        assert forall|i: int, j: int, v: int|
            0 <= i < j < r.len() implies !(#[trigger] area_contains(r[i], v)
            && #[trigger] area_contains(r[j], v)) by {
            if area_contains(r[i], v) && area_contains(r[j], v) {
                if i != k && j != k {
                    assert(area_contains(areas[i], v) && area_contains(areas[j], v));
                } else {
                    let o = if i == k { j } else { i };
                    assert(area_contains(areas[o], v));
                    if area_contains(areas[k], v) {
                        if o < k {
                            assert(area_contains(areas[o], v) && area_contains(areas[k], v));
                        } else {
                            assert(area_contains(areas[k], v) && area_contains(areas[o], v));
                        }
                    } else {
                        assert(can_append(areas, start_vpn, new_end));
                        assert(covers(areas, v));
                    }
                }
            }
        }
    }
}

} // verus!
