use vstd::prelude::*;

verus! {

/// Hands out process ids: recycled ids first (the most recently freed one), then fresh ones.
pub struct PidAllocator {
    current: usize,
    recycled: Vec<usize>,
}

impl PidAllocator {
    /// The smallest id never handed out.
    pub closed spec fn next_pid(&self) -> usize {
        self.current
    }

    /// The freed ids, in the order they were freed.
    pub closed spec fn recycled(&self) -> Seq<usize> {
        self.recycled@
    }

    /// Whether the ids in `used` are all handed out and not freed, and the freed ids are
    /// distinct ids that were handed out.
    pub open spec fn accounts_for(&self, used: Set<usize>) -> bool {
        &&& self.recycled().no_duplicates()
        &&& forall|i: int| 0 <= i < self.recycled().len() ==> #[trigger] self.recycled()[i] < self.next_pid()
        &&& forall|p: usize| #[trigger] used.contains(p) ==> p < self.next_pid() && !self.recycled().contains(p)
    }

    /// Whether an id can be handed out without running out of ids.
    pub open spec fn can_alloc(&self) -> bool {
        self.recycled().len() > 0 || self.next_pid() < usize::MAX
    }

    /// Whether an id can be handed out (see `can_alloc`).
    pub fn has_free(&self) -> (r: bool)
        ensures
            r == self.can_alloc(),
    {
        self.recycled.len() > 0 || self.current < usize::MAX
    }

    /// An allocator that has handed out nothing.
    pub fn new() -> (r: PidAllocator)
        ensures
            r.next_pid() == 0,
            r.recycled() == Seq::<usize>::empty(),
            r.accounts_for(Set::<usize>::empty()),
    {
        PidAllocator { current: 0, recycled: Vec::new() }
    }

    /// Hands out an id: the most recently freed one if any, else the next fresh one.
    pub fn alloc_pid(&mut self) -> (pid: usize)
        requires
            old(self).can_alloc(),
        ensures
            old(self).recycled().len() > 0 ==> pid == old(self).recycled().last()
                && final(self).recycled() == old(self).recycled().drop_last()
                && final(self).next_pid() == old(self).next_pid(),
            old(self).recycled().len() == 0 ==> pid == old(self).next_pid()
                && final(self).recycled() == old(self).recycled()
                && final(self).next_pid() == old(self).next_pid() + 1,
            forall|used: Set<usize>|
                old(self).accounts_for(used) ==> !used.contains(pid) && final(self).accounts_for(
                    used.insert(pid),
                ),
    {
        if self.recycled.len() > 0 {
            let pid = self.recycled.pop().unwrap();
            proof {
                let old_r = old(self).recycled@;
                assert(old_r == self.recycled@.push(pid));
                assert forall|used: Set<usize>| old(self).accounts_for(used) implies !used.contains(pid)
                    && self.accounts_for(used.insert(pid)) by {
                    assert(old_r[old_r.len() - 1] == pid);
                    assert(old_r.contains(pid));
                    assert forall|p: usize| #[trigger] used.insert(pid).contains(p) implies p
                        < self.current && !self.recycled@.contains(p) by {
                        if p == pid {
                            if self.recycled@.contains(p) {
                                let k = choose|k: int| 0 <= k < self.recycled@.len() && self.recycled@[k] == p;
                                assert(old_r[k] == old_r[old_r.len() - 1]);
                            }
                        } else {
                            if self.recycled@.contains(p) {
                                let k = choose|k: int| 0 <= k < self.recycled@.len() && self.recycled@[k] == p;
                                assert(old_r[k] == p);
                            }
                        }
                    }
                    assert forall|i: int| 0 <= i < self.recycled@.len() implies #[trigger] self.recycled@[i]
                        < self.current by {
                        assert(old_r[i] == self.recycled@[i]);
                    }
                }
            }
            pid
        } else {
            self.current = self.current + 1;
            self.current - 1
        }
    }

    /// Takes back id `pid`, which was handed out and is not freed yet.
    pub fn dealloc_pid(&mut self, pid: usize)
        requires
            pid < old(self).next_pid(),
            !old(self).recycled().contains(pid),
        ensures
            final(self).recycled() == old(self).recycled().push(pid),
            final(self).next_pid() == old(self).next_pid(),
            forall|used: Set<usize>|
                old(self).accounts_for(used) ==> final(self).accounts_for(used.remove(pid)),
    {
        self.recycled.push(pid);
        proof {
            let old_r = old(self).recycled@;
            assert forall|used: Set<usize>| old(self).accounts_for(used) implies self.accounts_for(
                used.remove(pid),
            ) by {
                assert forall|p: usize| #[trigger] used.remove(pid).contains(p) implies p
                    < self.current && !self.recycled@.contains(p) by {
                    if self.recycled@.contains(p) {
                        let k = choose|k: int| 0 <= k < self.recycled@.len() && self.recycled@[k] == p;
                        if k < old_r.len() {
                            assert(old_r[k] == p);
                            assert(old_r.contains(p));
                        }
                    }
                }
                assert forall|i: int| 0 <= i < self.recycled@.len() implies #[trigger] self.recycled@[i]
                    < self.current by {
                    if i < old_r.len() {
                        assert(old_r[i] == self.recycled@[i]);
                    }
                }
                assert(self.recycled@.no_duplicates()) by {
                    assert forall|i: int, j: int|
                        0 <= i < self.recycled@.len() && 0 <= j < self.recycled@.len() && i != j implies self.recycled@[i]
                        != self.recycled@[j] by {
                        if i < old_r.len() && j < old_r.len() {
                            assert(old_r[i] == self.recycled@[i] && old_r[j] == self.recycled@[j]);
                        } else if i < old_r.len() {
                            assert(old_r.contains(old_r[i]));
                        } else if j < old_r.len() {
                            assert(old_r.contains(old_r[j]));
                        }
                    }
                }
            }
        }
    }
}

} // verus!
