use vstd::prelude::*;
use crate::config::{DEFAULT_PRIORITY, IDLE_PID, MAX_SYSCALL_NUM};
use crate::manager::{
    advanced, all_known, fetch_allowed, has_schedulable, is_pick, pid_is_not, queued_tasks,
    TaskManager, TaskTable,
};
use crate::mm::MemorySet;
use crate::pid::PidAllocator;
use crate::task::{adopted, is_exit_of, is_fork_of, TaskControlBlock, TaskStatus};

verus! {

/// Whether the children recorded by task `p` of table `t` are distinct tasks of the table that
/// name `p` as their parent.
pub open spec fn children_ok(t: Map<usize, TaskControlBlock>, p: usize) -> bool {
    &&& t[p].children@.no_duplicates()
    &&& forall|i: int|
        0 <= i < t[p].children@.len() ==> t.contains_key(#[trigger] t[p].children@[i]) && t[t[p].children@[i]].parent
            == Some(p)
}

/// Whether a kernel with task table `t`, ready queue `q`, current task `cur` and pid allocator
/// `pids` is consistent: every task is filed under its pid and its children are consistent; the
/// first task exists; the queue names tasks that have not exited; the current task is running
/// and not queued; and every pid in use is accounted for by the allocator.
pub open spec fn kernel_wf(
    t: Map<usize, TaskControlBlock>,
    q: Seq<usize>,
    cur: Option<usize>,
    pids: PidAllocator,
) -> bool {
    &&& forall|p: usize| #[trigger] t.contains_key(p) ==> t[p].pid == p && children_ok(t, p)
    &&& forall|p: usize| #[trigger] t.contains_key(p) ==> t[p].parent != Some(p)
    &&& t.contains_key(IDLE_PID)
    &&& t[IDLE_PID].parent == None::<usize>
    &&& all_known(q, t)
    &&& forall|i: int| 0 <= i < q.len() ==> t[#[trigger] q[i]].task_status != TaskStatus::Zombie
    &&& cur is Some ==> {
        let c = cur.unwrap();
        &&& t.contains_key(c)
        &&& t[c].task_status == TaskStatus::Running
        &&& !q.contains(c)
    }
    &&& pids.accounts_for(t.dom())
}

/// Task `t` set running, with `now_us` as its start if it has not run before.
pub open spec fn started(t: TaskControlBlock, now_us: usize) -> TaskControlBlock {
    TaskControlBlock {
        task_status: TaskStatus::Running,
        first_run_us: if t.first_run_us is Some { t.first_run_us } else { Some(now_us) },
        ..t
    }
}

/// Whether a child with pid `child` answers a wait for `pid`: -1 waits for any child.
pub open spec fn pid_matches(pid: isize, child: usize) -> bool {
    pid == -1 || #[verifier::truncate] (pid as usize) == child
}

/// Whether the children `ch` hold one that answers a wait for `pid`.
pub open spec fn has_matching_child(ch: Seq<usize>, pid: isize) -> bool {
    exists|i: int| 0 <= i < ch.len() && pid_matches(pid, #[trigger] ch[i])
}

/// Whether child `x` can be reaped by a wait for `pid`: it answers the wait and has exited.
pub open spec fn reapable(t: Map<usize, TaskControlBlock>, pid: isize, x: usize) -> bool {
    t[x].task_status == TaskStatus::Zombie && pid_matches(pid, x)
}

/// Whether the children `ch` hold one that a wait for `pid` can reap.
pub open spec fn has_reapable_child(ch: Seq<usize>, t: Map<usize, TaskControlBlock>, pid: isize) -> bool {
    exists|i: int| 0 <= i < ch.len() && reapable(t, pid, #[trigger] ch[i])
}

/// Whether `i` is the first of the children `ch` that a wait for `pid` can reap.
pub open spec fn first_reapable(ch: Seq<usize>, t: Map<usize, TaskControlBlock>, pid: isize, i: int) -> bool {
    &&& 0 <= i < ch.len()
    &&& reapable(t, pid, ch[i])
    &&& forall|j: int| 0 <= j < i ==> !reapable(t, pid, #[trigger] ch[j])
}

/// Whether `a` and `b` agree on what ties a task into the task tree and the queues: pid,
/// status, parent and children.
pub open spec fn same_shape(a: TaskControlBlock, b: TaskControlBlock) -> bool {
    &&& a.pid == b.pid
    &&& a.task_status == b.task_status
    &&& a.parent == b.parent
    &&& a.children@ == b.children@
}

/// The state of the process subsystem: every task by pid, the ready queue, the task that runs
/// and the pid allocator.
pub struct Kernel {
    tasks: TaskTable,
    manager: TaskManager,
    current: Option<usize>,
    pids: PidAllocator,
}

impl Kernel {
    /// Every task, by pid.
    pub closed spec fn tasks(&self) -> Map<usize, TaskControlBlock> {
        self.tasks@
    }

    /// The ready queue, by pid, front first.
    pub closed spec fn queue(&self) -> Seq<usize> {
        self.manager@
    }

    /// The pid of the task that runs, if any.
    pub closed spec fn current(&self) -> Option<usize> {
        self.current
    }

    /// The pid allocator.
    pub closed spec fn pid_allocator(&self) -> PidAllocator {
        self.pids
    }

    /// Whether the kernel state is consistent (see `kernel_wf`).
    pub open spec fn wf(&self) -> bool {
        kernel_wf(self.tasks(), self.queue(), self.current(), self.pid_allocator())
    }

    /// The task that runs.
    pub open spec fn current_task(&self) -> TaskControlBlock {
        self.tasks()[self.current().unwrap()]
    }

    /// Whether a task runs.
    pub open spec fn has_current(&self) -> bool {
        self.current() is Some
    }

    /// Whether `after` differs from `self` only in the record of the task that runs.
    pub open spec fn only_current_changed(&self, after: Kernel) -> bool {
        &&& after.current() == self.current()
        &&& after.queue() == self.queue()
        &&& after.pid_allocator() == self.pid_allocator()
        &&& after.tasks() == self.tasks().insert(
            self.current().unwrap(),
            after.tasks()[self.current().unwrap()],
        )
    }

    /// A kernel whose only task is the first one (pid `IDLE_PID`), ready to run the program
    /// whose address space is `memory_set`, with its heap starting at `heap_bottom`.
    pub fn new(memory_set: MemorySet, heap_bottom: usize) -> (k: Kernel)
        ensures
            k.wf(),
            k.current() == None::<usize>,
            k.queue() == seq![IDLE_PID],
            k.tasks().dom() == set![IDLE_PID],
            k.tasks()[IDLE_PID].task_status == TaskStatus::Ready,
            k.tasks()[IDLE_PID].parent == None::<usize>,
            k.tasks()[IDLE_PID].children@ == Seq::<usize>::empty(),
            k.tasks()[IDLE_PID].memory_set@ == memory_set@,
            k.tasks()[IDLE_PID].heap_bottom == heap_bottom,
            k.tasks()[IDLE_PID].program_brk == heap_bottom,
            k.tasks()[IDLE_PID].priority == DEFAULT_PRIORITY,
            k.tasks()[IDLE_PID].stride == 0,
            k.tasks()[IDLE_PID].syscall_times@ == Seq::new(MAX_SYSCALL_NUM as nat, |i: int| 0u32),
            k.tasks()[IDLE_PID].first_run_us == None::<usize>,
    {
        let mut pids = PidAllocator::new();
        let pid = pids.alloc_pid();
        let init = TaskControlBlock {
            pid,
            task_status: TaskStatus::Ready,
            priority: DEFAULT_PRIORITY,
            stride: 0,
            exit_code: 0,
            parent: None,
            children: Vec::new(),
            memory_set,
            heap_bottom,
            program_brk: heap_bottom,
            trap_a0: 0,
            syscall_times: [0u32; MAX_SYSCALL_NUM],
            first_run_us: None,
        };
        assert(init.syscall_times@ =~= Seq::new(MAX_SYSCALL_NUM as nat, |i: int| 0u32));
        let mut tasks = TaskTable::new();
        tasks.insert(pid, init);
        let mut manager = TaskManager::new();
        manager.add(pid);
        let k = Kernel { tasks, manager, current: None, pids };
        assert(k.tasks().dom() =~= set![IDLE_PID]);
        assert(Set::<usize>::empty().insert(pid) =~= k.tasks().dom());
        assert(k.queue() =~= seq![IDLE_PID]);
        k
    }

    /// The pid of the task that runs, if any.
    pub fn current_pid(&self) -> (r: Option<usize>)
        ensures
            r == self.current(),
    {
        self.current
    }

    /// The task with pid `pid`, if any.
    pub fn task(&self, pid: usize) -> (r: Option<&TaskControlBlock>)
        ensures
            r.is_some() == self.tasks().contains_key(pid),
            r.is_some() ==> *r.unwrap() == self.tasks()[pid],
    {
        self.tasks.get(pid)
    }

    /// The ready queue, front first.
    pub fn ready_pids(&self) -> (r: Vec<usize>)
        ensures
            r@ == self.queue(),
    {
        self.manager.pids()
    }

    /// Whether `run_next` can run on the current queue without a fault (see `fetch_allowed`).
    pub fn can_run_next(&self) -> (r: bool)
        ensures
            r == fetch_allowed(self.queue(), self.tasks()),
    {
        self.manager.can_fetch(&self.tasks)
    }

    /// Whether a fresh pid can be handed out, as `fork` and `spawn` need.
    pub fn can_alloc_pid(&self) -> (r: bool)
        ensures
            r == self.pid_allocator().can_alloc(),
    {
        self.pids.has_free()
    }

    /// Takes the record of the task that runs out of the table, to be put back with
    /// `put_current`.
    pub(crate) fn take_current(&mut self) -> (t: TaskControlBlock)
        requires
            old(self).wf(),
            old(self).has_current(),
        ensures
            t == old(self).current_task(),
            t.pid == old(self).current().unwrap(),
            kernel_wf(
                final(self).tasks().insert(old(self).current().unwrap(), t),
                final(self).queue(),
                final(self).current(),
                final(self).pid_allocator(),
            ),
            final(self).tasks() == old(self).tasks().remove(old(self).current().unwrap()),
            final(self).queue() == old(self).queue(),
            final(self).current() == old(self).current(),
            final(self).pid_allocator() == old(self).pid_allocator(),
    {
        let c = self.current.unwrap();
        let t = self.tasks.remove(c).unwrap();
        assert(self.tasks@.insert(c, t) =~= old(self).tasks@);
        t
    }

    /// Puts back the record `t` of the task that runs, which keeps the shape of `before`, the
    /// record that was taken out.
    pub(crate) fn put_current(&mut self, t: TaskControlBlock, Ghost(before): Ghost<TaskControlBlock>)
        requires
            old(self).has_current(),
            kernel_wf(
                old(self).tasks().insert(old(self).current().unwrap(), before),
                old(self).queue(),
                old(self).current(),
                old(self).pid_allocator(),
            ),
            same_shape(t, before),
        ensures
            final(self).tasks() == old(self).tasks().insert(old(self).current().unwrap(), t),
            final(self).queue() == old(self).queue(),
            final(self).current() == old(self).current(),
            final(self).pid_allocator() == old(self).pid_allocator(),
            final(self).wf(),
            forall|m: Map<usize, TaskControlBlock>|
                #[trigger] m.remove(old(self).current().unwrap()) == old(self).tasks() ==> final(self).tasks()
                    == m.insert(old(self).current().unwrap(), t),
    {
        let c = self.current.unwrap();
        assert forall|m: Map<usize, TaskControlBlock>|
            #[trigger] m.remove(c) == self.tasks@ implies self.tasks@.insert(c, t) == m.insert(c, t) by {
            assert(m.remove(c).insert(c, t) =~= m.insert(c, t));
        }
        proof {
            lemma_reshape_keeps_wf(
                self.tasks@.insert(c, before),
                self.manager@,
                self.current,
                self.pids,
                c,
                t,
            );
            assert(self.tasks@.insert(c, before).insert(c, t) =~= self.tasks@.insert(c, t));
        }
        self.tasks.insert(c, t);
    }

    /// Runs the next task: takes it out of the ready queue (see `TaskManager::fetch`), marks it
    /// running and, on its first run, records `now_us` as its start. Returns whether there was
    /// a task to run.
    pub fn run_next(&mut self, now_us: usize) -> (r: bool)
        requires
            old(self).wf(),
            !old(self).has_current(),
            fetch_allowed(old(self).queue(), old(self).tasks()),
        ensures
            final(self).wf(),
            final(self).pid_allocator() == old(self).pid_allocator(),
            r == has_schedulable(queued_tasks(old(self).queue(), old(self).tasks())),
            r == final(self).has_current(),
            !r ==> final(self).tasks() == old(self).tasks() && final(self).queue() == old(self).queue(),
            forall|i: int|
                is_pick(queued_tasks(old(self).queue(), old(self).tasks()), i) ==> {
                    let p = old(self).queue()[i];
                    &&& final(self).current() == Some(p)
                    &&& final(self).queue() == old(self).queue().filter(pid_is_not(p))
                    &&& final(self).tasks() == old(self).tasks().insert(
                        p,
                        started(advanced(old(self).tasks()[p]), now_us),
                    )
                },
    {
        let ghost old_tasks = self.tasks@;
        let ghost old_q = self.manager@;
        let next = self.manager.fetch(&mut self.tasks);
        let ghost tasks2 = self.tasks@;
        match next {
            None => false,
            Some(p) => {
                let ghost qt = queued_tasks(old_q, old_tasks);
                let ghost i = choose|i: int| is_pick(qt, i);
                proof {
                    assert(old_q[i] == p);
                    assert(qt[i] == old_tasks[p]);
                }
                let mut t = self.tasks.remove(p).unwrap();
                t.task_status = TaskStatus::Running;
                if t.first_run_us.is_none() {
                    t.first_run_us = Some(now_us);
                }
                self.tasks.insert(p, t);
                self.current = Some(p);
                proof {
                    assert(t == started(advanced(old_tasks[p]), now_us));
                    lemma_run_keeps_wf(old_tasks, old_q, self.manager@, self.pids, p, t);
                    assert(self.tasks@ =~= old_tasks.insert(p, t));
                    assert forall|k: int| is_pick(qt, k) implies k == i by {
                        crate::manager::lemma_pick_unique(qt, k, i);
                    }
                }
                true
            },
        }
    }

    /// The task that runs gives up the processor: it becomes ready and joins the back of the
    /// ready queue; no task runs.
    pub fn suspend_current(&mut self)
        requires
            old(self).wf(),
            old(self).has_current(),
        ensures
            final(self).wf(),
            final(self).current() == None::<usize>,
            final(self).queue() == old(self).queue().push(old(self).current().unwrap()),
            final(self).pid_allocator() == old(self).pid_allocator(),
            final(self).tasks() == old(self).tasks().insert(
                old(self).current().unwrap(),
                TaskControlBlock { task_status: TaskStatus::Ready, ..old(self).current_task() },
            ),
    {
        let c = self.current.unwrap();
        let mut t = self.tasks.remove(c).unwrap();
        t.task_status = TaskStatus::Ready;
        self.tasks.insert(c, t);
        self.manager.add(c);
        self.current = None;
        proof {
            let t0 = old(self).tasks@;
            assert(self.tasks@ =~= t0.insert(c, t));
            lemma_reshape_children(t0, c, t);
            assert(self.tasks@.dom() =~= t0.dom());
            assert forall|i: int| 0 <= i < self.manager@.len() implies self.tasks@.contains_key(
                #[trigger] self.manager@[i],
            ) && self.tasks@[self.manager@[i]].task_status != TaskStatus::Zombie by {
                if i < old(self).manager@.len() {
                    assert(self.manager@[i] == old(self).manager@[i]);
                }
            }
        }
    }
    /// The pid that the allocator hands out next.
    pub open spec fn next_alloc(&self) -> usize {
        if self.pid_allocator().recycled().len() > 0 {
            self.pid_allocator().recycled().last()
        } else {
            self.pid_allocator().next_pid()
        }
    }

    /// Creates a child of the task that runs under a fresh pid, recorded among the parent's
    /// children but not yet filed in the table.
    fn fork_child(&mut self) -> (r: (usize, TaskControlBlock))
        requires
            old(self).wf(),
            old(self).has_current(),
            old(self).pid_allocator().can_alloc(),
        ensures
            r.0 == old(self).next_alloc(),
            !old(self).tasks().contains_key(r.0),
            is_fork_of(r.1, old(self).current_task(), r.0),
            final(self).pid_allocator().accounts_for(old(self).tasks().dom().insert(r.0)),
            final(self).queue() == old(self).queue(),
            final(self).current() == old(self).current(),
            final(self).tasks().dom() == old(self).tasks().dom(),
            forall|x: usize| x != old(self).current().unwrap() ==> #[trigger] final(self).tasks()[x] == old(self).tasks()[x],
            final(self).tasks()[old(self).current().unwrap()].children@ == old(self).current_task().children@.push(r.0),
            (TaskControlBlock {
                children: old(self).current_task().children,
                ..final(self).tasks()[old(self).current().unwrap()]
            }) == old(self).current_task(),
    {
        let c = self.current.unwrap();
        let n = self.pids.alloc_pid();
        let mut parent = self.tasks.remove(c).unwrap();
        let child = parent.new_child(n);
        parent.children.push(n);
        self.tasks.insert(c, parent);
        proof {
            assert(self.tasks@.dom() =~= old(self).tasks@.dom());
        }
        (n, child)
    }

    /// Forks the task that runs: the child, under a fresh pid, is filed in the table, recorded
    /// among the parent's children and queued at the back of the ready queue, with 0 as its
    /// syscall result. Returns the child's pid.
    pub fn fork(&mut self) -> (n: usize)
        requires
            old(self).wf(),
            old(self).has_current(),
            old(self).pid_allocator().can_alloc(),
        ensures
            final(self).wf(),
            n == old(self).next_alloc(),
            !old(self).tasks().contains_key(n),
            n != old(self).current().unwrap(),
            final(self).current() == old(self).current(),
            final(self).queue() == old(self).queue().push(n),
            final(self).tasks().dom() == old(self).tasks().dom().insert(n),
            forall|x: usize|
                x != old(self).current().unwrap() && x != n ==> #[trigger] final(self).tasks()[x] == old(self).tasks()[x],
            final(self).tasks()[old(self).current().unwrap()].children@ == old(self).current_task().children@.push(n),
            (TaskControlBlock {
                children: old(self).current_task().children,
                ..final(self).tasks()[old(self).current().unwrap()]
            }) == old(self).current_task(),
            final(self).tasks()[n].trap_a0 == 0,
            is_fork_of(
                TaskControlBlock { trap_a0: old(self).current_task().trap_a0, ..final(self).tasks()[n] },
                old(self).current_task(),
                n,
            ),
    {
        let ghost t0 = self.tasks@;
        let (n, mut child) = self.fork_child();
        child.trap_a0 = 0;
        self.tasks.insert(n, child);
        self.manager.add(n);
        proof {
            lemma_add_child_keeps_wf(t0, old(self).manager@, self.current.unwrap(), old(self).pids, self.pids, n, self.tasks@);
        }
        n
    }

    /// Creates a child of the task that runs, under a fresh pid, that runs the program whose
    /// address space is `image`: the child is filed in the table, recorded among the parent's
    /// children and queued at the back of the ready queue. Returns the child's pid.
    pub fn spawn(&mut self, image: MemorySet) -> (n: usize)
        requires
            old(self).wf(),
            old(self).has_current(),
            old(self).pid_allocator().can_alloc(),
        ensures
            final(self).wf(),
            n == old(self).next_alloc(),
            !old(self).tasks().contains_key(n),
            n != old(self).current().unwrap(),
            final(self).current() == old(self).current(),
            final(self).queue() == old(self).queue().push(n),
            final(self).tasks().dom() == old(self).tasks().dom().insert(n),
            forall|x: usize|
                x != old(self).current().unwrap() && x != n ==> #[trigger] final(self).tasks()[x] == old(self).tasks()[x],
            final(self).tasks()[old(self).current().unwrap()].children@ == old(self).current_task().children@.push(n),
            (TaskControlBlock {
                children: old(self).current_task().children,
                ..final(self).tasks()[old(self).current().unwrap()]
            }) == old(self).current_task(),
            final(self).tasks()[n].memory_set@ == image@,
            final(self).tasks()[n].trap_a0 == 0,
            is_fork_of(
                TaskControlBlock {
                    trap_a0: old(self).current_task().trap_a0,
                    memory_set: old(self).current_task().memory_set,
                    ..final(self).tasks()[n]
                },
                old(self).current_task(),
                n,
            ),
    {
        let ghost t0 = self.tasks@;
        let (n, mut child) = self.fork_child();
        child.exec(image);
        self.tasks.insert(n, child);
        self.manager.add(n);
        proof {
            lemma_add_child_keeps_wf(t0, old(self).manager@, self.current.unwrap(), old(self).pids, self.pids, n, self.tasks@);
        }
        n
    }

    /// Waits for a child of the task that runs: `pid` names the child, -1 any child. Returns -1
    /// when no child answers and -2 when the children that answer have all not exited (nothing
    /// changes either way). Otherwise reaps the first exited child that answers: it leaves the
    /// parent's children and the table, its pid goes back to the allocator, its exit code is
    /// stored in `exit_code`, and its pid is returned.
    pub fn waitpid(&mut self, pid: isize, exit_code: &mut i32) -> (r: isize)
        requires
            old(self).wf(),
            old(self).has_current(),
        ensures
            final(self).wf(),
            final(self).current() == old(self).current(),
            final(self).queue() == old(self).queue(),
            !has_matching_child(old(self).current_task().children@, pid) ==> r == -1
                && final(self).tasks() == old(self).tasks() && final(self).pid_allocator()
                == old(self).pid_allocator() && *final(exit_code) == *old(exit_code),
            has_matching_child(old(self).current_task().children@, pid) && !has_reapable_child(
                old(self).current_task().children@,
                old(self).tasks(),
                pid,
            ) ==> r == -2 && final(self).tasks() == old(self).tasks() && final(self).pid_allocator()
                == old(self).pid_allocator() && *final(exit_code) == *old(exit_code),
            has_reapable_child(old(self).current_task().children@, old(self).tasks(), pid)
                ==> exists|i: int| first_reapable(old(self).current_task().children@, old(self).tasks(), pid, i),
            forall|i: int|
                #![trigger first_reapable(old(self).current_task().children@, old(self).tasks(), pid, i)]
                first_reapable(old(self).current_task().children@, old(self).tasks(), pid, i) ==> {
                    let x = old(self).current_task().children@[i];
                    let c = old(self).current().unwrap();
                    &&& r == x as isize
                    &&& *final(exit_code) == old(self).tasks()[x].exit_code
                    &&& final(self).tasks() == old(self).tasks().remove(x).insert(c, final(self).tasks()[c])
                    &&& final(self).tasks()[c].children@ == old(self).current_task().children@.remove(i)
                    &&& (TaskControlBlock {
                        children: old(self).current_task().children,
                        ..final(self).tasks()[c]
                    }) == old(self).current_task()
                    &&& final(self).pid_allocator().recycled() == old(self).pid_allocator().recycled().push(x)
                    &&& final(self).pid_allocator().next_pid() == old(self).pid_allocator().next_pid()
                },
    {
        let c = self.current.unwrap();
        let ghost t0 = self.tasks@;
        let ghost ch = t0[c].children@;
        let mut any = false;
        let mut found: Option<usize> = None;
        {
            let parent = self.tasks.get(c).unwrap();
            let mut i: usize = 0;
            while i < parent.children.len()
                invariant
                    *parent == t0[c],
                    t0 == self.tasks@,
                    kernel_wf(t0, self.manager@, self.current, self.pids),
                    self.current == Some(c),
                    ch == parent.children@,
                    i <= ch.len(),
                    any == exists|j: int| 0 <= j < i && pid_matches(pid, #[trigger] ch[j]),
                    found.is_none() ==> forall|j: int| 0 <= j < i ==> !reapable(t0, pid, #[trigger] ch[j]),
                    found.is_some() ==> first_reapable(ch, t0, pid, found.unwrap() as int),
                decreases ch.len() - i,
            {
                let x = parent.children[i];
                if pid == -1 || #[verifier::truncate] (pid as usize) == x {
                    any = true;
                    assert(pid_matches(pid, ch[i as int]));
                    if found.is_none() {
                        assert(children_ok(t0, c));
                        let ct = self.tasks.get(x).unwrap();
                        if ct.is_zombie() {
                            found = Some(i);
                        }
                    }
                }
                i = i + 1;
            }
        }
        if !any {
            return -1;
        }
        match found {
            None => {
                assert(!has_reapable_child(ch, t0, pid)) by {
                    if has_reapable_child(ch, t0, pid) {
                        let j = choose|j: int| 0 <= j < ch.len() && reapable(t0, pid, #[trigger] ch[j]);
                    }
                }
                -2
            },
            Some(idx) => {
                assert forall|k: int| first_reapable(ch, t0, pid, k) implies k == idx by {
                    if k < idx {
                        assert(reapable(t0, pid, ch[k]));
                    } else if k > idx {
                        assert(reapable(t0, pid, ch[idx as int]));
                    }
                }
                let mut parent = self.tasks.remove(c).unwrap();
                let x = parent.children.remove(idx);
                self.tasks.insert(c, parent);
                let child = self.tasks.remove(x).unwrap();
                proof {
                    assert(children_ok(t0, c));
                    assert(t0.contains_key(x));
                    assert(t0.dom().contains(x));
                }
                self.pids.dealloc_pid(x);
                *exit_code = child.exit_code;
                proof {
                    lemma_reap_keeps_wf(t0, self.manager@, c, old(self).pids, self.pids, idx as int, self.tasks@);
                    assert(self.tasks@ =~= t0.remove(x).insert(c, self.tasks@[c]));
                }
                x as isize
            },
        }
    }

    /// Ends the task that runs with `exit_code`. When it is the first task (pid `IDLE_PID`)
    /// the machine shuts down: returns true and changes nothing. Otherwise the task becomes a
    /// zombie with that exit code and loses its address space, its children are handed over to
    /// the first task (appended to its children, in order), no task runs, and false is returned.
    pub fn exit_current(&mut self, exit_code: i32) -> (shutdown: bool)
        requires
            old(self).wf(),
            old(self).has_current(),
        ensures
            final(self).wf(),
            shutdown == (old(self).current().unwrap() == IDLE_PID),
            final(self).queue() == old(self).queue(),
            final(self).pid_allocator() == old(self).pid_allocator(),
            shutdown ==> final(self).tasks() == old(self).tasks() && final(self).current()
                == old(self).current(),
            !shutdown ==> {
                let c = old(self).current().unwrap();
                let orphans = old(self).current_task().children@;
                let t0 = old(self).tasks();
                &&& final(self).current() == None::<usize>
                &&& final(self).tasks().dom() == t0.dom()
                &&& is_exit_of(final(self).tasks()[c], t0[c], exit_code)
                &&& final(self).tasks()[IDLE_PID].children@ == t0[IDLE_PID].children@ + orphans
                &&& (TaskControlBlock {
                    children: t0[IDLE_PID].children,
                    ..final(self).tasks()[IDLE_PID]
                }) == t0[IDLE_PID]
                &&& forall|j: int|
                    0 <= j < orphans.len() ==> final(self).tasks()[#[trigger] orphans[j]] == adopted(
                        t0[orphans[j]],
                        IDLE_PID,
                    )
                &&& forall|x: usize|
                    #[trigger] t0.contains_key(x) && x != c && x != IDLE_PID && !orphans.contains(x)
                        ==> final(self).tasks()[x] == t0[x]
            },
    {
        let c = self.current.unwrap();
        if c == IDLE_PID {
            return true;
        }
        let ghost t0 = self.tasks@;
        let ghost orph = t0[c].children@;
        proof {
            assert(children_ok(t0, c));
            assert(t0.contains_key(IDLE_PID));
        }
        let mut t = self.tasks.remove(c).unwrap();
        t.task_status = TaskStatus::Zombie;
        t.exit_code = exit_code;
        let mut orphans: Vec<usize> = Vec::new();
        std::mem::swap(&mut orphans, &mut t.children);
        t.memory_set.recycle_data_pages();
        let ghost tc = t;
        self.tasks.insert(c, t);
        let ghost t1 = self.tasks@;
        let mut init = self.tasks.remove(IDLE_PID).unwrap();
        let mut k: usize = 0;
        while k < orphans.len()
            invariant
                orphans@ == orph,
                orph == t0[c].children@,
                kernel_wf(t0, self.manager@, Some(c), self.pids),
                self.manager@ == old(self).manager@,
                self.pids == old(self).pids,
                self.current == Some(c),
                c != IDLE_PID,
                t0.contains_key(c),
                t0.contains_key(IDLE_PID),
                t1 == t0.insert(c, tc),
                children_ok(t0, c),
                forall|p: usize| #[trigger] t0.contains_key(p) ==> t0[p].pid == p && t0[p].parent != Some(p),
                t0[IDLE_PID].parent == None::<usize>,
                k <= orph.len(),
                self.tasks@.dom() == t1.dom().remove(IDLE_PID),
                forall|j: int| 0 <= j < k ==> self.tasks@[#[trigger] orph[j]] == adopted(t0[orph[j]], IDLE_PID),
                forall|y: usize|
                    #[trigger] self.tasks@.contains_key(y) && (forall|j: int| 0 <= j < k ==> orph[j] != y)
                        ==> self.tasks@[y] == t1[y],
                init.children@ == t0[IDLE_PID].children@ + orph.take(k as int),
                (TaskControlBlock { children: t0[IDLE_PID].children, ..init }) == t0[IDLE_PID],
            decreases orph.len() - k,
        {
            let x = orphans[k];
            proof {
                assert(x == t0[c].children@[k as int]);
                assert(t0.contains_key(x));
                assert(t0[x].parent == Some(c));
                assert(x != IDLE_PID);
                assert(x != c);
                assert forall|j: int| 0 <= j < k implies orph[j] != x by {
                    assert(orph.no_duplicates());
                }
                assert(self.tasks@.contains_key(x));
                assert(self.tasks@[x] == t1[x]);
            }
            let mut ct = self.tasks.remove(x).unwrap();
            ct.parent = Some(IDLE_PID);
            self.tasks.insert(x, ct);
            init.children.push(x);
            proof {
                assert(orph.take(k as int + 1) =~= orph.take(k as int).push(x));
                assert(self.tasks@.dom() =~= t1.dom().remove(IDLE_PID));
                assert forall|y: usize|
                    #[trigger] self.tasks@.contains_key(y) && (forall|j: int| 0 <= j < k + 1 ==> orph[j] != y)
                        implies self.tasks@[y] == t1[y] by {
                    assert(orph[k as int] != y);
                }
            }
            k = k + 1;
        }
        self.tasks.insert(IDLE_PID, init);
        self.current = None;
        proof {
            assert(orph.take(k as int) =~= orph);
            let u = self.tasks@;
            assert(u.dom() =~= t0.dom());
            assert forall|j: int| 0 <= j < orph.len() implies u[#[trigger] orph[j]] == adopted(t0[orph[j]], IDLE_PID) by {
                assert(t0.contains_key(orph[j]));
                assert(t0[orph[j]].parent == Some(c));
            }
            assert forall|x: usize| #[trigger] t0.contains_key(x) && x != c && x != IDLE_PID && !orph.contains(x)
                implies u[x] == t0[x] by {
                assert forall|j: int| 0 <= j < orph.len() implies orph[j] != x by {
                    if orph[j] == x {
                        assert(orph.contains(x));
                    }
                }
            }
            assert(u[c] == tc);
            lemma_exit_keeps_wf(t0, self.manager@, c, self.pids, exit_code, u);
        }
        false
    }

}

/// Ending the running task `c` and handing its children to the first task keeps the kernel
/// consistent.
proof fn lemma_exit_keeps_wf(
    t: Map<usize, TaskControlBlock>,
    q: Seq<usize>,
    c: usize,
    pids: PidAllocator,
    exit_code: i32,
    u: Map<usize, TaskControlBlock>,
)
    requires
        kernel_wf(t, q, Some(c), pids),
        c != IDLE_PID,
        u.dom() == t.dom(),
        is_exit_of(u[c], t[c], exit_code),
        u[IDLE_PID].children@ == t[IDLE_PID].children@ + t[c].children@,
        (TaskControlBlock { children: t[IDLE_PID].children, ..u[IDLE_PID] }) == t[IDLE_PID],
        forall|j: int|
            0 <= j < t[c].children@.len() ==> u[#[trigger] t[c].children@[j]] == adopted(
                t[t[c].children@[j]],
                IDLE_PID,
            ),
        forall|x: usize|
            #[trigger] t.contains_key(x) && x != c && x != IDLE_PID && !t[c].children@.contains(x)
                ==> u[x] == t[x],
    ensures
        kernel_wf(u, q, None, pids),
{
    let orph = t[c].children@;
    assert(children_ok(t, c));
    assert(children_ok(t, IDLE_PID));
    // every task that is not an orphan keeps its parent
    assert forall|y: usize| #[trigger] t.contains_key(y) && !orph.contains(y) implies u[y].parent == t[y].parent
        && u[y].pid == t[y].pid by {
        if y == c {
        } else if y == IDLE_PID {
        } else {
        }
    }
    assert forall|j: int| 0 <= j < orph.len() implies t.contains_key(#[trigger] orph[j]) && orph[j] != IDLE_PID
        && orph[j] != c && t[orph[j]].parent == Some(c) by {
    }
    assert forall|p: usize| #[trigger] u.contains_key(p) implies u[p].pid == p && children_ok(u, p) by {
        assert(t.contains_key(p));
        assert(children_ok(t, p));
        if p == c {
        } else if p == IDLE_PID {
            let ch = u[IDLE_PID].children@;
            let a0 = t[IDLE_PID].children@;
            assert forall|i: int| 0 <= i < ch.len() implies u.contains_key(#[trigger] ch[i]) && u[ch[i]].parent
                == Some(IDLE_PID) by {
                if i < a0.len() {
                    assert(ch[i] == a0[i]);
                    assert(t.contains_key(a0[i]) && t[a0[i]].parent == Some(IDLE_PID));
                    if orph.contains(a0[i]) {
                        let j = choose|j: int| 0 <= j < orph.len() && orph[j] == a0[i];
                        assert(t[orph[j]].parent == Some(c));
                    }
                } else {
                    assert(ch[i] == orph[i - a0.len()]);
                }
            }
            assert(ch.no_duplicates()) by {
                assert forall|a: int, b: int| 0 <= a < ch.len() && 0 <= b < ch.len() && a != b implies ch[a]
                    != ch[b] by {
                    if a < a0.len() && b < a0.len() {
                        assert(ch[a] == a0[a] && ch[b] == a0[b]);
                    } else if a >= a0.len() && b >= a0.len() {
                        assert(ch[a] == orph[a - a0.len()] && ch[b] == orph[b - a0.len()]);
                    } else if a < a0.len() {
                        assert(ch[a] == a0[a] && ch[b] == orph[b - a0.len()]);
                        assert(t[a0[a]].parent == Some(IDLE_PID));
                        assert(t[orph[b - a0.len()]].parent == Some(c));
                    } else {
                        assert(ch[b] == a0[b] && ch[a] == orph[a - a0.len()]);
                        assert(t[a0[b]].parent == Some(IDLE_PID));
                        assert(t[orph[a - a0.len()]].parent == Some(c));
                    }
                }
            }
        } else {
            assert(u[p].children@ == t[p].children@) by {
                if orph.contains(p) {
                    let j = choose|j: int| 0 <= j < orph.len() && orph[j] == p;
                    assert(u[orph[j]] == adopted(t[orph[j]], IDLE_PID));
                }
            }
            assert forall|k: int| 0 <= k < u[p].children@.len() implies u.contains_key(
                #[trigger] u[p].children@[k],
            ) && u[u[p].children@[k]].parent == Some(p) by {
                let y = t[p].children@[k];
                assert(t.contains_key(y) && t[y].parent == Some(p));
                if orph.contains(y) {
                    let j = choose|j: int| 0 <= j < orph.len() && orph[j] == y;
                    assert(t[orph[j]].parent == Some(c));
                }
            }
        }
    }
    assert forall|p: usize| #[trigger] u.contains_key(p) implies u[p].parent != Some(p) by {
        assert(t.contains_key(p));
        if orph.contains(p) {
            let j = choose|j: int| 0 <= j < orph.len() && orph[j] == p;
            assert(u[orph[j]] == adopted(t[orph[j]], IDLE_PID));
        }
    }
    assert(u[IDLE_PID].parent == None::<usize>);
    assert forall|i: int| 0 <= i < q.len() implies u.contains_key(#[trigger] q[i])
        && u[q[i]].task_status != TaskStatus::Zombie by {
        assert(t.contains_key(q[i]));
        assert(q[i] != c);
        if orph.contains(q[i]) {
            let j = choose|j: int| 0 <= j < orph.len() && orph[j] == q[i];
            assert(u[orph[j]] == adopted(t[orph[j]], IDLE_PID));
        }
    }
    assert(u.dom() =~= t.dom());
}

/// Reaping the exited child at position `i` of the running task `c` keeps the kernel
/// consistent.
proof fn lemma_reap_keeps_wf(
    t: Map<usize, TaskControlBlock>,
    q: Seq<usize>,
    c: usize,
    pids0: PidAllocator,
    pids: PidAllocator,
    i: int,
    u: Map<usize, TaskControlBlock>,
)
    requires
        kernel_wf(t, q, Some(c), pids0),
        0 <= i < t[c].children@.len(),
        t[t[c].children@[i]].task_status == TaskStatus::Zombie,
        pids.accounts_for(t.dom().remove(t[c].children@[i])),
        u.dom() == t.dom().remove(t[c].children@[i]),
        forall|x: usize| x != c && u.contains_key(x) ==> #[trigger] u[x] == t[x],
        u[c].pid == c,
        u[c].task_status == t[c].task_status,
        u[c].parent == t[c].parent,
        u[c].children@ == t[c].children@.remove(i),
    ensures
        kernel_wf(u, q, Some(c), pids),
{
    let x = t[c].children@[i];
    assert(children_ok(t, c));
    assert(t.contains_key(x));
    assert(x != c);
    assert(x != IDLE_PID);
    assert forall|p: usize| #[trigger] u.contains_key(p) implies u[p].pid == p && children_ok(u, p) by {
        assert(t.contains_key(p));
        assert(children_ok(t, p));
        if p == c {
            let ch = u[c].children@;
            let och = t[c].children@;
            assert forall|a: int| 0 <= a < ch.len() implies u.contains_key(#[trigger] ch[a]) && u[ch[a]].parent
                == Some(c) by {
                let oa = if a < i { a } else { a + 1 };
                assert(ch[a] == och[oa]);
                assert(t.contains_key(och[oa]));
                assert(och[oa] != x);
            }
            assert(ch.no_duplicates()) by {
                assert forall|a: int, b: int| 0 <= a < ch.len() && 0 <= b < ch.len() && a != b implies ch[a]
                    != ch[b] by {
                    let oa = if a < i { a } else { a + 1 };
                    let ob = if b < i { b } else { b + 1 };
                    assert(ch[a] == och[oa] && ch[b] == och[ob]);
                }
            }
        } else {
            assert forall|k: int| 0 <= k < u[p].children@.len() implies u.contains_key(
                #[trigger] u[p].children@[k],
            ) && u[u[p].children@[k]].parent == Some(p) by {
                let y = t[p].children@[k];
                assert(t.contains_key(y));
                assert(t[y].parent == Some(p));
                if y == x {
                    assert(t[x].parent == Some(c));
                }
            }
        }
    }
    assert forall|k: int| 0 <= k < q.len() implies u.contains_key(#[trigger] q[k])
        && u[q[k]].task_status != TaskStatus::Zombie by {
        assert(t.contains_key(q[k]));
    }
}

/// Filing a new ready child `n` of the running task `c` keeps the kernel consistent.
proof fn lemma_add_child_keeps_wf(
    t: Map<usize, TaskControlBlock>,
    q: Seq<usize>,
    c: usize,
    pids0: PidAllocator,
    pids: PidAllocator,
    n: usize,
    u: Map<usize, TaskControlBlock>,
)
    requires
        kernel_wf(t, q, Some(c), pids0),
        !t.contains_key(n),
        pids.accounts_for(t.dom().insert(n)),
        u.dom() == t.dom().insert(n),
        forall|x: usize| x != c && x != n ==> #[trigger] u[x] == t[x],
        u[c].pid == c,
        u[c].task_status == t[c].task_status,
        u[c].parent == t[c].parent,
        u[c].children@ == t[c].children@.push(n),
        u[n].pid == n,
        u[n].task_status == TaskStatus::Ready,
        u[n].parent == Some(c),
        u[n].children@ == Seq::<usize>::empty(),
    ensures
        kernel_wf(u, q.push(n), Some(c), pids),
{
    assert(n != c);
    assert forall|p: usize| #[trigger] u.contains_key(p) implies u[p].pid == p && children_ok(u, p) by {
        if p == n {
        } else {
            assert(t.contains_key(p));
            assert(children_ok(t, p));
            if p == c {
                let ch = u[c].children@;
                assert(ch.no_duplicates()) by {
                    assert forall|a: int, b: int| 0 <= a < ch.len() && 0 <= b < ch.len() && a != b implies ch[a]
                        != ch[b] by {
                        if a < ch.len() - 1 && b < ch.len() - 1 {
                            assert(ch[a] == t[c].children@[a] && ch[b] == t[c].children@[b]);
                        } else if a < ch.len() - 1 {
                            assert(t.contains_key(t[c].children@[a]));
                        } else {
                            assert(t.contains_key(t[c].children@[b]));
                        }
                    }
                }
                assert forall|i: int| 0 <= i < ch.len() implies u.contains_key(#[trigger] ch[i]) && u[ch[i]].parent
                    == Some(c) by {
                    if i < ch.len() - 1 {
                        assert(ch[i] == t[c].children@[i]);
                        assert(t.contains_key(t[c].children@[i]));
                    }
                }
            } else {
                assert forall|i: int| 0 <= i < u[p].children@.len() implies u.contains_key(
                    #[trigger] u[p].children@[i],
                ) && u[u[p].children@[i]].parent == Some(p) by {
                    let x = t[p].children@[i];
                    assert(t.contains_key(x));
                    assert(t[x].parent == Some(p));
                    if x == c {
                    }
                }
            }
        }
    }
    assert(u.contains_key(IDLE_PID));
    assert forall|i: int| 0 <= i < q.push(n).len() implies u.contains_key(#[trigger] q.push(n)[i])
        && u[q.push(n)[i]].task_status != TaskStatus::Zombie by {
        if i < q.len() {
            assert(q.push(n)[i] == q[i]);
            assert(t.contains_key(q[i]));
        }
    }
    assert(!q.push(n).contains(c)) by {
        if q.push(n).contains(c) {
            let j = choose|j: int| 0 <= j < q.push(n).len() && q.push(n)[j] == c;
            if j < q.len() {
                assert(q[j] == c);
            }
        }
    }
    assert(u.dom() =~= t.dom().insert(n));
}

/// Changing a task's record without changing its pid, parent or children keeps every task's
/// children consistent.
pub proof fn lemma_reshape_children(t: Map<usize, TaskControlBlock>, c: usize, n: TaskControlBlock)
    requires
        t.contains_key(c),
        forall|p: usize| #[trigger] t.contains_key(p) ==> t[p].pid == p && children_ok(t, p),
        n.pid == t[c].pid,
        n.parent == t[c].parent,
        n.children@ == t[c].children@,
    ensures
        forall|p: usize|
            #[trigger] t.insert(c, n).contains_key(p) ==> t.insert(c, n)[p].pid == p && children_ok(
                t.insert(c, n),
                p,
            ),
{
    let u = t.insert(c, n);
    assert forall|p: usize| #[trigger] u.contains_key(p) implies u[p].pid == p && children_ok(u, p) by {
        assert(t.contains_key(p));
        assert(children_ok(t, p));
        assert(u[p].children@ == t[p].children@);
        assert forall|i: int| 0 <= i < u[p].children@.len() implies u.contains_key(
            #[trigger] u[p].children@[i],
        ) && u[u[p].children@[i]].parent == Some(p) by {
            assert(t.contains_key(t[p].children@[i]));
        }
    }
}

/// Changing the record of task `c` without changing its shape keeps the kernel consistent.
pub proof fn lemma_reshape_keeps_wf(
    t: Map<usize, TaskControlBlock>,
    q: Seq<usize>,
    cur: Option<usize>,
    pids: PidAllocator,
    c: usize,
    n: TaskControlBlock,
)
    requires
        kernel_wf(t, q, cur, pids),
        t.contains_key(c),
        same_shape(n, t[c]),
    ensures
        kernel_wf(t.insert(c, n), q, cur, pids),
{
    lemma_reshape_children(t, c, n);
    let u = t.insert(c, n);
    assert(u.dom() =~= t.dom());
    assert forall|i: int| 0 <= i < q.len() implies u.contains_key(#[trigger] q[i])
        && u[q[i]].task_status != TaskStatus::Zombie by {
        assert(t.contains_key(q[i]));
    }
}

/// Marking the fetched task `p` running keeps the kernel consistent.
proof fn lemma_run_keeps_wf(
    t: Map<usize, TaskControlBlock>,
    q: Seq<usize>,
    q2: Seq<usize>,
    pids: PidAllocator,
    p: usize,
    n: TaskControlBlock,
)
    requires
        kernel_wf(t, q, None, pids),
        t.contains_key(p),
        n.pid == p,
        n.parent == t[p].parent,
        n.children@ == t[p].children@,
        n.task_status == TaskStatus::Running,
        q2 == q.filter(pid_is_not(p)),
    ensures
        kernel_wf(t.insert(p, n), q2, Some(p), pids),
{
    let u = t.insert(p, n);
    assert(u.dom() =~= t.dom());
    lemma_reshape_children(t, p, n);
    assert forall|i: int| 0 <= i < q2.len() implies u.contains_key(#[trigger] q2[i])
        && u[q2[i]].task_status != TaskStatus::Zombie by {
        q.filter_lemma(pid_is_not(p));
        assert(q2.contains(q2[i]));
        q.lemma_filter_contains_rev(pid_is_not(p), q2[i]);
        let j = choose|j: int| 0 <= j < q.len() && q[j] == q2[i];
        assert(t.contains_key(q[j]));
        assert(pid_is_not(p)(q2[i]));
    }
    assert(!q2.contains(p)) by {
        q.filter_lemma(pid_is_not(p));
        if q2.contains(p) {
            let j = choose|j: int| 0 <= j < q2.len() && q2[j] == p;
            assert(pid_is_not(p)(q2[j]));
        }
    }
}

/// A pid in use, read back from the `isize` that a syscall returns, names the same task and is
/// not the -1 that stands for any child.
proof fn lemma_pid_round_trip(x: usize, bound: usize)
    requires
        x < bound,
    ensures
        (x as isize) != -1,
        #[verifier::truncate] ((x as isize) as usize) == x,
{
    assert((x as isize) != -1 && #[verifier::truncate] ((x as isize) as usize) == x) by (bit_vector)
        requires
            x < bound,
    ;
}

/// A child that has exited answers a wait for its pid: it is the first, and only, child that
/// such a wait reaps.
pub proof fn law_exited_child_answers_wait(k: Kernel, p: usize, i: int)
    requires
        k.wf(),
        k.tasks().contains_key(p),
        0 <= i < k.tasks()[p].children@.len(),
        k.tasks()[k.tasks()[p].children@[i]].task_status == TaskStatus::Zombie,
    ensures
        first_reapable(k.tasks()[p].children@, k.tasks(), k.tasks()[p].children@[i] as isize, i),
{
    let t = k.tasks();
    let ch = t[p].children@;
    let x = ch[i];
    assert(children_ok(t, p));
    assert(t.contains_key(x));
    assert(t.dom().contains(x));
    lemma_pid_round_trip(x, k.pid_allocator().next_pid());
    assert forall|j: int| 0 <= j < i implies !reapable(t, x as isize, #[trigger] ch[j]) by {
        assert(ch[j] != x);
    }
}

/// A child that a wait has reaped is no longer among the children of the task that waited: a
/// second wait for its pid finds no child.
pub proof fn law_reaped_child_is_gone(k: Kernel, pid: isize, i: int)
    requires
        k.wf(),
        k.has_current(),
        first_reapable(k.current_task().children@, k.tasks(), pid, i),
    ensures
        !has_matching_child(
            k.current_task().children@.remove(i),
            k.current_task().children@[i] as isize,
        ),
{
    let t = k.tasks();
    let c = k.current().unwrap();
    let ch = t[c].children@;
    let x = ch[i];
    assert(children_ok(t, c));
    assert(t.contains_key(x));
    assert(t.dom().contains(x));
    lemma_pid_round_trip(x, k.pid_allocator().next_pid());
    let rest = ch.remove(i);
    assert forall|j: int| 0 <= j < rest.len() implies !pid_matches(x as isize, #[trigger] rest[j]) by {
        if j < i {
            assert(rest[j] == ch[j]);
        } else {
            assert(rest[j] == ch[j + 1]);
        }
    }
}

} // verus!
