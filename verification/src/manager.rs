use vstd::prelude::*;
use std::collections::{HashMap, VecDeque};
use crate::config::BIG_STRIDE;
use crate::task::{TaskControlBlock, TaskStatus};

verus! {

broadcast use {
    vstd::std_specs::vecdeque::group_vec_dequeue_axioms,
    vstd::std_specs::hash::group_hash_axioms,
};

/// Every task that exists, found by pid.
pub struct TaskTable {
    tasks: HashMap<usize, TaskControlBlock>,
}

impl View for TaskTable {
    type V = Map<usize, TaskControlBlock>;

    closed spec fn view(&self) -> Map<usize, TaskControlBlock> {
        self.tasks@
    }
}

impl TaskTable {
    /// A table with no task.
    pub fn new() -> (r: TaskTable)
        ensures
            r@ == Map::<usize, TaskControlBlock>::empty(),
    {
        TaskTable { tasks: HashMap::new() }
    }

    /// Whether a task has pid `pid`.
    pub fn contains(&self, pid: usize) -> (r: bool)
        ensures
            r == self@.contains_key(pid),
    {
        self.tasks.contains_key(&pid)
    }

    /// The task with pid `pid`, if any.
    pub fn get(&self, pid: usize) -> (r: Option<&TaskControlBlock>)
        ensures
            r.is_some() == self@.contains_key(pid),
            r.is_some() ==> *r.unwrap() == self@[pid],
    {
        self.tasks.get(&pid)
    }

    /// Files `task` under pid `pid`, replacing what was there.
    pub fn insert(&mut self, pid: usize, task: TaskControlBlock)
        ensures
            final(self)@ == old(self)@.insert(pid, task),
    {
        self.tasks.insert(pid, task);
    }

    /// Takes the task with pid `pid` out of the table.
    pub fn remove(&mut self, pid: usize) -> (r: Option<TaskControlBlock>)
        ensures
            final(self)@ == old(self)@.remove(pid),
            r.is_some() == old(self)@.contains_key(pid),
            r.is_some() ==> r.unwrap() == old(self)@[pid],
    {
        self.tasks.remove(&pid)
    }
}

/// Whether the scheduler may pick task `t`: it is ready and its stride is below the ceiling.
pub open spec fn schedulable(t: TaskControlBlock) -> bool {
    t.task_status == TaskStatus::Ready && t.stride < usize::MAX
}

/// The tasks that the queued pids `q` name in `tasks`, in queue order.
pub open spec fn queued_tasks(q: Seq<usize>, tasks: Map<usize, TaskControlBlock>) -> Seq<TaskControlBlock> {
    q.map_values(|p: usize| tasks[p])
}

/// Whether every queued pid names a task.
pub open spec fn all_known(q: Seq<usize>, tasks: Map<usize, TaskControlBlock>) -> bool {
    forall|i: int| 0 <= i < q.len() ==> tasks.contains_key(#[trigger] q[i])
}

/// Whether the queue holds a task that the scheduler may pick.
pub open spec fn has_schedulable(qt: Seq<TaskControlBlock>) -> bool {
    exists|i: int| 0 <= i < qt.len() && schedulable(#[trigger] qt[i])
}

/// Whether `i` is the position that stride scheduling picks among the queued tasks `qt`: the
/// schedulable task with the smallest stride, the earliest one among equal strides.
pub open spec fn is_pick(qt: Seq<TaskControlBlock>, i: int) -> bool {
    &&& 0 <= i < qt.len()
    &&& schedulable(qt[i])
    &&& forall|j: int| 0 <= j < i && schedulable(#[trigger] qt[j]) ==> qt[j].stride > qt[i].stride
    &&& forall|j: int| i < j < qt.len() && schedulable(#[trigger] qt[j]) ==> qt[j].stride >= qt[i].stride
}

/// Task `t` after one turn: its stride advanced by `BIG_STRIDE / priority`.
pub open spec fn advanced(t: TaskControlBlock) -> TaskControlBlock {
    TaskControlBlock { stride: (t.stride + BIG_STRIDE as int / t.priority as int) as usize, ..t }
}

/// Whether task `t` can take a turn: a nonzero priority and a stride that does not overflow.
pub open spec fn can_advance(t: TaskControlBlock) -> bool {
    t.priority > 0 && t.stride + BIG_STRIDE as int / t.priority as int <= usize::MAX
}

/// The predicate that keeps the pids other than `pid`.
pub open spec fn pid_is_not(pid: usize) -> spec_fn(usize) -> bool {
    |p: usize| p != pid
}

/// Whether `fetch` runs without a fault: every queued pid names a task, the queue is empty or
/// holds a task that may be picked, and the picked task's stride can advance.
pub open spec fn fetch_allowed(q: Seq<usize>, tasks: Map<usize, TaskControlBlock>) -> bool {
    let qt = queued_tasks(q, tasks);
    &&& all_known(q, tasks)
    &&& q.len() == 0 || has_schedulable(qt)
    &&& forall|i: int| is_pick(qt, i) ==> can_advance(#[trigger] qt[i])
}

/// Whether taking a task out of queue `q` over table `tasks` may give pid `r` and leave queue
/// `q2` and table `tasks2`: the picked task's pid, with every entry of that pid gone from the
/// queue (the others kept in order) and the task's stride advanced in the table; nothing, and
/// no change, when no task may be picked.
pub open spec fn fetched(
    q: Seq<usize>,
    tasks: Map<usize, TaskControlBlock>,
    r: Option<usize>,
    q2: Seq<usize>,
    tasks2: Map<usize, TaskControlBlock>,
) -> bool {
    let qt = queued_tasks(q, tasks);
    &&& r.is_some() == has_schedulable(qt)
    &&& has_schedulable(qt) ==> exists|i: int| is_pick(qt, i)
    &&& !has_schedulable(qt) ==> q2 == q && tasks2 == tasks
    &&& forall|i: int|
        is_pick(qt, i) ==> {
            &&& r == Some(q[i])
            &&& q2 == q.filter(pid_is_not(q[i]))
            &&& tasks2 == tasks.insert(q[i], advanced(#[trigger] qt[i]))
        }
}

/// Two positions that are both the pick of a queue are the same.
pub proof fn lemma_pick_unique(qt: Seq<TaskControlBlock>, i: int, j: int)
    requires
        is_pick(qt, i),
        is_pick(qt, j),
    ensures
        i == j,
{
    if i < j {
        assert(schedulable(qt[i]));
    } else if j < i {
        assert(schedulable(qt[j]));
    }
}

/// The queue of ready tasks, by pid, and the stride scheduler that picks from it.
pub struct TaskManager {
    ready_queue: VecDeque<usize>,
}

impl View for TaskManager {
    type V = Seq<usize>;

    closed spec fn view(&self) -> Seq<usize> {
        self.ready_queue@
    }
}

impl TaskManager {
    /// An empty ready queue.
    pub fn new() -> (r: TaskManager)
        ensures
            r@ == Seq::<usize>::empty(),
    {
        TaskManager { ready_queue: VecDeque::new() }
    }

    /// Number of queued entries.
    pub fn len(&self) -> (r: usize)
        ensures
            r == self@.len(),
    {
        self.ready_queue.len()
    }

    /// The queued pids, front first.
    pub fn pids(&self) -> (r: Vec<usize>)
        ensures
            r@ == self@,
    {
        let mut r: Vec<usize> = Vec::new();
        let mut i: usize = 0;
        while i < self.ready_queue.len()
            invariant
                i <= self@.len(),
                r@ == self@.take(i as int),
            decreases self@.len() - i,
        {
            r.push(self.ready_queue[i]);
            i = i + 1;
            assert(r@ =~= self@.take(i as int));
        }
        assert(self@.take(i as int) =~= self@);
        r
    }

    /// Puts the task with pid `pid` at the back of the ready queue.
    pub fn add(&mut self, pid: usize)
        ensures
            final(self)@ == old(self)@.push(pid),
    {
        self.ready_queue.push_back(pid);
    }

    /// Whether `fetch` can run on the current queue without a fault (see `fetch_allowed`).
    pub fn can_fetch(&self, tasks: &TaskTable) -> (r: bool)
        ensures
            r == fetch_allowed(self@, tasks@),
    {
        let ghost q = self@;
        let ghost qt = queued_tasks(q, tasks@);
        let mut min_stride: usize = usize::MAX;
        let mut best: Option<usize> = None;
        let mut i: usize = 0;
        while i < self.ready_queue.len()
            invariant
                q == self@,
                qt == queued_tasks(q, tasks@),
                i <= q.len(),
                forall|j: int| 0 <= j < i ==> tasks@.contains_key(#[trigger] q[j]),
                best.is_none() ==> min_stride == usize::MAX,
                best.is_none() ==> forall|j: int| 0 <= j < i ==> !schedulable(#[trigger] qt[j]),
                best.is_some() ==> {
                    let b = best.unwrap() as int;
                    &&& b < i
                    &&& schedulable(qt[b])
                    &&& qt[b].stride == min_stride
                    &&& forall|j: int| 0 <= j < b && schedulable(#[trigger] qt[j]) ==> qt[j].stride > min_stride
                    &&& forall|j: int| b < j < i && schedulable(#[trigger] qt[j]) ==> qt[j].stride >= min_stride
                },
            decreases q.len() - i,
        {
            let pid = self.ready_queue[i];
            match tasks.get(pid) {
                None => {
                    return false;
                },
                Some(t) => {
                    assert(qt[i as int] == *t);
                    if t.task_status == TaskStatus::Ready && t.stride < min_stride {
                        min_stride = t.stride;
                        best = Some(i);
                    }
                },
            }
            i = i + 1;
        }
        match best {
            None => {
                assert(!has_schedulable(qt));
                self.ready_queue.len() == 0
            },
            Some(b) => {
                assert(is_pick(qt, b as int));
                assert forall|k: int| is_pick(qt, k) implies k == b by {
                    lemma_pick_unique(qt, k, b as int);
                }
                let t = tasks.get(self.ready_queue[b]).unwrap();
                assert(*t == qt[b as int]);
                t.priority > 0 && t.stride <= usize::MAX - BIG_STRIDE / t.priority
            },
        }
    }

    /// Takes the next task to run out of the ready queue: the ready task with the smallest
    /// stride (the earliest one among equal strides) has its stride advanced by
    /// `BIG_STRIDE / priority` in `tasks`, and every queue entry with its pid leaves the queue
    /// (the others keep their order). Returns that pid.
    pub fn fetch(&mut self, tasks: &mut TaskTable) -> (r: Option<usize>)
        requires
            fetch_allowed(old(self)@, old(tasks)@),
        ensures
            fetched(old(self)@, old(tasks)@, r, final(self)@, final(tasks)@),
    {
        let ghost q = self.ready_queue@;
        let ghost qt = queued_tasks(q, tasks@);
        let mut min_stride: usize = usize::MAX;
        let mut best: Option<usize> = None;
        let mut best_pid: usize = 0;
        let mut val: VecDeque<usize> = VecDeque::new();
        while self.ready_queue.len() > 0
            invariant
                q == val@ + self.ready_queue@,
                qt == queued_tasks(q, tasks@),
                tasks@ == old(tasks)@,
                all_known(q, tasks@),
                best.is_none() ==> min_stride == usize::MAX,
                best.is_none() ==> forall|j: int| 0 <= j < val@.len() ==> !schedulable(#[trigger] qt[j]),
                best.is_some() ==> {
                    let b = best.unwrap() as int;
                    &&& b < val@.len()
                    &&& schedulable(qt[b])
                    &&& qt[b].stride == min_stride
                    &&& q[b] == best_pid
                    &&& forall|j: int| 0 <= j < b && schedulable(#[trigger] qt[j]) ==> qt[j].stride > min_stride
                    &&& forall|j: int| b < j < val@.len() && schedulable(#[trigger] qt[j]) ==> qt[j].stride >= min_stride
                },
            decreases self.ready_queue@.len(),
        {
            let pid = self.ready_queue.pop_front().unwrap();
            assert(pid == q[val@.len() as int]);
            let task = tasks.get(pid).unwrap();
            assert(*task == qt[val@.len() as int]);
            if task.task_status == TaskStatus::Ready && task.stride < min_stride {
                min_stride = task.stride;
                best = Some(val.len());
                best_pid = pid;
            }
            val.push_back(pid);
            assert(q == val@ + self.ready_queue@);
        }
        assert(val@ == q);
        match best {
            None => {
                assert(!has_schedulable(qt));
                assert(self.ready_queue@ == q);
                None
            },
            Some(b) => {
                assert(is_pick(qt, b as int));
                assert forall|i: int| is_pick(qt, i) implies i == b by {
                    lemma_pick_unique(qt, i, b as int);
                }
                let mut k: usize = 0;
                let total = val.len();
                assert(q.take(0).filter(pid_is_not(best_pid)) == Seq::<usize>::empty());
                while val.len() > 0
                    invariant
                        k <= q.len(),
                        q.len() == total,
                        val@ == q.skip(k as int),
                        self.ready_queue@ == q.take(k as int).filter(pid_is_not(best_pid)),
                    decreases val@.len(),
                {
                    let pid = val.pop_front().unwrap();
                    assert(pid == q[k as int]);
                    assert(q.take(k as int + 1) == q.take(k as int).push(q[k as int]));
                    proof {
                        q.take(k as int).lemma_filter_push(q[k as int], pid_is_not(best_pid));
                    }
                    if pid != best_pid {
                        self.ready_queue.push_back(pid);
                    }
                    k = k + 1;
                    assert(val@ == q.skip(k as int));
                }
                assert(q.take(q.len() as int) == q);
                let mut task = tasks.remove(best_pid).unwrap();
                assert(task == qt[b as int]);
                task.stride = task.stride + BIG_STRIDE / task.priority;
                tasks.insert(best_pid, task);
                assert(tasks@ == old(tasks)@.insert(q[b as int], advanced(qt[b as int])));
                Some(best_pid)
            },
        }
    }
}

/// Puts the task with pid `pid` at the back of the ready queue of `manager`.
pub fn add_task(manager: &mut TaskManager, pid: usize)
    ensures
        final(manager)@ == old(manager)@.push(pid),
{
    manager.add(pid);
}

/// Takes the next task to run out of the ready queue of `manager` (see `TaskManager::fetch`).
pub fn fetch_task(manager: &mut TaskManager, tasks: &mut TaskTable) -> (r: Option<usize>)
    requires
        fetch_allowed(old(manager)@, old(tasks)@),
    ensures
        fetched(old(manager)@, old(tasks)@, r, final(manager)@, final(tasks)@),
{
    manager.fetch(tasks)
}

/// The task that the scheduler picks has the smallest stride of all the tasks it may pick.
pub proof fn law_pick_has_min_stride(qt: Seq<TaskControlBlock>, i: int)
    requires
        is_pick(qt, i),
    ensures
        forall|j: int| 0 <= j < qt.len() && schedulable(#[trigger] qt[j]) ==> qt[i].stride <= qt[j].stride,
{
}

/// With equal strides the scheduler is first-in first-out: when every queued task may be picked
/// and all have the same stride, the front task is picked.
pub proof fn law_equal_strides_fetch_front(q: Seq<usize>, tasks: Map<usize, TaskControlBlock>)
    requires
        q.len() > 0,
        forall|i: int|
            0 <= i < q.len() ==> schedulable(#[trigger] queued_tasks(q, tasks)[i])
                && queued_tasks(q, tasks)[i].stride == queued_tasks(q, tasks)[0].stride,
    ensures
        is_pick(queued_tasks(q, tasks), 0),
        forall|r: Option<usize>, q2: Seq<usize>, tasks2: Map<usize, TaskControlBlock>|
            fetched(q, tasks, r, q2, tasks2) ==> r == Some(q[0]) && q2 == q.filter(pid_is_not(q[0])),
{
    assert(schedulable(queued_tasks(q, tasks)[0]));
}

/// A task with a higher priority is charged a smaller stride step per turn: of two tasks at the
/// same stride, the one with the higher priority ends its turn at the smaller stride.
pub proof fn law_higher_priority_smaller_step(a: TaskControlBlock, b: TaskControlBlock)
    requires
        a.stride == b.stride,
        0 < b.priority <= a.priority,
        can_advance(a),
        can_advance(b),
    ensures
        advanced(a).stride <= advanced(b).stride,
{
    vstd::arithmetic::div_mod::lemma_div_is_ordered_by_denominator(
        BIG_STRIDE as int,
        b.priority as int,
        a.priority as int,
    );
}

/// Stride scheduling keeps the strides of the queued tasks within `BIG_STRIDE / 2` of each
/// other: when they are within that bound, all may be picked and every priority is at least 2,
/// the bound still holds after the picked task takes its turn.
pub proof fn law_strides_stay_close(qt: Seq<TaskControlBlock>, k: int)
    requires
        is_pick(qt, k),
        can_advance(qt[k]),
        forall|i: int| 0 <= i < qt.len() ==> schedulable(#[trigger] qt[i]) && qt[i].priority >= 2,
        forall|i: int, j: int|
            0 <= i < qt.len() && 0 <= j < qt.len() ==> #[trigger] qt[i].stride - #[trigger] qt[j].stride
                <= BIG_STRIDE / 2,
    ensures
        forall|i: int, j: int|
            0 <= i < qt.len() && 0 <= j < qt.len() ==> #[trigger] qt.update(k, advanced(qt[k]))[i].stride
                - #[trigger] qt.update(k, advanced(qt[k]))[j].stride <= BIG_STRIDE / 2,
{
    let step = BIG_STRIDE as int / qt[k].priority as int;
    assert(0 <= step <= BIG_STRIDE / 2) by {
        vstd::arithmetic::div_mod::lemma_div_is_ordered_by_denominator(
            BIG_STRIDE as int,
            2,
            qt[k].priority as int,
        );
    }
    let u = qt.update(k, advanced(qt[k]));
    assert forall|i: int, j: int|
        0 <= i < qt.len() && 0 <= j < qt.len() implies #[trigger] u[i].stride - #[trigger] u[j].stride
        <= BIG_STRIDE / 2 by {
        assert(schedulable(qt[i]) && schedulable(qt[j]));
        assert(qt[i].stride - qt[j].stride <= BIG_STRIDE / 2);
        assert(qt[k].stride <= qt[j].stride);
        assert(qt[k].stride <= qt[i].stride);
    }
}

/// A ready task that is alone in the ready queue is the next task the scheduler runs: its
/// stride advances and the queue is empty again.
pub proof fn law_single_task_runs_again(pid: usize, tasks: Map<usize, TaskControlBlock>)
    requires
        tasks.contains_key(pid),
        schedulable(tasks[pid]),
    ensures
        is_pick(queued_tasks(seq![pid], tasks), 0),
        forall|r: Option<usize>, q2: Seq<usize>, tasks2: Map<usize, TaskControlBlock>|
            fetched(seq![pid], tasks, r, q2, tasks2) ==> r == Some(pid) && q2.len() == 0
                && tasks2 == tasks.insert(pid, advanced(tasks[pid])),
{
    let q = seq![pid];
    let qt = queued_tasks(q, tasks);
    assert(qt[0] == tasks[pid]);
    assert(is_pick(qt, 0));
    assert forall|r: Option<usize>, q2: Seq<usize>, tasks2: Map<usize, TaskControlBlock>|
        fetched(q, tasks, r, q2, tasks2) implies r == Some(pid) && q2.len() == 0
        && tasks2 == tasks.insert(pid, advanced(tasks[pid])) by {
        reveal_with_fuel(Seq::filter, 2);
        assert(q.drop_last() =~= Seq::<usize>::empty());
        assert(q.filter(pid_is_not(pid)) =~= Seq::<usize>::empty());
    }
}

} // verus!
