//! The admission queue: tasks that wait for their birth tick, bucketed by
//! that tick.

use crate::proc::task::{Task, TaskModel, TaskStatus};
use std::collections::HashMap;
use vstd::prelude::*;
use vstd::std_specs::hash::*;

verus! {

broadcast use group_hash_axioms;

/// The mathematical value of a queue: for each birth tick that has tasks
/// waiting, those tasks in the order in which they were added.
pub type QueueModel = Map<nat, Seq<TaskModel>>;

/// The models of a run of tasks, in order.
pub open spec fn models(tasks: Seq<Task>) -> Seq<TaskModel> {
    tasks.map_values(|t: Task| t@)
}

/// Whether the queue takes a task of this status. Tasks that are blocked
/// or have ended are not queued.
pub open spec fn accepts(status: TaskStatus) -> bool {
    status != TaskStatus::Idle && status != TaskStatus::Terminated
}

/// The tasks waiting for `tick`; none where the queue has no such bucket.
pub open spec fn bucket_at(q: QueueModel, tick: nat) -> Seq<TaskModel> {
    if q.contains_key(tick) {
        q[tick]
    } else {
        Seq::empty()
    }
}

/// The queue after `task` was offered to it: appended to the bucket of its
/// birth tick if its status is accepted, dropped otherwise.
pub open spec fn with_task(q: QueueModel, task: TaskModel) -> QueueModel {
    if accepts(task.status) {
        q.insert(task.birth, bucket_at(q, task.birth).push(task))
    } else {
        q
    }
}

/// The queue after each of `tasks` was offered to it, first to last.
pub open spec fn with_tasks(q: QueueModel, tasks: Seq<TaskModel>) -> QueueModel
    decreases tasks.len(),
{
    if tasks.len() == 0 {
        q
    } else {
        with_task(with_tasks(q, tasks.drop_last()), tasks.last())
    }
}

/// Whether `tick` is the smallest birth tick that has a bucket.
pub open spec fn is_earliest(q: QueueModel, tick: nat) -> bool {
    &&& q.contains_key(tick)
    &&& forall|other: nat| q.contains_key(other) ==> tick <= other
}

/// The smallest birth tick that has a bucket, where the queue has one.
pub open spec fn earliest_tick(q: QueueModel) -> nat {
    choose|tick: nat| is_earliest(q, tick)
}

/// The tasks that are due: those of the bucket with the smallest birth
/// tick, in the order in which they were added. None where the queue
/// holds no bucket.
pub open spec fn due_tasks(q: QueueModel) -> Seq<TaskModel> {
    if is_vacant(q) {
        Seq::empty()
    } else {
        q[earliest_tick(q)]
    }
}

/// The queue without the tasks that are due.
pub open spec fn without_due(q: QueueModel) -> QueueModel {
    if is_vacant(q) {
        q
    } else {
        q.remove(earliest_tick(q))
    }
}

/// A queue has at most one earliest tick.
pub proof fn lemma_earliest_unique(q: QueueModel, a: nat, b: nat)
    requires
        is_earliest(q, a),
        is_earliest(q, b),
    ensures
        a == b,
{
}

/// A queue that has a bucket has an earliest tick, and that is the tick
/// whose bucket is due.
pub proof fn lemma_has_earliest(q: QueueModel, tick: nat)
    requires
        q.contains_key(tick),
    ensures
        is_earliest(q, earliest_tick(q)),
        earliest_tick(q) <= tick,
    decreases tick,
{
    if is_earliest(q, tick) {
    } else {
        let sooner = choose|other: nat| q.contains_key(other) && other < tick;
        lemma_has_earliest(q, sooner);
    }
}

/// Buckets leave in ascending order of birth tick: once the due bucket is
/// taken out, the bucket that is due next has a later birth tick.
pub proof fn lemma_due_ticks_ascend(q: QueueModel)
    requires
        !is_vacant(q),
        !is_vacant(without_due(q)),
    ensures
        earliest_tick(q) < earliest_tick(without_due(q)),
        is_earliest(q, earliest_tick(q)),
        is_earliest(without_due(q), earliest_tick(without_due(q))),
{
    let some = choose|tick: nat| q.contains_key(tick);
    lemma_has_earliest(q, some);
    let rest = without_due(q);
    let other = choose|tick: nat| rest.contains_key(tick);
    lemma_has_earliest(rest, other);
    assert(q.contains_key(earliest_tick(rest)));
}

/// Whether the queue holds no bucket at all.
pub open spec fn is_vacant(q: QueueModel) -> bool {
    forall|tick: nat| !q.contains_key(tick)
}

/// What holds of every queue: no bucket is empty, and each task sits in
/// the bucket of its own birth tick with an accepted status.
pub open spec fn queue_wf(q: QueueModel) -> bool {
    forall|tick: nat| #[trigger]
        q.contains_key(tick) ==> {
            &&& q[tick].len() > 0
            &&& forall|i: int|
                0 <= i < q[tick].len() ==> {
                    &&& (#[trigger] q[tick][i]).birth == tick
                    &&& accepts(q[tick][i].status)
                }
        }
}

/// A queue that is well formed stays so when a task is offered to it.
pub proof fn lemma_with_task_wf(q: QueueModel, task: TaskModel)
    requires
        queue_wf(q),
    ensures
        queue_wf(with_task(q, task)),
{
    let after = with_task(q, task);
    assert forall|tick: nat| #[trigger] after.contains_key(tick) implies {
        &&& after[tick].len() > 0
        &&& forall|i: int|
            0 <= i < after[tick].len() ==> {
                &&& (#[trigger] after[tick][i]).birth == tick
                &&& accepts(after[tick][i].status)
            }
    } by {
        if accepts(task.status) && tick == task.birth {
            assert forall|i: int| 0 <= i < after[tick].len() implies {
                &&& (#[trigger] after[tick][i]).birth == tick
                &&& accepts(after[tick][i].status)
            } by {
                if i < bucket_at(q, tick).len() {
                    assert(q.contains_key(tick));
                    assert(after[tick][i] == q[tick][i]);
                }
            }
        } else {
            assert(q.contains_key(tick));
            assert(after[tick] == q[tick]);
        }
    }
}

/// The queue model that a table of buckets stands for.
spec fn lift(table: Map<u128, Vec<Task>>) -> QueueModel {
    Map::new(
        |tick: nat| tick <= u128::MAX && table.contains_key(tick as u128),
        |tick: nat| models(table[tick as u128]@),
    )
}

/// Tasks that were created but are not yet admitted to the scheduler.
pub struct TaskQueue {
    tasks: HashMap<u128, Vec<Task>>,
}

impl View for TaskQueue {
    type V = QueueModel;

    closed spec fn view(&self) -> QueueModel {
        lift(self.tasks@)
    }
}

impl TaskQueue {
    /// Holds of every queue value that executable code can obtain.
    #[verifier::type_invariant]
    pub open spec fn well_formed(&self) -> bool {
        queue_wf(self@)
    }

    /// An empty queue.
    pub fn new() -> (queue: Self)
        ensures
            is_vacant(queue@),
            queue@ == Map::<nat, Seq<TaskModel>>::empty(),
    {
        let queue = Self { tasks: HashMap::new() };
        assert(queue@ =~= Map::<nat, Seq<TaskModel>>::empty());
        queue
    }

    /// Whether no task is waiting.
    pub fn is_empty(&self) -> (empty: bool)
        ensures
            empty == is_vacant(self@),
    {
        let empty = self.tasks.is_empty();
        proof {
            if !empty {
                let k = choose|k: u128| self.tasks@.contains_key(k);
                assert(self@.contains_key(k as nat));
            }
        }
        empty
    }

    /// Offers `task` to the queue. A task that is `Idle` or `Terminated` is
    /// dropped and the queue stays as it was; any other task joins the
    /// bucket of its birth tick, behind the tasks already there.
    pub fn add(&mut self, task: Task)
        ensures
            final(self)@ == with_task(old(self)@, task@),
            !accepts(task@.status) ==> final(self)@ == old(self)@,
    {
        proof {
            use_type_invariant(&*self);
        }
        let status = task.get_status();
        if status == TaskStatus::Idle || status == TaskStatus::Terminated {
            return ;
        }
        let start_time = task.get_start_time();
        let mut tasks: HashMap<u128, Vec<Task>> = HashMap::new();
        std::mem::swap(&mut self.tasks, &mut tasks);
        let mut bucket = match tasks.remove(&start_time) {
            Some(present) => present,
            None => Vec::new(),
        };
        assert(models(bucket@) == bucket_at(old(self)@, start_time as nat));
        bucket.push(task);
        assert(models(bucket@) =~= bucket_at(old(self)@, start_time as nat).push(task@));
        tasks.insert(start_time, bucket);
        proof {
            assert(lift(tasks@) =~= with_task(old(self)@, task@));
            lemma_with_task_wf(old(self)@, task@);
        }
        std::mem::swap(&mut self.tasks, &mut tasks);
    }

    /// Offers each of `tasks` to the queue, first to last.
    pub fn append(&mut self, tasks: &[Task])
        ensures
            final(self)@ == with_tasks(old(self)@, models(tasks@)),
    {
        let mut i: usize = 0;
        while i < tasks.len()
            invariant
                i <= tasks.len(),
                self@ == with_tasks(old(self)@, models(tasks@.take(i as int))),
            decreases tasks.len() - i,
        {
            proof {
                let done = models(tasks@.take(i as int));
                let next = models(tasks@.take(i + 1));
                assert(next.drop_last() =~= done);
                assert(next.last() == tasks@[i as int]@);
            }
            self.add(tasks[i]);
            i += 1;
        }
        assert(tasks@.take(i as int) =~= tasks@);
    }

    /// Takes out the bucket with the smallest birth tick and returns its
    /// tasks in the order in which they were added. An empty queue gives
    /// no tasks and stays as it was.
    pub fn pop(&mut self) -> (due: Vec<Task>)
        ensures
            models(due@) == due_tasks(old(self)@),
            final(self)@ == without_due(old(self)@),
    {
        proof {
            use_type_invariant(&*self);
        }
        if self.is_empty() {
            let none: Vec<Task> = Vec::new();
            assert(models(none@) =~= Seq::<TaskModel>::empty());
            return none;
        }
        let mut smallest: u128 = 0;
        let mut found = false;
        for key in it: self.tasks.keys()
            invariant
                it.seq().unref().to_set() == self.tasks@.dom(),
                found ==> self.tasks@.contains_key(smallest),
                found <==> it.index() > 0,
                forall|j: int| 0 <= j < it.index() ==> smallest <= *(#[trigger] it.seq()[j]),
        {
            if !found || *key < smallest {
                smallest = *key;
                found = true;
            }
        }
        proof {
            assert(is_earliest(self@, smallest as nat));
            lemma_has_earliest(self@, smallest as nat);
            lemma_earliest_unique(self@, smallest as nat, earliest_tick(self@));
        }
        self.remove(smallest)
    }

    /// Takes out the bucket of birth tick `time` and returns its tasks in
    /// the order in which they were added. Where the queue has no such
    /// bucket it gives no tasks and stays as it was.
    pub fn remove(&mut self, time: u128) -> (bucket: Vec<Task>)
        ensures
            models(bucket@) == bucket_at(old(self)@, time as nat),
            final(self)@ == old(self)@.remove(time as nat),
    {
        proof {
            use_type_invariant(&*self);
        }
        let mut tasks: HashMap<u128, Vec<Task>> = HashMap::new();
        std::mem::swap(&mut self.tasks, &mut tasks);
        let bucket = match tasks.remove(&time) {
            Some(present) => present,
            None => Vec::new(),
        };
        proof {
            assert(lift(tasks@) =~= old(self)@.remove(time as nat));
            assert(models(bucket@) =~= bucket_at(old(self)@, time as nat));
        }
        std::mem::swap(&mut self.tasks, &mut tasks);
        bucket
    }
}

} // verus!
