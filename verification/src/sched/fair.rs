//! The fairness core: runnable tasks ranked by virtual runtime, blocked
//! tasks in arrival order, and one scheduling decision per call.

use crate::proc::queue::models;
use crate::proc::task::{Task, TaskModel, TaskStatus};
use crate::sched::clock::{Clock, ClockReader};
use crate::tree::ordered::{
    is_sorted, keys_of, lemma_upper_slot, lemma_with_key_sorted, tree_entries, tree_insert,
    tree_is_empty, tree_new, tree_pop_first, upper_slot,
};
use rbtree::RBTree;
use std::collections::VecDeque;
use vstd::prelude::*;

verus! {

/// The mathematical value of the fairness core.
pub struct FairModel {
    /// The runnable tasks, the one to run next in front.
    pub ready: Seq<TaskModel>,
    /// The tasks blocked on IO, the one served next in front.
    pub blocked: Seq<TaskModel>,
}

impl FairModel {
    /// The core without tasks.
    pub open spec fn empty() -> FairModel {
        FairModel { ready: Seq::empty(), blocked: Seq::empty() }
    }

    /// The virtual runtimes of the runnable tasks, front to back.
    pub open spec fn vruntimes(self) -> Seq<nat> {
        self.ready.map_values(|t: TaskModel| t.vruntime)
    }

    /// What holds of every core: the runnable tasks are `Waiting` and never
    /// decrease in virtual runtime from front to back, the blocked tasks
    /// are `Idle`, and every task is well formed.
    pub open spec fn wf(self) -> bool {
        &&& is_sorted(self.vruntimes())
        &&& forall|i: int|
            0 <= i < self.ready.len() ==> (#[trigger] self.ready[i]).status == TaskStatus::Waiting
                && self.ready[i].wf()
        &&& forall|j: int|
            0 <= j < self.blocked.len() ==> (#[trigger] self.blocked[j]).status == TaskStatus::Idle
                && self.blocked[j].wf()
    }

    /// Whether some task held by the core has status `status`.
    pub open spec fn holds(self, status: TaskStatus) -> bool {
        ||| exists|i: int| 0 <= i < self.ready.len() && (#[trigger] self.ready[i]).status == status
        ||| exists|j: int|
            0 <= j < self.blocked.len() && (#[trigger] self.blocked[j]).status == status
    }

    /// Whether the core holds no task at all.
    pub open spec fn is_finished(self) -> bool {
        self.ready.len() == 0 && self.blocked.len() == 0
    }

    /// The core after `task` joined the runnable tasks: behind every task
    /// whose virtual runtime is less or equal.
    pub open spec fn ranked(self, task: TaskModel) -> FairModel {
        FairModel {
            ready: self.ready.insert(upper_slot(self.vruntimes(), task.vruntime) as int, task),
            ..self
        }
    }

    /// The core after `task` was handed to it at tick `now`. A task that
    /// has ended is dropped. A blocked task joins the back of the blocked
    /// tasks. Any other task is charged at `now`, set to `Waiting` and
    /// ranked among the runnable tasks.
    pub open spec fn inserted(self, task: TaskModel, now: nat) -> FairModel {
        if task.status == TaskStatus::Terminated {
            self
        } else if task.status == TaskStatus::Idle {
            FairModel { blocked: self.blocked.push(task), ..self }
        } else {
            self.ranked(task.charged(now).with_status(TaskStatus::Waiting))
        }
    }

    /// The core after each of `tasks` was handed to it, first to last, the
    /// i-th of them at tick `times[i]`.
    pub open spec fn inserted_each(self, tasks: Seq<TaskModel>, times: Seq<nat>) -> FairModel
        recommends
            tasks.len() == times.len(),
        decreases tasks.len(),
    {
        if tasks.len() == 0 {
            self
        } else {
            self.inserted_each(tasks.drop_last(), times.drop_last()).inserted(tasks.last(), times.last())
        }
    }

    /// The core after each of `tasks` was handed to it at tick `now`.
    pub open spec fn inserted_all(self, tasks: Seq<TaskModel>, now: nat) -> FairModel {
        self.inserted_each(tasks, Seq::new(tasks.len(), |i: int| now))
    }

    /// The task that runs next, as it leaves the core: `Running`.
    pub open spec fn first(self) -> TaskModel
        recommends
            self.ready.len() > 0,
    {
        self.ready[0].with_status(TaskStatus::Running)
    }

    /// The core without the task that runs next.
    pub open spec fn rest(self) -> FairModel
        recommends
            self.ready.len() > 0,
    {
        FairModel { ready: self.ready.drop_first(), ..self }
    }

    /// The tasks that `count` pops in a row hand out, in that order.
    pub open spec fn popped(self, count: nat) -> Seq<TaskModel>
        decreases count,
    {
        if count == 0 || self.ready.len() == 0 {
            Seq::empty()
        } else {
            seq![self.first()] + self.rest().popped((count - 1) as nat)
        }
    }

    /// One CPU quantum at tick `now`: the task in front runs for one cycle
    /// and is handed back. Nothing happens where no task is runnable.
    pub open spec fn cpu_turn(self, now: nat) -> FairModel {
        if self.ready.len() == 0 {
            self
        } else {
            self.rest().inserted(self.first().cpu_step(), now)
        }
    }

    /// One IO quantum at tick `now`: the blocked task in front is served
    /// for one cycle and is handed back. Nothing happens where no task is
    /// blocked.
    pub open spec fn io_turn(self, now: nat) -> FairModel {
        if self.blocked.len() == 0 {
            self
        } else {
            FairModel { blocked: self.blocked.drop_first(), ..self }.inserted(
                self.blocked[0].io_step(),
                now,
            )
        }
    }
}

/// A well-formed core holds no task that has ended.
pub proof fn lemma_wf_holds_no_terminated(core: FairModel)
    requires
        core.wf(),
    ensures
        !core.holds(TaskStatus::Terminated),
{
}

/// Handing a well-formed task to a well-formed core leaves the core well
/// formed, whatever the task's status and whatever the tick. In
/// particular the core holds no ended task afterwards.
pub proof fn lemma_inserted_wf(core: FairModel, task: TaskModel, now: nat)
    requires
        core.wf(),
        task.wf(),
    ensures
        core.inserted(task, now).wf(),
        !core.inserted(task, now).holds(TaskStatus::Terminated),
{
    let after = core.inserted(task, now);
    if task.status == TaskStatus::Terminated {
    } else if task.status == TaskStatus::Idle {
        assert forall|j: int| 0 <= j < after.blocked.len() implies (#[trigger] after.blocked[j]).status
            == TaskStatus::Idle && after.blocked[j].wf() by {
            if j < core.blocked.len() {
                assert(after.blocked[j] == core.blocked[j]);
            }
        }
    } else {
        let entering = task.charged(now).with_status(TaskStatus::Waiting);
        let slot = upper_slot(core.vruntimes(), entering.vruntime) as int;
        lemma_upper_slot(core.vruntimes(), entering.vruntime);
        lemma_with_key_sorted(core.vruntimes(), entering.vruntime);
        assert(after.vruntimes() =~= core.vruntimes().insert(slot, entering.vruntime));
        assert forall|i: int| 0 <= i < after.ready.len() implies (#[trigger] after.ready[i]).status
            == TaskStatus::Waiting && after.ready[i].wf() by {
            if i < slot {
                assert(after.ready[i] == core.ready[i]);
            } else if i > slot {
                assert(after.ready[i] == core.ready[i - 1]);
            }
        }
    }
    lemma_wf_holds_no_terminated(after);
}

/// Handing tasks to a well-formed core one after the other leaves it
/// well formed. Each task that is neither blocked nor ended adds one to
/// the runnable tasks.
pub proof fn lemma_inserted_each_wf(core: FairModel, tasks: Seq<TaskModel>, times: Seq<nat>)
    requires
        core.wf(),
        tasks.len() == times.len(),
        forall|k: int| 0 <= k < tasks.len() ==> (#[trigger] tasks[k]).wf(),
    ensures
        core.inserted_each(tasks, times).wf(),
        (forall|k: int|
            0 <= k < tasks.len() ==> (#[trigger] tasks[k]).status != TaskStatus::Idle
                && tasks[k].status != TaskStatus::Terminated) ==> core.inserted_each(
            tasks,
            times,
        ).ready.len() == core.ready.len() + tasks.len(),
    decreases tasks.len(),
{
    if tasks.len() > 0 {
        lemma_inserted_each_wf(core, tasks.drop_last(), times.drop_last());
        let before = core.inserted_each(tasks.drop_last(), times.drop_last());
        lemma_inserted_wf(before, tasks.last(), times.last());
        lemma_upper_slot(before.vruntimes(), tasks.last().charged(times.last()).vruntime);
        assert forall|k: int| 0 <= k < tasks.drop_last().len() implies (
        #[trigger] tasks.drop_last()[k]) == tasks[k] by {}
    }
}

/// Popping a well-formed core `count` times, with at least that many
/// tasks runnable, hands out its runnable tasks front to back.
pub proof fn lemma_popped_in_order(core: FairModel, count: nat)
    requires
        core.wf(),
        count <= core.ready.len(),
    ensures
        core.popped(count).len() == count,
        forall|i: int|
            0 <= i < count ==> (#[trigger] core.popped(count)[i]) == core.ready[i].with_status(
                TaskStatus::Running,
            ),
    decreases count,
{
    if count > 0 {
        let rest = core.rest();
        assert(rest.vruntimes() =~= core.vruntimes().drop_first());
        assert forall|i: int| 0 <= i < rest.ready.len() implies (#[trigger] rest.ready[i]).status
            == TaskStatus::Waiting && rest.ready[i].wf() by {
            assert(rest.ready[i] == core.ready[i + 1]);
        }
        lemma_popped_in_order(rest, (count - 1) as nat);
        assert forall|i: int| 0 <= i < count implies (#[trigger] core.popped(count)[i])
            == core.ready[i].with_status(TaskStatus::Running) by {
            if i > 0 {
                assert(core.popped(count)[i] == rest.popped((count - 1) as nat)[i - 1]);
                assert(rest.ready[i - 1] == core.ready[i]);
            }
        }
    }
}

/// Round trip: when runnable tasks are handed to an empty core, at
/// whatever ticks, and the core is then popped as many times, the tasks
/// come out in non-decreasing order of virtual runtime.
pub proof fn lemma_round_trip(tasks: Seq<TaskModel>, times: Seq<nat>)
    requires
        tasks.len() == times.len(),
        forall|k: int|
            0 <= k < tasks.len() ==> (#[trigger] tasks[k]).wf() && tasks[k].status
                != TaskStatus::Idle && tasks[k].status != TaskStatus::Terminated,
    ensures
        ({
            let filled = FairModel::empty().inserted_each(tasks, times);
            let out = filled.popped(tasks.len());
            &&& filled.ready.len() == tasks.len()
            &&& out.len() == tasks.len()
            &&& forall|i: int, j: int|
                0 <= i <= j < out.len() ==> out[i].vruntime <= out[j].vruntime
        }),
{
    let filled = FairModel::empty().inserted_each(tasks, times);
    lemma_inserted_each_wf(FairModel::empty(), tasks, times);
    lemma_popped_in_order(filled, tasks.len());
    let out = filled.popped(tasks.len());
    assert forall|i: int, j: int| 0 <= i <= j < out.len() implies out[i].vruntime
        <= out[j].vruntime by {
        assert(filled.vruntimes()[i] <= filled.vruntimes()[j]);
    }
}

/// The core that a tree of entries and a line of blocked tasks stand for.
spec fn model_of(entries: Seq<(u64, Task)>, idle: Seq<Task>) -> FairModel {
    FairModel { ready: entries.map_values(|entry: (u64, Task)| entry.1@), blocked: models(idle) }
}

/// Whether entries and blocked tasks make a well-formed core in which
/// each entry's key is the virtual runtime of its task.
spec fn coherent(entries: Seq<(u64, Task)>, idle: Seq<Task>) -> bool {
    &&& model_of(entries, idle).wf()
    &&& forall|i: int|
        0 <= i < entries.len() ==> (#[trigger] entries[i]).0 == entries[i].1@.vruntime
}

/// The fairness core. Runnable tasks are kept in a tree keyed by virtual
/// runtime; tasks blocked on IO wait in a line.
pub struct FairAlgorithm {
    tree: RBTree<u64, Task>,
    idle: VecDeque<Task>,
    clock: ClockReader,
}

impl View for FairAlgorithm {
    type V = FairModel;

    closed spec fn view(&self) -> FairModel {
        model_of(tree_entries(self.tree), self.idle@)
    }
}

impl FairAlgorithm {
    #[verifier::type_invariant]
    spec fn coherence(&self) -> bool {
        coherent(tree_entries(self.tree), self.idle@)
    }

    /// A core without tasks that reads its ticks from `clock`. The clock
    /// is left as it is.
    pub fn new(clock: &mut Clock) -> (core: Self)
        ensures
            core@ == FairModel::empty(),
            core@.wf(),
            final(clock)@ == old(clock)@,
    {
        let core = Self { tree: tree_new(), idle: VecDeque::new(), clock: clock.reader() };
        assert(core@.ready =~= Seq::<TaskModel>::empty());
        assert(core@.blocked =~= Seq::<TaskModel>::empty());
        core
    }

    /// Hands each of `tasks` to the core, first to last, each at the tick
    /// that the clock shows at that moment.
    pub fn push(&mut self, tasks: Vec<Task>)
        ensures
            final(self)@.wf(),
            exists|times: Seq<nat>|
                times.len() == tasks@.len() && final(self)@ == old(self)@.inserted_each(
                    models(tasks@),
                    times,
                ),
    {
        let ghost mut times: Seq<nat> = Seq::empty();
        let mut i: usize = 0;
        proof {
            use_type_invariant(&*self);
        }
        while i < tasks.len()
            invariant
                i <= tasks.len(),
                times.len() == i,
                self@.wf(),
                self@ == old(self)@.inserted_each(models(tasks@.take(i as int)), times),
            decreases tasks.len() - i,
        {
            let ghost before = self@;
            self.insert(tasks[i]);
            proof {
                let now = choose|now: nat| self@ == before.inserted(tasks@[i as int]@, now);
                let done = models(tasks@.take(i as int));
                let next = models(tasks@.take(i + 1));
                assert(next.drop_last() =~= done);
                assert(next.last() == tasks@[i as int]@);
                assert(times.push(now).drop_last() =~= times);
                times = times.push(now);
            }
            i += 1;
        }
        assert(tasks@.take(i as int) =~= tasks@);
    }

    /// Hands each of `tasks` to the core, first to last, all at tick `now`.
    pub fn push_at(&mut self, tasks: Vec<Task>, now: u128)
        ensures
            final(self)@.wf(),
            final(self)@ == old(self)@.inserted_all(models(tasks@), now as nat),
    {
        let mut i: usize = 0;
        proof {
            use_type_invariant(&*self);
        }
        while i < tasks.len()
            invariant
                i <= tasks.len(),
                self@.wf(),
                self@ == old(self)@.inserted_all(models(tasks@.take(i as int)), now as nat),
            decreases tasks.len() - i,
        {
            self.insert_at(tasks[i], now);
            proof {
                let done = models(tasks@.take(i as int));
                let next = models(tasks@.take(i + 1));
                assert(next.drop_last() =~= done);
                assert(next.last() == tasks@[i as int]@);
                assert(Seq::new(next.len(), |k: int| now as nat).drop_last() =~= Seq::new(
                    done.len(),
                    |k: int| now as nat,
                ));
            }
            i += 1;
        }
        assert(tasks@.take(i as int) =~= tasks@);
    }

    /// Hands `task` to the core at the tick that the clock shows.
    ///
    /// Whatever the clock shows, the core afterwards is the one that
    /// [`FairAlgorithm::insert_at`] gives for that tick, and it holds no
    /// task that has ended.
    pub fn insert(&mut self, task: Task)
        ensures
            final(self)@.wf(),
            !final(self)@.holds(TaskStatus::Terminated),
            exists|now: nat| final(self)@ == old(self)@.inserted(task@, now),
    {
        let now = self.clock.time();
        self.insert_at(task, now);
    }

    /// Hands `task` to the core at tick `now`. A task that has ended is
    /// dropped; a blocked task joins the back of the blocked line; any
    /// other task is charged at `now`, set to `Waiting` and ranked by its
    /// virtual runtime, behind the tasks that have the same.
    pub fn insert_at(&mut self, task: Task, now: u128)
        ensures
            final(self)@ == old(self)@.inserted(task@, now as nat),
            final(self)@.wf(),
            !final(self)@.holds(TaskStatus::Terminated),
    {
        proof {
            use_type_invariant(&*self);
            use_type_invariant(&task);
            lemma_inserted_wf(self@, task@, now as nat);
        }
        let state = task.get_status();
        if state == TaskStatus::Terminated {
            return ;
        } else if state == TaskStatus::Idle {
            let mut idle: VecDeque<Task> = VecDeque::new();
            std::mem::swap(&mut self.idle, &mut idle);
            idle.push_back(task);
            proof {
                assert(models(idle@) =~= old(self)@.blocked.push(task@));
                assert(model_of(tree_entries(self.tree), idle@) =~= old(self)@.inserted(
                    task@,
                    now as nat,
                ));
            }
            std::mem::swap(&mut self.idle, &mut idle);
            return ;
        }
        let mut entering = task;
        let key: u64 = entering.vruntime(now);
        entering.schedule();
        let mut tree = tree_new();
        std::mem::swap(&mut self.tree, &mut tree);
        let ghost entries = tree_entries(tree);
        tree_insert(&mut tree, key, entering);
        proof {
            assert(keys_of(entries) =~= old(self)@.vruntimes());
            assert(entering@ == task@.charged(now as nat).with_status(TaskStatus::Waiting));
            assert(key == entering@.vruntime);
            lemma_upper_slot(keys_of(entries), key as nat);
            assert(tree_entries(tree) == entries.insert(
                upper_slot(keys_of(entries), key as nat) as int,
                (key, entering),
            ));
            assert(model_of(tree_entries(tree), self.idle@).ready =~= old(self)@.ready.insert(
                upper_slot(old(self)@.vruntimes(), entering@.vruntime) as int,
                entering@,
            ));
            assert(model_of(tree_entries(tree), self.idle@) =~= old(self)@.inserted(
                task@,
                now as nat,
            ));
            let slot = upper_slot(keys_of(entries), key as nat) as int;
            assert forall|i: int| 0 <= i < tree_entries(tree).len() implies (
            #[trigger] tree_entries(tree)[i]).0 == tree_entries(tree)[i].1@.vruntime by {
                if i < slot {
                    assert(tree_entries(tree)[i] == entries[i]);
                } else if i > slot {
                    assert(tree_entries(tree)[i] == entries[i - 1]);
                }
            }
        }
        std::mem::swap(&mut self.tree, &mut tree);
    }

    /// Takes the task with the smallest virtual runtime out of the core
    /// and puts it on the processor. Among tasks with the same virtual
    /// runtime the one that was ranked first leaves first.
    pub fn pop(&mut self) -> (task: Box<Task>)
        requires
            old(self)@.ready.len() > 0,
        ensures
            task@ == old(self)@.first(),
            final(self)@ == old(self)@.rest(),
            final(self)@.wf(),
    {
        proof {
            use_type_invariant(&*self);
        }
        let mut tree = tree_new();
        std::mem::swap(&mut self.tree, &mut tree);
        let ghost entries = tree_entries(tree);
        let first = tree_pop_first(&mut tree);
        proof {
            assert(model_of(tree_entries(tree), self.idle@).ready =~= old(self)@.ready.drop_first());
            assert(model_of(tree_entries(tree), self.idle@) =~= old(self)@.rest());
            assert(old(self)@.rest().vruntimes() =~= old(self)@.vruntimes().drop_first());
            assert forall|i: int| 0 <= i < old(self)@.rest().ready.len() implies (
            #[trigger] old(self)@.rest().ready[i]).status == TaskStatus::Waiting && old(
                self,
            )@.rest().ready[i].wf() by {
                assert(old(self)@.rest().ready[i] == old(self)@.ready[i + 1]);
            }
            assert forall|i: int| 0 <= i < tree_entries(tree).len() implies (
            #[trigger] tree_entries(tree)[i]).0 == tree_entries(tree)[i].1@.vruntime by {
                assert(tree_entries(tree)[i] == entries[i + 1]);
            }
        }
        std::mem::swap(&mut self.tree, &mut tree);
        let mut task = first.unwrap().1;
        assert(task@ == old(self)@.ready[0]);
        task.run();
        Box::new(task)
    }

    /// Whether no task is runnable.
    pub fn is_empty(&mut self) -> (empty: bool)
        ensures
            empty == (old(self)@.ready.len() == 0),
            final(self)@ == old(self)@,
    {
        tree_is_empty(&self.tree)
    }

    /// Whether the core holds no task at all, runnable or blocked.
    pub fn is_finished(&self) -> (finished: bool)
        ensures
            finished == self@.is_finished(),
    {
        tree_is_empty(&self.tree) && self.idle.len() == 0
    }

    /// One CPU quantum at the tick that the clock shows: see
    /// [`FairAlgorithm::run_at`].
    pub fn run(&mut self)
        ensures
            final(self)@.wf(),
            exists|now: nat| final(self)@ == old(self)@.cpu_turn(now),
    {
        proof {
            use_type_invariant(&*self);
        }
        if self.is_empty() {
            assert(self@ == old(self)@.cpu_turn(0));
            return ;
        }
        let mut task = *self.pop();
        task.cpu_cycle();
        let ghost rest = self@;
        self.insert(task);
        proof {
            let now = choose|now: nat| self@ == rest.inserted(task@, now);
            assert(self@ == old(self)@.cpu_turn(now));
        }
    }

    /// One CPU quantum at tick `now`: the runnable task with the smallest
    /// virtual runtime leaves the core, runs for one CPU cycle and is
    /// handed back at `now`. Nothing happens where no task is runnable.
    pub fn run_at(&mut self, now: u128)
        ensures
            final(self)@ == old(self)@.cpu_turn(now as nat),
            final(self)@.wf(),
    {
        proof {
            use_type_invariant(&*self);
        }
        if self.is_empty() {
            return ;
        }
        let mut task = *self.pop();
        task.cpu_cycle();
        self.insert_at(task, now);
    }

    /// One IO quantum at the tick that the clock shows: see
    /// [`FairAlgorithm::idle_at`].
    pub fn idle(&mut self)
        ensures
            final(self)@.wf(),
            exists|now: nat| final(self)@ == old(self)@.io_turn(now),
    {
        proof {
            use_type_invariant(&*self);
        }
        if self.idle.len() == 0 {
            assert(self@ == old(self)@.io_turn(0));
            return ;
        }
        let mut curr = self.take_blocked();
        curr.io_cycle();
        let ghost rest = self@;
        self.insert(curr);
        proof {
            let now = choose|now: nat| self@ == rest.inserted(curr@, now);
            assert(self@ == old(self)@.io_turn(now));
        }
    }

    /// One IO quantum at tick `now`: the task in front of the blocked line
    /// leaves it, is served for one IO cycle and is handed back at `now`.
    /// Nothing happens where no task is blocked.
    pub fn idle_at(&mut self, now: u128)
        ensures
            final(self)@ == old(self)@.io_turn(now as nat),
            final(self)@.wf(),
    {
        proof {
            use_type_invariant(&*self);
        }
        if self.idle.len() == 0 {
            return ;
        }
        let mut curr = self.take_blocked();
        curr.io_cycle();
        self.insert_at(curr, now);
    }

    /// Takes the task in front of the blocked line out of the core.
    fn take_blocked(&mut self) -> (task: Task)
        requires
            old(self)@.blocked.len() > 0,
        ensures
            task@ == old(self)@.blocked[0],
            final(self)@ == (FairModel { blocked: old(self)@.blocked.drop_first(), ..old(self)@ }),
    {
        proof {
            use_type_invariant(&*self);
        }
        let mut idle: VecDeque<Task> = VecDeque::new();
        std::mem::swap(&mut self.idle, &mut idle);
        let front = idle.pop_front();
        proof {
            assert(models(idle@) =~= old(self)@.blocked.drop_first());
            assert forall|j: int| 0 <= j < idle@.len() implies (#[trigger] models(idle@)[j]).status
                == TaskStatus::Idle && models(idle@)[j].wf() by {
                assert(models(idle@)[j] == old(self)@.blocked[j + 1]);
            }
        }
        std::mem::swap(&mut self.idle, &mut idle);
        front.unwrap()
    }
}

} // verus!
