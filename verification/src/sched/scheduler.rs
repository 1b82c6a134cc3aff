//! The decisions of a simulation run: how admission stamps a task, and
//! what the execution activity does with one tick.
//!
//! The activities themselves (threads, channels, log lines) belong to the
//! program around this library. Each of them hands its events to the
//! functions here and carries out what they answer.

use crate::proc::queue::{due_tasks, with_task, without_due, QueueModel, TaskQueue};
use crate::proc::task::{Task, TaskChar, TaskModel};
use crate::sched::clock::{next_tick, Clock};
use crate::sched::fair::{FairAlgorithm, FairModel};
use vstd::prelude::*;

verus! {

/// The tick that admission stamps next: the newest tick it was told of,
/// or the one it knew before where no newer one has arrived.
pub open spec fn freshest(known: nat, newer: Option<nat>) -> nat {
    match newer {
        Some(tick) => tick,
        None => known,
    }
}

/// The model of an optional tick.
pub open spec fn tick_model(newer: Option<u128>) -> Option<nat> {
    match newer {
        Some(tick) => Some(tick as nat),
        None => None,
    }
}

/// The admission activity's memory: the last tick it was told of.
pub struct Admission {
    known: u128,
}

impl View for Admission {
    type V = nat;

    closed spec fn view(&self) -> nat {
        self.known as nat
    }
}

impl Admission {
    /// Admission that starts out knowing tick `first`.
    pub fn new(first: u128) -> (admission: Self)
        ensures
            admission@ == first,
    {
        Self { known: first }
    }

    /// The last tick admission was told of.
    pub fn known_tick(&self) -> (tick: u128)
        ensures
            tick == self@,
    {
        self.known
    }

    /// Stamps the next descriptor. `newer` is the tick that has arrived
    /// since the last call, if any. The descriptor is stamped with the
    /// freshest tick known; an invalid descriptor yields no task, but the
    /// tick is remembered all the same.
    pub fn stamp(&mut self, descriptor: &TaskChar, newer: Option<u128>) -> (born: Option<Task>)
        ensures
            final(self)@ == freshest(old(self)@, tick_model(newer)),
            descriptor@.valid() ==> born.is_some() && born.unwrap()@ == descriptor@.born(
                final(self)@,
            ),
            !descriptor@.valid() ==> born.is_none(),
    {
        match newer {
            Some(tick) => {
                self.known = tick;
            },
            None => {},
        }
        descriptor.spawn(self.known)
    }
}

/// The mathematical value of the execution activity's state.
pub struct SchedulerModel {
    /// The tick that the scheduler's clock shows.
    pub now: nat,
    /// The tasks that wait for admission.
    pub queue: QueueModel,
    /// The tasks that were admitted and have not ended.
    pub core: FairModel,
}

/// What one step of the execution activity reports.
#[derive(Clone, Copy, Debug, PartialEq, Eq, Structural)]
pub struct Decision {
    /// The task that was chosen to run in this step, if any was runnable.
    pub ran: Option<u16>,
    /// Whether the run is over: no task is held any more and none is
    /// still to arrive.
    pub finished: bool,
}

impl SchedulerModel {
    /// The state in which nothing has happened yet.
    pub open spec fn empty() -> SchedulerModel {
        SchedulerModel { now: 0, queue: Map::empty(), core: FairModel::empty() }
    }

    /// The queue after this step's arrival, if there was one, joined it.
    pub open spec fn arrived(self, arrival: Option<TaskModel>) -> QueueModel {
        match arrival {
            Some(task) => with_task(self.queue, task),
            None => self.queue,
        }
    }

    /// The core after the due tasks were handed to it, the i-th of them at
    /// tick `times[i]`.
    pub open spec fn admitted(self, arrival: Option<TaskModel>, times: Seq<nat>) -> FairModel {
        self.core.inserted_each(due_tasks(self.arrived(arrival)), times)
    }

    /// One step of the execution activity. The arrival joins the queue;
    /// the due tasks move from the queue to the core, the i-th of them at
    /// tick `times[i]`; the core then gives one CPU quantum at tick
    /// `run_at` and one IO quantum at tick `io_at`.
    pub open spec fn stepped_with(
        self,
        arrival: Option<TaskModel>,
        times: Seq<nat>,
        run_at: nat,
        io_at: nat,
    ) -> SchedulerModel {
        SchedulerModel {
            queue: without_due(self.arrived(arrival)),
            core: self.admitted(arrival, times).cpu_turn(run_at).io_turn(io_at),
            ..self
        }
    }

    /// One step of the execution activity in which every clock reading is
    /// `now`.
    pub open spec fn stepped(self, arrival: Option<TaskModel>, now: nat) -> SchedulerModel {
        self.stepped_with(
            arrival,
            Seq::new(due_tasks(self.arrived(arrival)).len(), |i: int| now),
            now,
            now,
        )
    }

    /// The state after the clock advanced by one tick. The tasks stay as
    /// they are.
    pub open spec fn ticked(self) -> SchedulerModel {
        SchedulerModel { now: next_tick(self.now), ..self }
    }

    /// The identifier of the task that a step chooses to run: the one in
    /// front once the due tasks were admitted.
    pub open spec fn chosen(core: FairModel) -> Option<u16> {
        if core.ready.len() == 0 {
            None
        } else {
            Some(core.ready[0].id as u16)
        }
    }
}

/// The model of an optional arrival.
pub open spec fn arrival_model(arrival: Option<Task>) -> Option<TaskModel> {
    match arrival {
        Some(task) => Some(task@),
        None => None,
    }
}

/// The execution activity's state: the clock, the admission queue and the
/// fairness core.
pub struct Scheduler {
    clock: Clock,
    queue: TaskQueue,
    core: FairAlgorithm,
}

impl View for Scheduler {
    type V = SchedulerModel;

    closed spec fn view(&self) -> SchedulerModel {
        SchedulerModel { now: self.clock@, queue: self.queue@, core: self.core@ }
    }
}

impl Scheduler {
    /// A scheduler with a clock of its own and no tasks.
    pub fn new() -> (scheduler: Self)
        ensures
            scheduler@ == SchedulerModel::empty(),
    {
        let mut clock = Clock::new();
        let core = FairAlgorithm::new(&mut clock);
        Self { clock, queue: TaskQueue::new(), core }
    }

    /// The scheduler's clock.
    pub fn clock(&self) -> (clock: &Clock)
        ensures
            clock@ == self@.now,
    {
        &self.clock
    }

    /// Advances the scheduler's clock by one tick. The tasks stay as they
    /// are.
    pub fn tick(&mut self)
        ensures
            final(self)@ == old(self)@.ticked(),
    {
        self.clock.tick();
    }

    /// One step of the execution activity at the tick that the scheduler's
    /// clock shows: see [`Scheduler::step_at`].
    pub fn step(&mut self, arrival: Option<Task>, pending: bool) -> (decision: Decision)
        ensures
            final(self)@ == old(self)@.stepped(arrival_model(arrival), old(self)@.now),
            final(self)@.core.wf(),
            decision.ran == SchedulerModel::chosen(
                old(self)@.core.inserted_all(
                    due_tasks(old(self)@.arrived(arrival_model(arrival))),
                    old(self)@.now,
                ),
            ),
            decision.finished == (final(self)@.core.is_finished() && !pending),
    {
        let now = self.clock.time();
        self.step_at(now, arrival, pending)
    }

    /// One step of the execution activity at tick `now`: the arrival, if
    /// any, joins the queue; the tasks that are due move from the queue
    /// to the core; the core gives one CPU quantum and one IO quantum.
    /// The answer names the task that was chosen to run and tells whether
    /// the run is over.
    pub fn step_at(&mut self, now: u128, arrival: Option<Task>, pending: bool) -> (decision:
        Decision)
        ensures
            final(self)@ == old(self)@.stepped(arrival_model(arrival), now as nat),
            final(self)@.core.wf(),
            decision.ran == SchedulerModel::chosen(
                old(self)@.core.inserted_all(
                    due_tasks(old(self)@.arrived(arrival_model(arrival))),
                    now as nat,
                ),
            ),
            decision.finished == (final(self)@.core.is_finished() && !pending),
    {
        match arrival {
            Some(task) => self.queue.add(task),
            None => {},
        }
        let born = self.queue.pop();
        self.core.push_at(born, now);
        let mut ran: Option<u16> = None;
        if !self.core.is_empty() {
            let mut curr = self.core.pop();
            ran = Some(curr.get_id());
            curr.cpu_cycle();
            self.core.insert_at(*curr, now);
        }
        self.core.idle_at(now);
        let finished = self.core.is_finished() && !pending;
        Decision { ran, finished }
    }
}

} // verus!
