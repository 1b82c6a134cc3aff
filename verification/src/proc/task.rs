//! The task lifecycle automaton and its virtual-runtime accounting.

use vstd::arithmetic::div_mod::{
    lemma_add_mod_noop, lemma_add_mod_noop_right, lemma_div_is_ordered, lemma_mod_self_0,
    lemma_small_mod,
};
use vstd::prelude::*;

verus! {

/// Where a task stands in its lifecycle.
#[derive(Clone, Copy, Debug, PartialEq, Eq, Structural)]
pub enum TaskStatus {
    Idle,
    Running,
    Terminated,
    Waiting,
    New,
}

/// Number of values a 64-bit counter can take.
pub open spec fn two_pow_64() -> nat {
    0x1_0000_0000_0000_0000nat
}

/// A sum as a 64-bit counter holds it: the sum itself where it fits, and
/// what is left of it after wrapping around where it does not.
pub open spec fn wrapped(sum: nat) -> nat {
    if sum < two_pow_64() {
        sum
    } else {
        sum % two_pow_64()
    }
}

/// Ticks elapsed from `birth` to `now`. A tick before birth counts as no
/// time at all.
pub open spec fn elapsed_ticks(birth: nat, now: nat) -> nat {
    if now >= birth {
        (now - birth) as nat
    } else {
        0
    }
}

/// Elapsed ticks scaled down by the task's weight (integer division).
#[verifier::opaque]
pub open spec fn weighted_elapsed(birth: nat, now: nat, weight: nat) -> nat
    recommends
        weight > 0,
{
    elapsed_ticks(birth, now) / weight
}

/// The mathematical value of a task: every field as a natural number.
pub struct TaskModel {
    pub id: nat,
    pub demand: nat,
    pub cpu_burst: nat,
    pub io_burst: nat,
    pub weight: nat,
    pub status: TaskStatus,
    pub runtime: nat,
    pub vruntime: nat,
    pub idle: nat,
    pub birth: nat,
}

impl TaskModel {
    /// What every task value satisfies: a usable weight and burst length,
    /// and counters that stay inside the burst they count.
    pub open spec fn wf(self) -> bool {
        &&& self.weight > 0
        &&& self.cpu_burst > 0
        &&& (self.status != TaskStatus::Terminated ==> self.runtime < self.demand || self.runtime
            == 0)
        &&& (self.idle < self.io_burst || self.idle == 0)
        &&& self.vruntime < two_pow_64()
    }

    /// A task as it is created: status `New`, all counters zero.
    pub open spec fn fresh(
        id: nat,
        demand: nat,
        cpu_burst: nat,
        io_burst: nat,
        birth: nat,
        weight: nat,
    ) -> TaskModel {
        TaskModel {
            id,
            demand,
            cpu_burst,
            io_burst,
            weight,
            status: TaskStatus::New,
            runtime: 0,
            vruntime: 0,
            idle: 0,
            birth,
        }
    }

    /// The task with `status` in place of its own.
    pub open spec fn with_status(self, status: TaskStatus) -> TaskModel {
        TaskModel { status, ..self }
    }

    /// The task after its virtual runtime was charged at tick `now`: the
    /// time since birth, divided by the weight, is added. A sum that does
    /// not fit in 64 bits wraps around. At a tick before birth nothing is
    /// charged and the task stays as it is.
    pub open spec fn charged(self, now: nat) -> TaskModel {
        if now < self.birth {
            self
        } else {
            TaskModel {
                vruntime: wrapped(self.vruntime + weighted_elapsed(self.birth, now, self.weight)),
                ..self
            }
        }
    }

    /// The task started over at tick `time`: `New`, with its runtime and
    /// idle counters cleared. The virtual runtime is kept.
    pub open spec fn restarted(self, time: nat) -> TaskModel {
        TaskModel { status: TaskStatus::New, runtime: 0, idle: 0, birth: time, ..self }
    }

    /// One CPU cycle. Only a `Running` task moves: its runtime grows by
    /// one; it terminates when the demand is met, and blocks for IO when a
    /// burst is complete.
    pub open spec fn cpu_step(self) -> TaskModel {
        if self.status != TaskStatus::Running {
            self
        } else if self.runtime + 1 >= self.demand {
            TaskModel { runtime: self.runtime + 1, status: TaskStatus::Terminated, ..self }
        } else if (self.runtime + 1) % self.cpu_burst == 0 {
            TaskModel { runtime: self.runtime + 1, status: TaskStatus::Idle, ..self }
        } else {
            TaskModel { runtime: self.runtime + 1, ..self }
        }
    }

    /// The task after `count` CPU cycles in a row.
    pub open spec fn cpu_steps(self, count: nat) -> TaskModel
        decreases count,
    {
        if count == 0 {
            self
        } else {
            self.cpu_steps((count - 1) as nat).cpu_step()
        }
    }

    /// The task after `count` IO cycles in a row.
    pub open spec fn io_steps(self, count: nat) -> TaskModel
        decreases count,
    {
        if count == 0 {
            self
        } else {
            self.io_steps((count - 1) as nat).io_step()
        }
    }

    /// One IO cycle. Only an `Idle` task moves: its idle counter grows by
    /// one; when the IO burst is complete the counter is cleared and the
    /// task waits for the processor again.
    pub open spec fn io_step(self) -> TaskModel {
        if self.status != TaskStatus::Idle {
            self
        } else if self.idle + 1 >= self.io_burst {
            TaskModel { idle: 0, status: TaskStatus::Waiting, ..self }
        } else {
            TaskModel { idle: self.idle + 1, ..self }
        }
    }
}

/// A schedulable task: identity, static demand, and the counters that the
/// lifecycle automaton advances.
#[derive(Clone, Copy, Debug)]
pub struct Task {
    id: u16,
    cpu_time: usize,
    cpu_burst_length: usize,
    io_burst_length: u64,
    state: TaskStatus,
    runtime: usize,
    vruntime: u64,
    idle_time: u64,
    start_time: u128,
    weight: u32,
}

impl View for Task {
    type V = TaskModel;

    closed spec fn view(&self) -> TaskModel {
        TaskModel {
            id: self.id as nat,
            demand: self.cpu_time as nat,
            cpu_burst: self.cpu_burst_length as nat,
            io_burst: self.io_burst_length as nat,
            weight: self.weight as nat,
            status: self.state,
            runtime: self.runtime as nat,
            vruntime: self.vruntime as nat,
            idle: self.idle_time as nat,
            birth: self.start_time as nat,
        }
    }
}

impl Task {
    /// Holds of every task value that executable code can obtain.
    #[verifier::type_invariant]
    pub open spec fn well_formed(&self) -> bool {
        self@.wf()
    }

    /// A new task, born at tick `start_time`.
    pub fn new(
        id: u16,
        cpu_time: usize,
        cpu_burst_length: usize,
        io_burst_length: u64,
        start_time: u128,
        weight: u32,
    ) -> (task: Self)
        requires
            cpu_burst_length > 0,
            weight > 0,
        ensures
            task@ == TaskModel::fresh(
                id as nat,
                cpu_time as nat,
                cpu_burst_length as nat,
                io_burst_length as nat,
                start_time as nat,
                weight as nat,
            ),
    {
        Self {
            id,
            cpu_time,
            cpu_burst_length,
            io_burst_length,
            state: TaskStatus::New,
            runtime: 0,
            vruntime: 0,
            idle_time: 0,
            start_time,
            weight,
        }
    }

    /// The task's identifier.
    pub fn get_id(&self) -> (id: u16)
        ensures
            id == self@.id,
    {
        self.id
    }

    /// The total number of CPU cycles the task asks for.
    pub fn get_cpu_time(&self) -> (demand: usize)
        ensures
            demand == self@.demand,
    {
        self.cpu_time
    }

    /// The tick at which the task was born.
    pub fn get_start_time(&self) -> (birth: u128)
        ensures
            birth == self@.birth,
    {
        self.start_time
    }

    /// The current lifecycle status.
    pub fn get_status(&self) -> (status: TaskStatus)
        ensures
            status == self@.status,
    {
        self.state
    }

    /// The number of CPU cycles received so far.
    pub fn get_runtime(&self) -> (runtime: usize)
        ensures
            runtime == self@.runtime,
    {
        self.runtime
    }

    /// The task's share of the processor relative to other tasks.
    pub fn weight(&self) -> (weight: u32)
        ensures
            weight == self@.weight,
            weight > 0,
    {
        proof {
            use_type_invariant(self);
        }
        self.weight
    }

    /// Ends the task, whatever its status.
    pub fn terminate(&mut self)
        ensures
            final(self)@ == old(self)@.with_status(TaskStatus::Terminated),
    {
        proof {
            use_type_invariant(&*self);
        }
        self.state = TaskStatus::Terminated
    }

    /// Charges the task at tick `now` and returns its new virtual runtime.
    ///
    /// The charge is the time since birth divided by the weight, rounded
    /// down. It is computed from the birth tick on every call, so a task is
    /// charged at most once per tick of interest. A tick before the birth
    /// tick charges nothing: the virtual runtime stays as it is. A sum that
    /// does not fit in 64 bits wraps around.
    pub fn vruntime(&mut self, now: u128) -> (updated: u64)
        ensures
            final(self)@ == old(self)@.charged(now as nat),
            updated == final(self)@.vruntime,
    {
        proof {
            use_type_invariant(&*self);
            reveal(weighted_elapsed);
        }
        if now < self.start_time {
            return self.vruntime;
        }
        let span: u128 = now - self.start_time;
        let charge: u128 = span / (self.weight as u128);
        let low: u128 = charge % 0x1_0000_0000_0000_0000u128;
        let sum: u128 = self.vruntime as u128 + low;
        proof {
            lemma_add_mod_noop_right(self.vruntime as int, charge as int, two_pow_64() as int);
        }
        self.vruntime = (sum % 0x1_0000_0000_0000_0000u128) as u64;
        self.vruntime
    }

    /// Blocks the task for IO.
    pub fn to_idle(&mut self)
        requires
            old(self)@.status != TaskStatus::Terminated,
        ensures
            final(self)@ == old(self)@.with_status(TaskStatus::Idle),
    {
        proof {
            use_type_invariant(&*self);
        }
        self.state = TaskStatus::Idle
    }

    /// Marks the task ready to run.
    pub fn schedule(&mut self)
        requires
            old(self)@.status != TaskStatus::Terminated,
        ensures
            final(self)@ == old(self)@.with_status(TaskStatus::Waiting),
    {
        proof {
            use_type_invariant(&*self);
        }
        self.state = TaskStatus::Waiting
    }

    /// Puts the task on the processor.
    pub fn run(&mut self)
        requires
            old(self)@.status != TaskStatus::Terminated,
        ensures
            final(self)@ == old(self)@.with_status(TaskStatus::Running),
    {
        proof {
            use_type_invariant(&*self);
        }
        self.state = TaskStatus::Running
    }

    /// Starts the task over as if born at tick `time`.
    pub fn restart(&mut self, time: u128)
        ensures
            final(self)@ == old(self)@.restarted(time as nat),
    {
        proof {
            use_type_invariant(&*self);
        }
        self.runtime = 0;
        self.idle_time = 0;
        self.state = TaskStatus::New;
        self.start_time = time;
    }

    /// Gives the task one CPU cycle. A task that is not `Running` is left
    /// as it is.
    pub fn cpu_cycle(&mut self)
        ensures
            final(self)@ == old(self)@.cpu_step(),
    {
        proof {
            use_type_invariant(&*self);
        }
        match self.state {
            TaskStatus::Running => {
                let served: usize = self.runtime + 1;
                if served >= self.cpu_time {
                    self.terminate();
                    self.runtime = served;
                } else if served % self.cpu_burst_length == 0 {
                    self.runtime = served;
                    self.to_idle();
                } else {
                    self.runtime = served;
                }
            },
            _ => {},
        }
    }

    /// Gives the task one IO cycle. A task that is not `Idle` is left as it
    /// is.
    pub fn io_cycle(&mut self)
        ensures
            final(self)@ == old(self)@.io_step(),
    {
        proof {
            use_type_invariant(&*self);
        }
        match self.state {
            TaskStatus::Idle => {
                let waited: u64 = self.idle_time + 1;
                if waited >= self.io_burst_length {
                    self.idle_time = 0;
                    self.schedule();
                } else {
                    self.idle_time = waited;
                }
            },
            _ => {},
        }
    }
}

impl PartialEq for Task {
    /// Two task values denote the same task when their identifiers agree.
    fn eq(&self, other: &Task) -> (same: bool) {
        self.id == other.id
    }
}

impl vstd::std_specs::cmp::PartialEqSpecImpl for Task {
    open spec fn obeys_eq_spec() -> bool {
        true
    }

    open spec fn eq_spec(&self, other: &Task) -> bool {
        self@.id == other@.id
    }
}

/// The mathematical value of a task descriptor.
pub struct DescriptorModel {
    pub id: nat,
    pub demand: nat,
    pub cpu_burst: nat,
    pub io_burst: nat,
    pub weight: nat,
}

impl DescriptorModel {
    /// A descriptor may be admitted when its identifier is non-zero and its
    /// burst lengths and weight are strictly positive.
    pub open spec fn valid(self) -> bool {
        &&& self.id != 0
        &&& self.cpu_burst > 0
        &&& self.io_burst > 0
        &&& self.weight > 0
    }

    /// The task that admission at tick `birth` makes of the descriptor.
    pub open spec fn born(self, birth: nat) -> TaskModel {
        TaskModel::fresh(self.id, self.demand, self.cpu_burst, self.io_burst, birth, self.weight)
    }
}

/// The static description of a task, as handed in before the run starts.
#[derive(Clone, Copy, Debug)]
pub struct TaskChar {
    id: u16,
    cpu_time: usize,
    cpu_burst_length: usize,
    io_burst_length: u64,
    weight: u32,
}

impl View for TaskChar {
    type V = DescriptorModel;

    closed spec fn view(&self) -> DescriptorModel {
        DescriptorModel {
            id: self.id as nat,
            demand: self.cpu_time as nat,
            cpu_burst: self.cpu_burst_length as nat,
            io_burst: self.io_burst_length as nat,
            weight: self.weight as nat,
        }
    }
}

impl TaskChar {
    /// A descriptor with the given fields. Nothing is checked here: see
    /// [`TaskChar::is_valid`].
    pub fn new(
        id: u16,
        cpu_time: usize,
        cpu_burst_length: usize,
        io_burst_length: u64,
        weight: u32,
    ) -> (descriptor: Self)
        ensures
            descriptor@ == (DescriptorModel {
                id: id as nat,
                demand: cpu_time as nat,
                cpu_burst: cpu_burst_length as nat,
                io_burst: io_burst_length as nat,
                weight: weight as nat,
            }),
    {
        Self { id, cpu_time, cpu_burst_length, io_burst_length, weight }
    }

    /// The identifier the caller assigned.
    pub fn get_id(&self) -> (id: u16)
        ensures
            id == self@.id,
    {
        self.id
    }

    /// The total number of CPU cycles asked for.
    pub fn get_cpu_time(&self) -> (demand: usize)
        ensures
            demand == self@.demand,
    {
        self.cpu_time
    }

    /// The number of CPU cycles between two IO bursts.
    pub fn get_cpu_burst_length(&self) -> (burst: usize)
        ensures
            burst == self@.cpu_burst,
    {
        self.cpu_burst_length
    }

    /// The number of IO cycles in one IO burst.
    pub fn get_io_burst_length(&self) -> (burst: u64)
        ensures
            burst == self@.io_burst,
    {
        self.io_burst_length
    }

    /// The share of the processor relative to other tasks.
    pub fn get_weight(&self) -> (weight: u32)
        ensures
            weight == self@.weight,
    {
        self.weight
    }

    /// Whether the descriptor may be admitted.
    pub fn is_valid(&self) -> (valid: bool)
        ensures
            valid == self@.valid(),
    {
        self.id != 0 && self.cpu_burst_length > 0 && self.io_burst_length > 0 && self.weight > 0
    }

    /// Admits the descriptor at tick `birth`: a valid descriptor becomes a
    /// `New` task stamped with that tick, an invalid one is refused.
    pub fn spawn(&self, birth: u128) -> (admitted: Option<Task>)
        ensures
            self@.valid() ==> admitted.is_some() && admitted.unwrap()@ == self@.born(birth as nat),
            !self@.valid() ==> admitted.is_none(),
    {
        if self.is_valid() {
            Some(
                Task::new(
                    self.id,
                    self.cpu_time,
                    self.cpu_burst_length,
                    self.io_burst_length,
                    birth,
                    self.weight,
                ),
            )
        } else {
            None
        }
    }
}

/// Charging a task at a later tick never gives it less virtual runtime.
/// At or after birth the charge is the time since birth divided by the
/// weight; before birth there is none.
///
/// This holds while the sum charged at the later tick fits in 64 bits.
pub proof fn lemma_vruntime_monotonic(task: TaskModel, t1: nat, t2: nat)
    requires
        task.weight > 0,
        t1 <= t2,
        task.vruntime + elapsed_ticks(task.birth, t2) / task.weight < two_pow_64(),
    ensures
        task.charged(t1).vruntime <= task.charged(t2).vruntime,
        t1 >= task.birth ==> task.charged(t1).vruntime == task.vruntime + (t1 - task.birth)
            / (task.weight as int),
        t2 >= task.birth ==> task.charged(t2).vruntime == task.vruntime + (t2 - task.birth)
            / (task.weight as int),
        t1 < task.birth ==> task.charged(t1) == task,
{
    reveal(weighted_elapsed);
    let w = task.weight as int;
    lemma_div_is_ordered(
        elapsed_ticks(task.birth, t1) as int,
        elapsed_ticks(task.birth, t2) as int,
        w,
    );
    lemma_div_is_ordered(0, elapsed_ticks(task.birth, t1) as int, w);
}

/// Where a count stands in its burst: fewer cycles than a burst past a
/// burst boundary the count is off the boundary, and a whole burst past
/// it the count is on the next one.
pub proof fn lemma_burst_position(boundary: nat, burst: nat, done: nat)
    requires
        burst > 0,
        boundary % burst == 0,
        done <= burst,
    ensures
        done < burst ==> (boundary + done) % burst == done,
        done == burst ==> (boundary + done) % burst == 0,
{
    let m = burst as int;
    lemma_add_mod_noop(boundary as int, done as int, m);
    assert(((boundary as int) % m + (done as int) % m) % m == (boundary as int + done as int) % m);
    if done == burst {
        lemma_mod_self_0(m);
        lemma_small_mod(0, burst);
    } else {
        lemma_small_mod(done, burst);
    }
}

/// A CPU burst. A running task at a burst boundary keeps running for as
/// long as the burst is not complete, its runtime growing by one with each
/// cycle. The cycle that completes the burst blocks it for IO. This holds
/// while the demand is not met.
pub proof fn lemma_cpu_burst(task: TaskModel, cycles: nat)
    requires
        task.cpu_burst > 0,
        task.status == TaskStatus::Running,
        task.runtime % task.cpu_burst == 0,
        cycles <= task.cpu_burst,
        task.runtime + cycles < task.demand,
    ensures
        cycles < task.cpu_burst ==> task.cpu_steps(cycles) == (TaskModel {
            runtime: task.runtime + cycles,
            ..task
        }),
        cycles == task.cpu_burst ==> task.cpu_steps(cycles) == (TaskModel {
            runtime: task.runtime + cycles,
            status: TaskStatus::Idle,
            ..task
        }),
    decreases cycles,
{
    if cycles > 0 {
        lemma_cpu_burst(task, (cycles - 1) as nat);
        lemma_burst_position(task.runtime, task.cpu_burst, cycles);
    }
}

/// The end of the demand. The cycle with which the runtime reaches the
/// demand ends the task, wherever in its burst it stands.
pub proof fn lemma_demand_met(task: TaskModel, cycles: nat)
    requires
        task.cpu_burst > 0,
        task.status == TaskStatus::Running,
        task.runtime % task.cpu_burst == 0,
        0 < cycles <= task.cpu_burst,
        task.runtime + cycles == task.demand,
    ensures
        task.cpu_steps(cycles) == (TaskModel {
            runtime: task.demand,
            status: TaskStatus::Terminated,
            ..task
        }),
{
    lemma_cpu_burst(task, (cycles - 1) as nat);
}

/// A task that a CPU cycle ends has received its demand exactly, neither
/// more nor less. (A task without demand ends on its first cycle.)
pub proof fn lemma_ends_with_demand(task: TaskModel)
    requires
        task.wf(),
        task.status == TaskStatus::Running,
        task.cpu_step().status == TaskStatus::Terminated,
    ensures
        task.demand > 0 ==> task.cpu_step().runtime == task.demand,
        task.demand == 0 ==> task.cpu_step().runtime == 1,
        task.cpu_step().runtime == task.runtime + 1,
{
}

/// An IO burst. A blocked task whose idle counter is clear stays blocked
/// for as long as the burst is not complete; the cycle that completes it
/// clears the counter and makes the task wait for the processor. A burst
/// of length zero is complete after one cycle.
pub proof fn lemma_io_burst(task: TaskModel, cycles: nat)
    requires
        task.status == TaskStatus::Idle,
        task.idle == 0,
        cycles <= task.io_burst,
    ensures
        cycles < task.io_burst ==> task.io_steps(cycles) == (TaskModel { idle: cycles, ..task }),
        cycles > 0 && cycles == task.io_burst ==> task.io_steps(cycles) == (TaskModel {
            status: TaskStatus::Waiting,
            ..task
        }),
        task.io_burst == 0 ==> task.io_steps(1) == (TaskModel {
            status: TaskStatus::Waiting,
            ..task
        }),
    decreases cycles,
{
    reveal_with_fuel(TaskModel::io_steps, 2);
    if cycles > 0 {
        lemma_io_burst(task, (cycles - 1) as nat);
    }
}

} // verus!
