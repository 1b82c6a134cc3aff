//! Progress of the core: every run of CPU and IO quanta ends, with each
//! task served its whole demand.

use crate::proc::task::{TaskModel, TaskStatus};
use crate::sched::fair::{lemma_inserted_wf, FairModel};
use crate::tree::ordered::{lemma_upper_slot, upper_slot};
use vstd::prelude::*;

verus! {

/// The CPU cycles that a task still asks for. A task always asks for one
/// at least: the cycle on which it ends.
pub open spec fn cpu_left(task: TaskModel) -> nat {
    if task.demand > task.runtime {
        (task.demand - task.runtime) as nat
    } else {
        1
    }
}

/// The IO cycles that one IO burst of a task takes: its length, and one
/// cycle where the length is zero.
pub open spec fn io_span(task: TaskModel) -> nat {
    if task.io_burst > 0 {
        task.io_burst
    } else {
        1
    }
}

/// The IO cycles that a blocked task still waits for in its burst.
pub open spec fn io_left(task: TaskModel) -> nat {
    if io_span(task) > task.idle {
        (io_span(task) - task.idle) as nat
    } else {
        1
    }
}

/// The most quanta that a task can still take up: for each CPU cycle it
/// asks for, that cycle and the IO burst that may follow it.
#[verifier::opaque]
pub open spec fn load(task: TaskModel) -> nat {
    cpu_left(task) * (1 + io_span(task))
}

/// The sum of a run of numbers.
pub open spec fn total(amounts: Seq<nat>) -> nat
    decreases amounts.len(),
{
    if amounts.len() == 0 {
        0
    } else {
        total(amounts.drop_last()) + amounts.last()
    }
}

/// The loads of the runnable tasks.
pub open spec fn ready_loads(core: FairModel) -> Seq<nat> {
    core.ready.map_values(|task: TaskModel| load(task))
}

/// The loads of the blocked tasks, each with what is left of its burst.
pub open spec fn blocked_loads(core: FairModel) -> Seq<nat> {
    core.blocked.map_values(|task: TaskModel| load(task) + io_left(task))
}

/// A bound on the ticks that a core still needs: the loads of all its
/// tasks, and what is left of the IO bursts that are under way.
pub open spec fn due(core: FairModel) -> nat {
    total(ready_loads(core)) + total(blocked_loads(core))
}

/// One tick of a run: one CPU quantum, then one IO quantum.
pub open spec fn turn(core: FairModel, now: nat) -> FairModel {
    core.cpu_turn(now).io_turn(now)
}

/// The core after one tick at each of `times`, first to last.
pub open spec fn course(core: FairModel, times: Seq<nat>) -> FairModel
    decreases times.len(),
{
    if times.len() == 0 {
        core
    } else {
        turn(course(core, times.drop_last()), times.last())
    }
}

/// A number more in a run adds that number to the sum, wherever it
/// enters.
pub proof fn lemma_total_insert(amounts: Seq<nat>, at: int, amount: nat)
    requires
        0 <= at <= amounts.len(),
    ensures
        total(amounts.insert(at, amount)) == total(amounts) + amount,
    decreases amounts.len() - at,
{
    let more = amounts.insert(at, amount);
    if at == amounts.len() {
        assert(more.drop_last() =~= amounts);
    } else {
        lemma_total_insert(amounts.drop_last(), at, amount);
        assert(more.drop_last() =~= amounts.drop_last().insert(at, amount));
    }
}

/// A run without its first number sums to that number less.
pub proof fn lemma_total_drop_first(amounts: Seq<nat>)
    requires
        amounts.len() > 0,
    ensures
        total(amounts.drop_first()) + amounts[0] == total(amounts),
    decreases amounts.len(),
{
    if amounts.len() == 1 {
        assert(amounts.drop_first() =~= Seq::<nat>::empty());
        assert(amounts.drop_last() =~= Seq::<nat>::empty());
    } else {
        lemma_total_drop_first(amounts.drop_last());
        assert(amounts.drop_first().drop_last() =~= amounts.drop_last().drop_first());
    }
}

/// What one CPU cycle does to the load of a running task that it does not
/// end: the load shrinks by the cycle and by a whole IO burst.
pub proof fn lemma_load_after_cycle(task: TaskModel)
    requires
        task.wf(),
        task.status == TaskStatus::Running,
        task.cpu_step().status != TaskStatus::Terminated,
    ensures
        load(task.cpu_step()) + 1 + io_span(task) == load(task),
        io_left(task.cpu_step()) <= io_span(task),
        task.cpu_step().wf(),
{
    reveal(load);
    let after = task.cpu_step();
    assert(cpu_left(after) + 1 == cpu_left(task));
    assert((cpu_left(after) + 1) * (1 + io_span(task)) == cpu_left(after) * (1 + io_span(task))
        + 1 + io_span(task)) by (nonlinear_arith);
}

/// The load of a task does not depend on its status or on its virtual
/// runtime, and is one at least.
pub proof fn lemma_load_of_entering(task: TaskModel, now: nat)
    ensures
        load(task.charged(now).with_status(TaskStatus::Waiting)) == load(task),
        load(task.with_status(TaskStatus::Running)) == load(task),
        load(task) >= 1,
{
    reveal(load);
    assert(cpu_left(task) * (1 + io_span(task)) >= 1) by (nonlinear_arith)
        requires
            cpu_left(task) >= 1,
            io_span(task) >= 1,
    ;
}

/// The number of tasks that a core holds.
pub open spec fn held(core: FairModel) -> nat {
    core.ready.len() + core.blocked.len()
}

/// A core without its front task is well formed, and its runnable tasks
/// are due the front task's load less.
pub proof fn lemma_rest_due(core: FairModel)
    requires
        core.wf(),
        core.ready.len() > 0,
    ensures
        core.rest().wf(),
        total(ready_loads(core.rest())) + load(core.ready[0]) == total(ready_loads(core)),
        blocked_loads(core.rest()) == blocked_loads(core),
{
    let rest = core.rest();
    assert(rest.vruntimes() =~= core.vruntimes().drop_first());
    assert forall|i: int| 0 <= i < rest.ready.len() implies (#[trigger] rest.ready[i]).status
        == TaskStatus::Waiting && rest.ready[i].wf() by {
        assert(rest.ready[i] == core.ready[i + 1]);
    }
    assert(ready_loads(rest) =~= ready_loads(core).drop_first());
    lemma_total_drop_first(ready_loads(core));
}

/// One CPU quantum brings a core nearer to its end. Where a task is
/// runnable, what the core is due shrinks. A task leaves the core only
/// when the cycle ends it, and then it has received its demand exactly.
pub proof fn lemma_cpu_turn_due(core: FairModel, now: nat)
    requires
        core.wf(),
    ensures
        core.cpu_turn(now).wf(),
        due(core.cpu_turn(now)) <= due(core),
        core.ready.len() > 0 ==> due(core.cpu_turn(now)) < due(core),
        core.ready.len() > 0 && core.first().cpu_step().status != TaskStatus::Terminated ==> held(
            core.cpu_turn(now),
        ) == held(core),
        core.ready.len() > 0 && core.first().cpu_step().status == TaskStatus::Terminated ==> held(
            core.cpu_turn(now),
        ) + 1 == held(core) && core.first().cpu_step().runtime == core.first().runtime + 1 && (
        core.first().demand > 0 ==> core.first().cpu_step().runtime == core.first().demand),
{
    if core.ready.len() > 0 {
        let first = core.first();
        let ran = first.cpu_step();
        let rest = core.rest();
        let after = core.cpu_turn(now);
        lemma_rest_due(core);
        lemma_load_of_entering(core.ready[0], now);
        assert(first.wf());
        assert(ran.wf());
        lemma_inserted_wf(rest, ran, now);
        if ran.status == TaskStatus::Terminated {
            assert(after == rest);
        } else {
            lemma_load_after_cycle(first);
            if ran.status == TaskStatus::Idle {
                assert(blocked_loads(after) =~= blocked_loads(rest).insert(
                    rest.blocked.len() as int,
                    load(ran) + io_left(ran),
                ));
                lemma_total_insert(
                    blocked_loads(rest),
                    rest.blocked.len() as int,
                    load(ran) + io_left(ran),
                );
                assert(ready_loads(after) == ready_loads(rest));
            } else {
                let entering = ran.charged(now).with_status(TaskStatus::Waiting);
                let slot = upper_slot(rest.vruntimes(), entering.vruntime) as int;
                lemma_upper_slot(rest.vruntimes(), entering.vruntime);
                lemma_load_of_entering(ran, now);
                assert(ready_loads(after) =~= ready_loads(rest).insert(slot, load(entering)));
                lemma_total_insert(ready_loads(rest), slot, load(entering));
                assert(blocked_loads(after) == blocked_loads(rest));
            }
        }
    }
}

/// One IO quantum brings a core nearer to its end. Where a task is
/// blocked, what the core is due shrinks. No task leaves the core.
pub proof fn lemma_io_turn_due(core: FairModel, now: nat)
    requires
        core.wf(),
    ensures
        core.io_turn(now).wf(),
        due(core.io_turn(now)) <= due(core),
        core.blocked.len() > 0 ==> due(core.io_turn(now)) < due(core),
        held(core.io_turn(now)) == held(core),
{
    if core.blocked.len() > 0 {
        let front = core.blocked[0];
        let served = front.io_step();
        let rest = FairModel { blocked: core.blocked.drop_first(), ..core };
        let after = core.io_turn(now);
        assert forall|j: int| 0 <= j < rest.blocked.len() implies (#[trigger] rest.blocked[j]).status
            == TaskStatus::Idle && rest.blocked[j].wf() by {
            assert(rest.blocked[j] == core.blocked[j + 1]);
        }
        assert(rest.wf());
        assert(served.wf());
        lemma_inserted_wf(rest, served, now);
        assert(blocked_loads(rest) =~= blocked_loads(core).drop_first());
        lemma_total_drop_first(blocked_loads(core));
        assert(load(served) == load(front)) by {
            reveal(load);
        }
        lemma_load_of_entering(front, now);
        if served.status == TaskStatus::Idle {
            assert(io_left(served) + 1 == io_left(front));
            assert(blocked_loads(after) =~= blocked_loads(rest).insert(
                rest.blocked.len() as int,
                load(served) + io_left(served),
            ));
            lemma_total_insert(
                blocked_loads(rest),
                rest.blocked.len() as int,
                load(served) + io_left(served),
            );
            assert(ready_loads(after) == ready_loads(rest));
        } else {
            let entering = served.charged(now).with_status(TaskStatus::Waiting);
            let slot = upper_slot(rest.vruntimes(), entering.vruntime) as int;
            lemma_upper_slot(rest.vruntimes(), entering.vruntime);
            lemma_load_of_entering(served, now);
            assert(ready_loads(after) =~= ready_loads(rest).insert(slot, load(entering)));
            lemma_total_insert(ready_loads(rest), slot, load(entering));
            assert(blocked_loads(after) == blocked_loads(rest));
        }
    }
}

/// One tick brings a core that holds a task nearer to its end, and
/// leaves a core that holds none as it is.
pub proof fn lemma_turn_due(core: FairModel, now: nat)
    requires
        core.wf(),
    ensures
        turn(core, now).wf(),
        !core.is_finished() ==> due(turn(core, now)) < due(core),
        core.is_finished() ==> turn(core, now) == core,
{
    lemma_cpu_turn_due(core, now);
    lemma_io_turn_due(core.cpu_turn(now), now);
}

/// A run is over, or each of its ticks has brought the core nearer to its
/// end.
pub proof fn lemma_course_due(core: FairModel, times: Seq<nat>)
    requires
        core.wf(),
    ensures
        course(core, times).wf(),
        course(core, times).is_finished() || due(course(core, times)) + times.len() <= due(core),
    decreases times.len(),
{
    if times.len() > 0 {
        lemma_course_due(core, times.drop_last());
        lemma_turn_due(course(core, times.drop_last()), times.last());
    }
}

/// Every run ends. Whatever tasks a core holds, and at whatever ticks
/// its quanta are given, after as many ticks as the core is due it holds
/// no task any more: each has been served its demand and has left.
pub proof fn lemma_every_run_ends(core: FairModel, times: Seq<nat>)
    requires
        core.wf(),
        times.len() >= due(core),
    ensures
        course(core, times).is_finished(),
{
    lemma_course_due(core, times);
    let end = course(core, times);
    if !end.is_finished() {
        if end.ready.len() > 0 {
            lemma_load_of_entering(end.ready.last(), 0);
            assert(ready_loads(end).last() == load(end.ready.last()));
        } else {
            lemma_load_of_entering(end.blocked.last(), 0);
            assert(blocked_loads(end).last() == load(end.blocked.last()) + io_left(
                end.blocked.last(),
            ));
        }
    }
}

} // verus!
