//! Fairness of the core: what two tasks that compete for the processor
//! get of it.

use crate::proc::task::{elapsed_ticks, two_pow_64, weighted_elapsed, TaskModel, TaskStatus};
use crate::sched::fair::{lemma_inserted_wf, FairModel};
use crate::tree::ordered::upper_slot;
use vstd::arithmetic::div_mod::{
    lemma_div_is_ordered, lemma_div_is_ordered_by_denominator, lemma_div_pos_is_pos,
    lemma_fundamental_div_mod, lemma_mod_bound, lemma_small_mod,
};
use vstd::prelude::*;

verus! {

/// The most that one charge at tick `now` adds to the virtual runtime of
/// either of two tasks born at `birth` with weights `w1` and `w2`.
pub open spec fn largest_charge(birth: nat, now: nat, w1: nat, w2: nat) -> nat {
    if w1 <= w2 {
        weighted_elapsed(birth, now, w1)
    } else {
        weighted_elapsed(birth, now, w2)
    }
}

/// Whether the core holds just two runnable tasks, told apart by their
/// identifiers and born at the same tick.
pub open spec fn is_duel(core: FairModel) -> bool {
    &&& core.wf()
    &&& core.ready.len() == 2
    &&& core.ready[0].id != core.ready[1].id
    &&& core.ready[0].birth == core.ready[1].birth
}

/// Of the two runnable tasks, the one with identifier `id`.
pub open spec fn contender(core: FairModel, id: nat) -> TaskModel {
    if core.ready[0].id == id {
        core.ready[0]
    } else {
        core.ready[1]
    }
}

/// The distance between the virtual runtimes of two tasks.
pub open spec fn lag(a: TaskModel, b: TaskModel) -> nat {
    if a.vruntime <= b.vruntime {
        (b.vruntime - a.vruntime) as nat
    } else {
        (a.vruntime - b.vruntime) as nat
    }
}

/// The core after one CPU quantum at each of `times`, first to last.
pub open spec fn contest(core: FairModel, times: Seq<nat>) -> FairModel
    decreases times.len(),
{
    if times.len() == 0 {
        core
    } else {
        contest(core, times.drop_last()).cpu_turn(times.last())
    }
}

/// What `quanta` cycles add to a virtual runtime when each is charged
/// `charge`.
#[verifier::opaque]
pub open spec fn worth(quanta: int, charge: nat) -> int {
    quanta * charge
}

/// Cycles are worth no less at a greater charge.
pub proof fn lemma_worth_grows(quanta: int, charge: nat, greater: nat)
    requires
        0 <= quanta,
        charge <= greater,
    ensures
        worth(quanta, charge) <= worth(quanta, greater),
{
    reveal(worth);
    assert(quanta * charge <= quanta * greater) by (nonlinear_arith)
        requires
            0 <= quanta,
            charge <= greater,
    ;
}

/// One cycle more is worth one charge more, and more cycles are not worth
/// less.
pub proof fn lemma_worth(quanta: int, charge: nat, room: int)
    requires
        0 <= quanta,
        quanta + 1 <= room,
    ensures
        worth(quanta + 1, charge) == worth(quanta, charge) + charge,
        worth(quanta + 1, charge) <= worth(room, charge),
        worth(0, charge) == 0,
{
    reveal(worth);
    assert((quanta + 1) * charge == quanta * charge + charge) by (nonlinear_arith);
    assert((quanta + 1) * charge <= room * charge) by (nonlinear_arith)
        requires
            quanta + 1 <= room,
            0 <= charge,
    ;
}

/// Whether a task can take `quanta` more CPU cycles, each charged no more
/// than `charge`, without blocking, ending or wrapping its virtual
/// runtime.
pub open spec fn stays_runnable(task: TaskModel, quanta: nat, charge: nat) -> bool {
    &&& task.runtime + quanta < task.demand
    &&& task.runtime + quanta < task.cpu_burst
    &&& task.vruntime + worth(quanta as int, charge) < two_pow_64()
}

/// One quantum of a duel. The task in front gets one CPU cycle and the
/// charge of the tick; the other task is left as it was.
pub proof fn lemma_quantum(core: FairModel, now: nat)
    requires
        is_duel(core),
        core.ready[0].birth <= now,
        core.ready[0].runtime + 1 < core.ready[0].demand,
        core.ready[0].runtime + 1 < core.ready[0].cpu_burst,
        core.ready[0].vruntime + weighted_elapsed(core.ready[0].birth, now, core.ready[0].weight)
            < two_pow_64(),
    ensures
        is_duel(core.cpu_turn(now)),
        contender(core.cpu_turn(now), core.ready[0].id) == (TaskModel {
            runtime: core.ready[0].runtime + 1,
            vruntime: core.ready[0].vruntime + weighted_elapsed(
                core.ready[0].birth,
                now,
                core.ready[0].weight,
            ),
            ..core.ready[0]
        }),
        contender(core.cpu_turn(now), core.ready[1].id) == core.ready[1],
        core.cpu_turn(now).ready[0].id == core.ready[1].id <==> core.ready[1].vruntime
            <= core.ready[0].vruntime + weighted_elapsed(
            core.ready[0].birth,
            now,
            core.ready[0].weight,
        ),
{
    let a = core.ready[0];
    let b = core.ready[1];
    let ran = core.first().cpu_step();
    let rest = core.rest();
    let entering = ran.charged(now).with_status(TaskStatus::Waiting);
    let after = core.cpu_turn(now);
    lemma_small_mod((a.runtime + 1) as nat, a.cpu_burst);
    assert(rest.ready =~= seq![b]);
    assert(rest.vruntimes() =~= seq![b.vruntime]);
    assert(rest.wf());
    assert(ran.wf());
    lemma_inserted_wf(rest, ran, now);
    assert(elapsed_ticks(a.birth, now) == now - a.birth);
    assert(entering.vruntime == a.vruntime + weighted_elapsed(a.birth, now, a.weight));
    let slot = upper_slot(rest.vruntimes(), entering.vruntime);
    assert(rest.vruntimes().drop_first() =~= Seq::<nat>::empty());
    assert(upper_slot(rest.vruntimes().drop_first(), entering.vruntime) == 0);
    assert(after.ready =~= rest.ready.insert(slot as int, entering));
}

/// A charge grows with the tick and shrinks with the weight.
pub proof fn lemma_charge_ordered(birth: nat, earlier: nat, later: nat, w1: nat, w2: nat)
    requires
        birth <= earlier <= later,
        w1 > 0,
        w2 > 0,
    ensures
        weighted_elapsed(birth, earlier, w1) <= weighted_elapsed(birth, later, w1),
        weighted_elapsed(birth, earlier, w2) <= weighted_elapsed(birth, later, w2),
        weighted_elapsed(birth, later, w1) <= largest_charge(birth, later, w1, w2),
        weighted_elapsed(birth, later, w2) <= largest_charge(birth, later, w1, w2),
        largest_charge(birth, earlier, w1, w2) <= largest_charge(birth, later, w1, w2),
{
    reveal(weighted_elapsed);
    assert(elapsed_ticks(birth, later) == later - birth);
    assert(elapsed_ticks(birth, earlier) == earlier - birth);
    lemma_div_is_ordered(earlier - birth, later - birth, w1 as int);
    lemma_div_is_ordered(earlier - birth, later - birth, w2 as int);
    if w1 <= w2 {
        lemma_div_is_ordered_by_denominator(later - birth, w1 as int, w2 as int);
    } else {
        lemma_div_is_ordered_by_denominator(later - birth, w2 as int, w1 as int);
    }
}

/// Bounded lag. When the task in front of a duel stays runnable through
/// its quantum, and before the quantum the two virtual runtimes differ by
/// no more than one charge at an earlier tick could add, then after the
/// quantum they differ by no more than one charge at the tick of the
/// quantum could add.
///
/// This holds while nothing wraps around: ticks at or after birth, and the
/// charged sum within 64 bits.
pub proof fn lemma_bounded_lag(core: FairModel, earlier: nat, now: nat)
    requires
        is_duel(core),
        core.ready[0].birth <= earlier <= now,
        core.ready[0].runtime + 1 < core.ready[0].demand,
        core.ready[0].runtime + 1 < core.ready[0].cpu_burst,
        core.ready[0].vruntime + weighted_elapsed(core.ready[0].birth, now, core.ready[0].weight)
            < two_pow_64(),
        lag(core.ready[0], core.ready[1]) <= largest_charge(
            core.ready[0].birth,
            earlier,
            core.ready[0].weight,
            core.ready[1].weight,
        ),
    ensures
        is_duel(core.cpu_turn(now)),
        lag(core.cpu_turn(now).ready[0], core.cpu_turn(now).ready[1]) <= largest_charge(
            core.ready[0].birth,
            now,
            core.ready[0].weight,
            core.ready[1].weight,
        ),
{
    let a = core.ready[0];
    let b = core.ready[1];
    lemma_quantum(core, now);
    lemma_charge_ordered(a.birth, earlier, now, a.weight, b.weight);
    assert(a.vruntime <= b.vruntime) by {
        assert(core.vruntimes()[0] <= core.vruntimes()[1]);
    }
}

/// The premises of a contest between two tasks: a duel whose tasks stay
/// runnable through every quantum, at ticks that never decrease and lie
/// at or after the common birth tick, with nothing wrapping around, and
/// with virtual runtimes that start out no more than one charge apart.
pub open spec fn contest_premises(core: FairModel, times: Seq<nat>) -> bool {
    let a = core.ready[0];
    let b = core.ready[1];
    &&& is_duel(core)
    &&& times.len() > 0
    &&& forall|i: int, j: int| 0 <= i <= j < times.len() ==> times[i] <= times[j]
    &&& a.birth <= times[0]
    &&& stays_runnable(a, times.len(), weighted_elapsed(a.birth, times.last(), a.weight))
    &&& stays_runnable(b, times.len(), weighted_elapsed(a.birth, times.last(), b.weight))
    &&& lag(a, b) <= largest_charge(a.birth, times[0], a.weight, b.weight)
}

/// The number of quanta that the task with identifier `id` got between
/// two states of a duel.
pub open spec fn quanta_of(start: FairModel, end: FairModel, id: nat) -> int {
    contender(end, id).runtime - contender(start, id).runtime
}

/// Whether `now` is `then` with `quanta` more CPU cycles, each charged at
/// least `least` and at most `most`.
pub open spec fn served(then: TaskModel, now: TaskModel, quanta: int, least: nat, most: nat) -> bool {
    &&& quanta >= 0
    &&& now == (TaskModel { runtime: (then.runtime + quanta) as nat, vruntime: now.vruntime, ..then })
    &&& then.vruntime + worth(quanta, least) <= now.vruntime <= then.vruntime + worth(
        quanta,
        most,
    )
}

/// Where a contest stands after `done` of its quanta.
pub open spec fn contest_standing(core: FairModel, times: Seq<nat>, done: nat) -> bool {
    let a = core.ready[0];
    let b = core.ready[1];
    let first = times[0];
    let last = times.last();
    let latest = if done == 0 {
        first
    } else {
        times[done - 1]
    };
    let reached = contest(core, times.take(done as int));
    &&& is_duel(reached)
    &&& served(
        a,
        contender(reached, a.id),
        quanta_of(core, reached, a.id),
        weighted_elapsed(a.birth, first, a.weight),
        weighted_elapsed(a.birth, last, a.weight),
    )
    &&& served(
        b,
        contender(reached, b.id),
        quanta_of(core, reached, b.id),
        weighted_elapsed(a.birth, first, b.weight),
        weighted_elapsed(a.birth, last, b.weight),
    )
    &&& quanta_of(core, reached, a.id) + quanta_of(core, reached, b.id) == done
    &&& lag(contender(reached, a.id), contender(reached, b.id)) <= largest_charge(
        a.birth,
        latest,
        a.weight,
        b.weight,
    )
}

/// One more cycle keeps a task served: when the charge lies between the
/// least and the most, and the cycles stay within what the task can take.
pub proof fn lemma_served_once_more(
    then: TaskModel,
    now: TaskModel,
    quanta: int,
    least: nat,
    most: nat,
    charge: nat,
    room: nat,
)
    requires
        served(then, now, quanta, least, most),
        least <= charge <= most,
        quanta + 1 <= room,
        stays_runnable(then, room, most),
    ensures
        now.runtime + 1 < now.demand,
        now.runtime + 1 < now.cpu_burst,
        now.vruntime + charge < two_pow_64(),
        served(
            then,
            (TaskModel { runtime: now.runtime + 1, vruntime: now.vruntime + charge, ..now }),
            quanta + 1,
            least,
            most,
        ),
{
    lemma_worth(quanta, least, room as int);
    lemma_worth(quanta, most, room as int);
}

/// After one quantum the two virtual runtimes are no more than the
/// quantum's charge apart, or no more apart than they were.
pub proof fn lemma_lag_after_quantum(
    front: TaskModel,
    other: TaskModel,
    charge: nat,
    slack_before: nat,
    slack: nat,
)
    requires
        front.vruntime <= other.vruntime,
        lag(front, other) <= slack_before,
        slack_before <= slack,
        charge <= slack,
    ensures
        lag((TaskModel { vruntime: front.vruntime + charge, ..front }), other) <= slack,
        lag(other, (TaskModel { vruntime: front.vruntime + charge, ..front })) <= slack,
{
}

/// A contest keeps its standing through one more quantum.
pub proof fn lemma_contest_step(core: FairModel, times: Seq<nat>, done: nat)
    requires
        contest_premises(core, times),
        done < times.len(),
        contest_standing(core, times, done),
    ensures
        contest_standing(core, times, done + 1),
{
    let a = core.ready[0];
    let b = core.ready[1];
    let birth = a.birth;
    let n = times.len();
    let first = times[0];
    let last = times.last();
    let now = times[done as int];
    let latest = if done == 0 {
        first
    } else {
        times[done - 1]
    };
    let before = contest(core, times.take(done as int));
    let after = before.cpu_turn(now);
    assert(after == contest(core, times.take(done as int + 1))) by {
        assert(times.take(done as int + 1).drop_last() =~= times.take(done as int));
        assert(times.take(done as int + 1).last() == now);
    }
    let front = before.ready[0];
    let other = before.ready[1];
    let a1 = contender(before, a.id);
    let b1 = contender(before, b.id);
    let charge = weighted_elapsed(birth, now, front.weight);
    let slack = largest_charge(birth, now, a.weight, b.weight);
    let slack_before = largest_charge(birth, latest, a.weight, b.weight);
    lemma_charge_ordered(birth, now, last, a.weight, b.weight);
    lemma_charge_ordered(birth, first, now, a.weight, b.weight);
    lemma_charge_ordered(birth, latest, now, a.weight, b.weight);
    assert(front.vruntime <= other.vruntime) by {
        assert(before.vruntimes()[0] <= before.vruntimes()[1]);
    }
    let ran = TaskModel { runtime: front.runtime + 1, vruntime: front.vruntime + charge, ..front };
    if front.id == a.id {
        assert(front == a1 && other == b1);
        lemma_served_once_more(
            a,
            a1,
            quanta_of(core, before, a.id),
            weighted_elapsed(birth, first, a.weight),
            weighted_elapsed(birth, last, a.weight),
            charge,
            n,
        );
        lemma_quantum(before, now);
        lemma_lag_after_quantum(front, other, charge, slack_before, slack);
        assert(contender(after, a.id) == ran);
        assert(contender(after, b.id) == b1);
        assert(lag(ran, b1) == lag(TaskModel { vruntime: front.vruntime + charge, ..front }, b1));
    } else {
        assert(front == b1 && other == a1);
        lemma_served_once_more(
            b,
            b1,
            quanta_of(core, before, b.id),
            weighted_elapsed(birth, first, b.weight),
            weighted_elapsed(birth, last, b.weight),
            charge,
            n,
        );
        lemma_quantum(before, now);
        lemma_lag_after_quantum(front, other, charge, slack_before, slack);
        assert(contender(after, b.id) == ran);
        assert(contender(after, a.id) == a1);
        assert(lag(a1, ran) == lag(a1, TaskModel { vruntime: front.vruntime + charge, ..front }));
    }
}

/// A contest keeps its standing from quantum to quantum.
pub proof fn lemma_contest_standing(core: FairModel, times: Seq<nat>, done: nat)
    requires
        contest_premises(core, times),
        done <= times.len(),
    ensures
        contest_standing(core, times, done),
    decreases done,
{
    if done == 0 {
        assert(times.take(0) =~= Seq::<nat>::empty());
        reveal(worth);
    } else {
        lemma_contest_standing(core, times, (done - 1) as nat);
        lemma_contest_step(core, times, (done - 1) as nat);
    }
}

/// Weighted fairness. Two tasks born at the same tick compete for the
/// processor through a stretch of quanta, neither blocking nor ending.
/// Then each quantum goes to one of the two, their virtual runtimes end
/// no more than one charge apart, and the quanta that either task got,
/// each counted at that task's charge at the first tick of the stretch,
/// exceed the quanta of the other, each counted at the other's charge at
/// the last tick, by no more than two charges.
///
/// A charge is the time since birth divided by the weight. Far from the
/// birth tick the charges at the first and at the last tick of a stretch
/// are nearly the same, so the quanta of the two tasks are to each other
/// as their weights, up to two quanta's worth of charge.
pub proof fn lemma_weighted_fairness(core: FairModel, times: Seq<nat>)
    requires
        contest_premises(core, times),
    ensures
        ({
            let a = core.ready[0];
            let b = core.ready[1];
            let end = contest(core, times);
            let quanta_a = quanta_of(core, end, a.id);
            let quanta_b = quanta_of(core, end, b.id);
            let slack = largest_charge(a.birth, times.last(), a.weight, b.weight);
            &&& is_duel(end)
            &&& quanta_a >= 0
            &&& quanta_b >= 0
            &&& quanta_a + quanta_b == times.len()
            &&& lag(contender(end, a.id), contender(end, b.id)) <= slack
            &&& quanta_a * weighted_elapsed(a.birth, times[0], a.weight) <= quanta_b
                * weighted_elapsed(a.birth, times.last(), b.weight) + 2 * slack
            &&& quanta_b * weighted_elapsed(a.birth, times[0], b.weight) <= quanta_a
                * weighted_elapsed(a.birth, times.last(), a.weight) + 2 * slack
        }),
{
    let a = core.ready[0];
    let b = core.ready[1];
    lemma_contest_standing(core, times, times.len());
    assert(times.take(times.len() as int) =~= times);
    lemma_charge_ordered(a.birth, times[0], times.last(), a.weight, b.weight);
    reveal(worth);
}

/// The greater of two weights.
pub open spec fn greater_weight(w1: int, w2: int) -> int {
    if w1 >= w2 {
        w1
    } else {
        w2
    }
}

/// The lesser of two weights.
pub open spec fn lesser_weight(w1: int, w2: int) -> int {
    if w1 <= w2 {
        w1
    } else {
        w2
    }
}

/// From quanta counted in charges to quanta counted in weights. Where
/// `n1` quanta at the charge of weight `w1` after `early` ticks exceed `n2`
/// quanta at the charge of weight `w2` after `late` ticks by no more than
/// two charges of the lesser weight, the quanta weighed against each
/// other's weights obey the bound below.
pub proof fn lemma_weigh_quanta(n1: int, n2: int, w1: int, w2: int, early: int, late: int)
    requires
        0 <= n1,
        0 <= n2,
        0 < w1,
        0 < w2,
        0 <= early <= late,
        n1 * (early / w1) <= n2 * (late / w2) + 2 * (late / lesser_weight(w1, w2)),
    ensures
        n1 * w2 * (early - w1) <= (n2 * w1 + 2 * greater_weight(w1, w2)) * late,
{
    let c1 = early / w1;
    let c2 = late / w2;
    let least = lesser_weight(w1, w2);
    let most = greater_weight(w1, w2);
    let slack = late / least;
    let both = w1 * w2;
    lemma_fundamental_div_mod(early, w1);
    lemma_fundamental_div_mod(late, w2);
    lemma_fundamental_div_mod(late, least);
    lemma_mod_bound(early, w1);
    lemma_mod_bound(late, w2);
    lemma_mod_bound(late, least);
    lemma_div_pos_is_pos(early, w1);
    lemma_div_pos_is_pos(late, w2);
    lemma_div_pos_is_pos(late, least);
    assert(w1 * c1 >= early - w1);
    assert(w2 * c2 <= late);
    assert(least * slack <= late);
    assert(both == least * most) by (nonlinear_arith)
        requires
            both == w1 * w2,
            (least == w1 && most == w2) || (least == w2 && most == w1),
    ;
    assert(0 < both) by (nonlinear_arith)
        requires
            both == w1 * w2,
            0 < w1,
            0 < w2,
    ;
    if early - w1 <= 0 {
        assert(n1 * w2 * (early - w1) <= 0) by (nonlinear_arith)
            requires
                0 <= n1,
                0 < w2,
                early - w1 <= 0,
        ;
        assert(0 <= (n2 * w1 + 2 * most) * late) by (nonlinear_arith)
            requires
                0 <= n2,
                0 < w1,
                0 < most,
                0 <= late,
        ;
    } else {
        let left = n1 * c1;
        let right = n2 * c2;
        assert(n1 * w2 * (early - w1) <= both * left) by (nonlinear_arith)
            requires
                0 <= n1,
                0 < w2,
                early - w1 <= w1 * c1,
                both == w1 * w2,
                left == n1 * c1,
        ;
        assert(both * left <= both * right + both * (2 * slack)) by (nonlinear_arith)
            requires
                0 < both,
                left <= right + 2 * slack,
        ;
        assert(both * right <= n2 * w1 * late) by (nonlinear_arith)
            requires
                both == w1 * w2,
                right == n2 * c2,
                0 <= n2,
                0 < w1,
                0 <= c2,
                w2 * c2 <= late,
        ;
        assert(both * (2 * slack) <= 2 * most * late) by (nonlinear_arith)
            requires
                both == least * most,
                0 < most,
                least * slack <= late,
        ;
        assert(n2 * w1 * late + 2 * most * late == (n2 * w1 + 2 * most) * late)
            by (nonlinear_arith);
    }
}

/// Weighted fairness in weights. In a contest of two tasks born at the
/// same tick, the quanta of either, weighed with the other's weight, exceed
/// the other's quanta, weighed likewise, by no more than twice the greater
/// weight, once both sides are scaled by the time since birth: the one by
/// the time at the first tick of the stretch less one weight, the other by
/// the time at its last tick.
///
/// Far from the birth tick the two times are nearly the same, and what
/// is left says that `quanta_a * weight_b` and `quanta_b * weight_a` differ
/// by little more than twice the greater weight: the quanta are to each
/// other as the weights. Close to the birth tick the rounding of the charges
/// lets the two drift apart, so no bound on that difference holds that is
/// free of the times.
pub proof fn lemma_quanta_by_weight(core: FairModel, times: Seq<nat>)
    requires
        contest_premises(core, times),
    ensures
        ({
            let a = core.ready[0];
            let b = core.ready[1];
            let end = contest(core, times);
            let quanta_a = quanta_of(core, end, a.id);
            let quanta_b = quanta_of(core, end, b.id);
            let early = times[0] - a.birth;
            let late = times.last() - a.birth;
            let most = greater_weight(a.weight as int, b.weight as int);
            &&& quanta_a + quanta_b == times.len()
            &&& quanta_a * b.weight * (early - a.weight) <= (quanta_b * a.weight + 2 * most) * late
            &&& quanta_b * a.weight * (early - b.weight) <= (quanta_a * b.weight + 2 * most) * late
        }),
{
    let a = core.ready[0];
    let b = core.ready[1];
    let end = contest(core, times);
    let quanta_a = quanta_of(core, end, a.id);
    let quanta_b = quanta_of(core, end, b.id);
    let early = times[0] - a.birth;
    let late = times.last() - a.birth;
    lemma_weighted_fairness(core, times);
    reveal(weighted_elapsed);
    assert(elapsed_ticks(a.birth, times[0]) == early);
    assert(elapsed_ticks(a.birth, times.last()) == late);
    lemma_weigh_quanta(quanta_a, quanta_b, a.weight as int, b.weight as int, early, late);
    lemma_weigh_quanta(quanta_b, quanta_a, b.weight as int, a.weight as int, early, late);
}

/// Where the task that started in front stands against the other after
/// `done` quanta of a contest: it has had no fewer quanta; its virtual
/// runtime is ahead of the other's by no more than its lead in quanta is
/// worth at its own charge; and with no lead it is in front.
pub open spec fn front_standing(core: FairModel, times: Seq<nat>, done: nat) -> bool {
    let a = core.ready[0];
    let b = core.ready[1];
    let latest = if done == 0 {
        times[0]
    } else {
        times[done - 1]
    };
    let reached = contest(core, times.take(done as int));
    let lead = quanta_of(core, reached, a.id) - quanta_of(core, reached, b.id);
    &&& lead >= 0
    &&& contender(reached, a.id).vruntime <= contender(reached, b.id).vruntime + worth(
        lead,
        weighted_elapsed(a.birth, latest, a.weight),
    )
    &&& (lead == 0 ==> reached.ready[0].id == a.id)
}

/// The task in front keeps its standing through one more quantum, when
/// its weight is not the smaller one.
pub proof fn lemma_front_step(core: FairModel, times: Seq<nat>, done: nat)
    requires
        contest_premises(core, times),
        core.ready[0].weight >= core.ready[1].weight,
        done < times.len(),
        front_standing(core, times, done),
    ensures
        front_standing(core, times, done + 1),
{
    let a = core.ready[0];
    let b = core.ready[1];
    let birth = a.birth;
    let n = times.len();
    let first = times[0];
    let last = times.last();
    let now = times[done as int];
    let latest = if done == 0 {
        first
    } else {
        times[done - 1]
    };
    lemma_contest_standing(core, times, done);
    let before = contest(core, times.take(done as int));
    let after = before.cpu_turn(now);
    assert(after == contest(core, times.take(done as int + 1))) by {
        assert(times.take(done as int + 1).drop_last() =~= times.take(done as int));
        assert(times.take(done as int + 1).last() == now);
    }
    let front = before.ready[0];
    let other = before.ready[1];
    let a1 = contender(before, a.id);
    let b1 = contender(before, b.id);
    let na = quanta_of(core, before, a.id);
    let nb = quanta_of(core, before, b.id);
    let lead = na - nb;
    let charge_a = weighted_elapsed(birth, now, a.weight);
    let charge_b = weighted_elapsed(birth, now, b.weight);
    let earlier_a = weighted_elapsed(birth, latest, a.weight);
    lemma_charge_ordered(birth, now, last, a.weight, b.weight);
    lemma_charge_ordered(birth, first, now, a.weight, b.weight);
    lemma_charge_ordered(birth, latest, now, a.weight, b.weight);
    lemma_charge_by_weight(birth, now, b.weight, a.weight);
    lemma_worth_grows(lead, earlier_a, charge_a);
    if front.id == a.id {
        assert(front == a1 && other == b1);
        lemma_served_once_more(
            a,
            a1,
            na,
            weighted_elapsed(birth, first, a.weight),
            weighted_elapsed(birth, last, a.weight),
            charge_a,
            n,
        );
        lemma_quantum(before, now);
        lemma_worth(lead, charge_a, lead + 1);
    } else {
        assert(front == b1 && other == a1);
        assert(lead > 0);
        lemma_served_once_more(
            b,
            b1,
            nb,
            weighted_elapsed(birth, first, b.weight),
            weighted_elapsed(birth, last, b.weight),
            charge_b,
            n,
        );
        lemma_quantum(before, now);
        lemma_worth(lead - 1, charge_a, lead);
    }
}

/// A charge is no greater at a greater weight.
pub proof fn lemma_charge_by_weight(birth: nat, now: nat, lighter: nat, heavier: nat)
    requires
        0 < lighter <= heavier,
    ensures
        weighted_elapsed(birth, now, heavier) <= weighted_elapsed(birth, now, lighter),
{
    reveal(weighted_elapsed);
    lemma_div_is_ordered_by_denominator(
        elapsed_ticks(birth, now) as int,
        lighter as int,
        heavier as int,
    );
}

/// The task in front keeps its standing from quantum to quantum.
pub proof fn lemma_front_standing(core: FairModel, times: Seq<nat>, done: nat)
    requires
        contest_premises(core, times),
        core.ready[0].weight >= core.ready[1].weight,
        done <= times.len(),
    ensures
        front_standing(core, times, done),
    decreases done,
{
    if done == 0 {
        assert(times.take(0) =~= Seq::<nat>::empty());
        lemma_worth(0, weighted_elapsed(core.ready[0].birth, times[0], core.ready[0].weight), 1);
        assert(core.vruntimes()[0] <= core.vruntimes()[1]);
    } else {
        lemma_front_standing(core, times, (done - 1) as nat);
        lemma_front_step(core, times, (done - 1) as nat);
    }
}

/// The heavier task is chosen at least as often. Two tasks born at the
/// same tick compete for the processor, neither blocking nor ending, and
/// the one whose weight is not the smaller is in front at the start.
/// Then at every moment of the contest that task has had at least as many
/// quanta as the other, and whenever the two have had equally many, it
/// is the one that runs next.
pub proof fn lemma_heavier_never_behind(core: FairModel, times: Seq<nat>, done: nat)
    requires
        contest_premises(core, times),
        core.ready[0].weight >= core.ready[1].weight,
        done <= times.len(),
    ensures
        quanta_of(core, contest(core, times.take(done as int)), core.ready[0].id) >= quanta_of(
            core,
            contest(core, times.take(done as int)),
            core.ready[1].id,
        ),
        quanta_of(core, contest(core, times.take(done as int)), core.ready[0].id) == quanta_of(
            core,
            contest(core, times.take(done as int)),
            core.ready[1].id,
        ) ==> contest(core, times.take(done as int)).ready[0].id == core.ready[0].id,
{
    lemma_front_standing(core, times, done);
}

} // verus!
