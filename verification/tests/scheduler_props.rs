use rust_cfs::proc::task::{Task, TaskChar, TaskStatus};
use rust_cfs::sched::scheduler::{Admission, Scheduler};

#[test]
fn admission_stamps_with_the_freshest_tick() {
    let descriptor = TaskChar::new(1, 50, 9, 1, 4);
    let mut admission = Admission::new(3);
    assert_eq!(admission.known_tick(), 3);
    let first = admission.stamp(&descriptor, None).unwrap();
    assert_eq!(first.get_start_time(), 3);
    let second = admission.stamp(&descriptor, Some(8)).unwrap();
    assert_eq!(second.get_start_time(), 8);
    assert_eq!(admission.known_tick(), 8);
    let third = admission.stamp(&descriptor, None).unwrap();
    assert_eq!(third.get_start_time(), 8);
    assert_eq!(third.get_status(), TaskStatus::New);
}

#[test]
fn admission_refuses_an_invalid_descriptor() {
    let descriptor = TaskChar::new(1, 50, 9, 1, 0);
    let mut admission = Admission::new(3);
    assert!(admission.stamp(&descriptor, Some(5)).is_none());
    assert_eq!(admission.known_tick(), 5);
}

#[test]
fn step_without_tasks_reports_the_end() {
    let mut scheduler = Scheduler::new();
    let decision = scheduler.step_at(0, None, true);
    assert_eq!(decision.ran, None);
    assert!(!decision.finished);
    let decision = scheduler.step_at(1, None, false);
    assert_eq!(decision.ran, None);
    assert!(decision.finished);
}

#[test]
fn step_admits_and_runs_the_arrival() {
    let mut scheduler = Scheduler::new();
    let decision = scheduler.step_at(4, Some(Task::new(9, 2, 5, 1, 4, 1)), false);
    assert_eq!(decision.ran, Some(9));
    assert!(!decision.finished);
    let decision = scheduler.step_at(5, None, false);
    assert_eq!(decision.ran, Some(9));
    assert!(decision.finished);
}

#[test]
fn both_tasks_receive_their_whole_demand() {
    let descriptors = [TaskChar::new(1, 50, 9, 1, 4), TaskChar::new(2, 50, 3, 7, 2)];
    let mut scheduler = Scheduler::new();
    let mut log: Vec<Option<u16>> = Vec::new();
    let mut next = 0;
    let mut now: u128 = 0;
    loop {
        let arrival = if next < descriptors.len() {
            next += 1;
            descriptors[next - 1].spawn(0)
        } else {
            None
        };
        let decision = scheduler.step_at(now, arrival, next < descriptors.len());
        log.push(decision.ran);
        now += 1;
        if decision.finished {
            break;
        }
        assert!(now < 10000);
    }
    let runs_of = |id: u16, upto: usize| log[..upto].iter().filter(|ran| **ran == Some(id)).count();
    assert_eq!(runs_of(1, log.len()), 50);
    assert_eq!(runs_of(2, log.len()), 50);
    assert_eq!(log.len(), 162);
    assert_eq!(runs_of(1, 40), 27);
    assert_eq!(runs_of(2, 40), 11);
    assert_eq!(log.iter().rposition(|ran| *ran == Some(1)), Some(74));
    assert_eq!(log.iter().rposition(|ran| *ran == Some(2)), Some(161));
    assert_eq!(&log[..12], &[
        Some(1),
        Some(1),
        Some(2),
        Some(1),
        Some(1),
        Some(2),
        Some(1),
        Some(1),
        Some(2),
        Some(1),
        Some(1),
        Some(1),
    ]);
}

#[test]
fn new_scheduler_is_at_tick_zero() {
    let mut scheduler = Scheduler::new();
    assert_eq!(scheduler.clock().time(), 0);
    scheduler.tick();
    scheduler.tick();
    assert_eq!(scheduler.clock().time(), 2);
    let decision = scheduler.step(None, false);
    assert!(decision.finished);
    assert_eq!(scheduler.clock().time(), 2);
}

#[test]
fn step_takes_its_tick_from_the_clock() {
    let mut by_clock = Scheduler::new();
    let mut by_hand = Scheduler::new();
    let arrivals = [Task::new(1, 9, 2, 1, 0, 3), Task::new(2, 9, 4, 2, 1, 1)];
    for round in 0..60u128 {
        let arrival = if round < 2 { Some(arrivals[round as usize]) } else { None };
        for _ in 0..3 {
            by_clock.tick();
        }
        let now = by_clock.clock().time();
        assert_eq!(now, 3 * (round + 1));
        let left = by_clock.step(arrival, round < 1);
        let right = by_hand.step_at(now, arrival, round < 1);
        assert_eq!(left, right);
    }
    assert!(by_clock.step(None, false).finished);
    assert_eq!(by_hand.clock().time(), 0);
}

#[test]
fn step_with_the_clock_runs_to_the_end() {
    let descriptors = [TaskChar::new(1, 15, 5, 3, 1), TaskChar::new(2, 15, 3, 5, 1)];
    let mut scheduler = Scheduler::new();
    let mut admission = Admission::new(scheduler.clock().time());
    let mut runs = [0u32; 3];
    let mut next = 0;
    let mut steps = 0;
    loop {
        let tick = scheduler.clock().time();
        scheduler.tick();
        let arrival = if next < descriptors.len() {
            next += 1;
            admission.stamp(&descriptors[next - 1], Some(tick))
        } else {
            None
        };
        let decision = scheduler.step(arrival, next < descriptors.len());
        if let Some(id) = decision.ran {
            runs[id as usize] += 1;
        }
        steps += 1;
        if decision.finished {
            break;
        }
        assert!(steps < 10000);
    }
    assert_eq!(runs[1], 15);
    assert_eq!(runs[2], 15);
    assert_eq!(scheduler.clock().time(), steps);
}
