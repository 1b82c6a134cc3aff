use rust_cfs::proc::queue::TaskQueue;
use rust_cfs::proc::task::{Task, TaskStatus};
use rust_cfs::sched::clock::Clock;
use rust_cfs::sched::fair::FairAlgorithm;

fn drain(core: &mut FairAlgorithm) -> Vec<u16> {
    let mut out = Vec::new();
    while !core.is_empty() {
        out.push(core.pop().get_id());
    }
    out
}

#[test]
fn new_core_holds_nothing() {
    let mut clock = Clock::new();
    let mut core = FairAlgorithm::new(&mut clock);
    assert!(core.is_empty());
    assert!(core.is_finished());
    core.run();
    core.idle();
    core.run_at(5);
    core.idle_at(5);
    assert!(core.is_finished());
}

#[test]
fn insert_drops_a_terminated_task() {
    let mut clock = Clock::new();
    let mut core = FairAlgorithm::new(&mut clock);
    let mut ended = Task::new(1, 10, 3, 2, 0, 1);
    ended.terminate();
    core.insert(ended);
    assert!(core.is_finished());
    core.insert_at(ended, 9);
    assert!(core.is_finished());
    core.push(vec![ended, ended]);
    assert!(core.is_finished());
}

#[test]
fn insert_puts_an_idle_task_in_the_blocked_line() {
    let mut clock = Clock::new();
    let mut core = FairAlgorithm::new(&mut clock);
    let mut blocked = Task::new(1, 10, 3, 2, 0, 1);
    blocked.to_idle();
    core.insert_at(blocked, 4);
    assert!(core.is_empty());
    assert!(!core.is_finished());
    core.idle_at(4);
    assert!(core.is_empty());
    core.idle_at(5);
    assert!(!core.is_empty());
    let back = core.pop();
    assert_eq!(back.get_id(), 1);
    assert_eq!(back.get_status(), TaskStatus::Running);
    assert!(core.is_finished());
}

#[test]
fn insert_charges_and_pop_runs_the_task() {
    let mut clock = Clock::new();
    let mut core = FairAlgorithm::new(&mut clock);
    core.insert_at(Task::new(1, 100, 10, 5, 3, 4), 23);
    let mut task = core.pop();
    assert_eq!(task.get_status(), TaskStatus::Running);
    assert_eq!(task.get_id(), 1);
    assert_eq!(task.vruntime(3), 5);
    assert!(core.is_empty());
}

#[test]
fn pop_takes_the_smallest_virtual_runtime() {
    let mut clock = Clock::new();
    let mut core = FairAlgorithm::new(&mut clock);
    core.insert_at(Task::new(1, 100, 10, 5, 0, 1), 30);
    core.insert_at(Task::new(2, 100, 10, 5, 0, 3), 30);
    core.insert_at(Task::new(3, 100, 10, 5, 0, 2), 30);
    core.insert_at(Task::new(4, 100, 10, 5, 0, 30), 30);
    core.insert_at(Task::new(5, 100, 10, 5, 0, 5), 30);
    assert_eq!(drain(&mut core), vec![4, 5, 2, 3, 1]);
}

#[test]
fn round_trip_pops_in_key_order() {
    let mut clock = Clock::new();
    let mut core = FairAlgorithm::new(&mut clock);
    let nows: [u128; 9] = [50, 7, 93, 7, 0, 61, 93, 12, 50];
    for (i, now) in nows.iter().enumerate() {
        core.insert_at(Task::new(i as u16 + 1, 100, 10, 5, 0, 1), *now);
    }
    let mut keys: Vec<u64> = Vec::new();
    let mut order: Vec<u16> = Vec::new();
    while !core.is_empty() {
        let mut task = core.pop();
        order.push(task.get_id());
        keys.push(task.vruntime(0));
    }
    assert_eq!(keys, vec![0, 7, 7, 12, 50, 50, 61, 93, 93]);
    assert_eq!(order, vec![5, 2, 4, 8, 1, 9, 6, 3, 7]);
}

#[test]
fn equal_keys_leave_in_order_of_arrival() {
    let mut clock = Clock::new();
    let mut core = FairAlgorithm::new(&mut clock);
    let mut tasks = Vec::new();
    for id in 1u16..=20 {
        tasks.push(Task::new(id, 100, 10, 5, 8, 3));
    }
    core.push_at(tasks, 8);
    let expected: Vec<u16> = (1u16..=20).collect();
    assert_eq!(drain(&mut core), expected);
}

#[test]
fn tasks_of_the_earlier_tick_run_first() {
    let mut queue = TaskQueue::new();
    queue.append(&[
        Task::new(1, 20, 10, 5, 1, 2),
        Task::new(2, 20, 10, 5, 1, 2),
        Task::new(3, 20, 10, 5, 2, 2),
    ]);
    let mut clock = Clock::new();
    let mut core = FairAlgorithm::new(&mut clock);
    let mut now: u128 = 1;
    while !queue.is_empty() {
        core.push_at(queue.pop(), now);
        now += 1;
    }
    let mut first_turns: Vec<u16> = Vec::new();
    for _ in 0..12 {
        let mut task = core.pop();
        if !first_turns.contains(&task.get_id()) {
            first_turns.push(task.get_id());
        }
        task.cpu_cycle();
        core.insert_at(*task, now);
        now += 1;
    }
    assert_eq!(first_turns, vec![1, 2, 3]);
}

#[test]
fn run_gives_one_cycle_to_the_front_task() {
    let mut clock = Clock::new();
    let mut core = FairAlgorithm::new(&mut clock);
    core.insert_at(Task::new(1, 2, 10, 5, 0, 1), 0);
    core.run_at(1);
    assert!(!core.is_empty());
    let task = core.pop();
    assert_eq!(task.get_runtime(), 1);
    core.insert_at(*task, 1);
    core.run_at(2);
    assert!(core.is_finished());
}

#[test]
fn run_moves_a_task_to_the_blocked_line_after_its_burst() {
    let mut clock = Clock::new();
    let mut core = FairAlgorithm::new(&mut clock);
    core.insert_at(Task::new(1, 10, 2, 3, 0, 1), 0);
    core.run_at(1);
    assert!(!core.is_empty());
    core.run_at(2);
    assert!(core.is_empty());
    assert!(!core.is_finished());
    core.idle_at(3);
    core.idle_at(4);
    assert!(core.is_empty());
    core.idle_at(5);
    assert!(!core.is_empty());
    assert_eq!(core.pop().get_runtime(), 2);
}

#[test]
fn insert_reads_the_shared_clock() {
    let mut clock = Clock::new();
    let mut core = FairAlgorithm::new(&mut clock);
    for _ in 0..40 {
        clock.tick();
    }
    core.insert(Task::new(1, 100, 10, 5, 0, 4));
    core.insert(Task::new(2, 100, 10, 5, 0, 8));
    for _ in 0..40 {
        clock.tick();
    }
    core.insert(Task::new(3, 100, 10, 5, 0, 40));
    let mut keys: Vec<(u16, u64)> = Vec::new();
    while !core.is_empty() {
        let mut task = core.pop();
        keys.push((task.get_id(), task.vruntime(0)));
    }
    assert_eq!(keys, vec![(3, 2), (2, 5), (1, 10)]);
}

#[test]
fn heavier_task_runs_more_often() {
    let mut clock = Clock::new();
    let mut core = FairAlgorithm::new(&mut clock);
    core.insert_at(Task::new(1, 100000, 100000, 1, 0, 3), 0);
    core.insert_at(Task::new(2, 100000, 100000, 1, 0, 1), 0);
    let mut runs = [0u32; 3];
    for now in 1u128..=4000 {
        let mut task = core.pop();
        runs[task.get_id() as usize] += 1;
        task.cpu_cycle();
        core.insert_at(*task, now);
    }
    assert_eq!(runs[1] + runs[2], 4000);
    assert_eq!(runs[1], 3000);
    assert_eq!(runs[2], 1000);
}

#[test]
fn quanta_of_two_contenders_follow_their_weights() {
    let mut clock = Clock::new();
    let mut core = FairAlgorithm::new(&mut clock);
    let (weight_a, weight_b) = (5u128, 2u128);
    core.insert_at(Task::new(1, 1000000, 1000000, 1, 0, weight_a as u32), 0);
    core.insert_at(Task::new(2, 1000000, 1000000, 1, 0, weight_b as u32), 0);
    let (first, last) = (10000u128, 10699u128);
    let mut quanta = [0u128; 3];
    for now in first..=last {
        let mut task = core.pop();
        quanta[task.get_id() as usize] += 1;
        task.cpu_cycle();
        core.insert_at(*task, now);
    }
    assert_eq!(quanta[1] + quanta[2], 700);
    assert_eq!(quanta[1], 500);
    assert_eq!(quanta[2], 200);
    let slack = last / weight_b;
    assert!(quanta[1] * (first / weight_a) <= quanta[2] * (last / weight_b) + 2 * slack);
    assert!(quanta[2] * (first / weight_b) <= quanta[1] * (last / weight_a) + 2 * slack);
    let most = weight_a.max(weight_b);
    assert!(quanta[1] * weight_b * (first - weight_a) <= (quanta[2] * weight_a + 2 * most) * last);
    assert!(quanta[2] * weight_a * (first - weight_b) <= (quanta[1] * weight_b + 2 * most) * last);
}

#[test]
fn core_agrees_with_a_sorted_list_under_mixed_use() {
    let mut clock = Clock::new();
    let mut core = FairAlgorithm::new(&mut clock);
    // The runnable tasks as (virtual runtime, id), kept sorted, equal keys
    // in order of arrival.
    let mut expected: Vec<(u64, u16)> = Vec::new();
    let mut state: u64 = 12345;
    let mut next_id: u16 = 1;
    for round in 0..4000u32 {
        state = state.wrapping_mul(6364136223846793005).wrapping_add(1442695040888963407);
        let draw = (state >> 33) % 100;
        if draw < 60 || expected.is_empty() {
            let now = (state >> 40) % 50;
            let weight = 1 + ((state >> 20) % 4) as u32;
            core.insert_at(Task::new(next_id, 100, 10, 5, 0, weight), now as u128);
            let key = now / weight as u64;
            let slot = expected.iter().take_while(|entry| entry.0 <= key).count();
            expected.insert(slot, (key, next_id));
            next_id += 1;
        } else {
            assert!(!core.is_empty(), "round {}", round);
            let mut task = core.pop();
            let (key, id) = expected.remove(0);
            assert_eq!(task.get_id(), id, "round {}", round);
            assert_eq!(task.vruntime(0), key, "round {}", round);
        }
        assert_eq!(core.is_empty(), expected.is_empty());
    }
    while let Some((key, id)) = expected.first().copied() {
        let mut task = core.pop();
        assert_eq!((task.vruntime(0), task.get_id()), (key, id));
        expected.remove(0);
    }
    assert!(core.is_finished());
}

#[test]
fn insert_charges_the_whole_elapsed_time() {
    let mut clock = Clock::new();
    let mut core = FairAlgorithm::new(&mut clock);
    core.insert_at(Task::new(1, 100, 10, 5, 0, 2), 1u128 << 64);
    core.insert_at(Task::new(2, 100, 10, 5, 0, 1), (1u128 << 63) + 1);
    core.insert_at(Task::new(3, 100, 10, 5, 0, 1), (1u128 << 63) - 1);
    let mut keys: Vec<(u16, u64)> = Vec::new();
    while !core.is_empty() {
        let mut task = core.pop();
        keys.push((task.get_id(), task.vruntime(0)));
    }
    assert_eq!(keys, vec![(3, (1u64 << 63) - 1), (1, 1u64 << 63), (2, (1u64 << 63) + 1)]);
}

#[test]
fn insert_before_birth_charges_nothing() {
    let mut clock = Clock::new();
    let mut core = FairAlgorithm::new(&mut clock);
    core.insert_at(Task::new(1, 100, 10, 5, 0, 4), 8);
    core.insert_at(Task::new(2, 100, 10, 5, 9, 1), 8);
    core.insert_at(Task::new(3, 100, 10, 5, 7, 1), 8);
    let mut keys: Vec<(u16, u64)> = Vec::new();
    while !core.is_empty() {
        let mut task = core.pop();
        assert_eq!(task.get_status(), TaskStatus::Running);
        keys.push((task.get_id(), task.vruntime(0)));
    }
    assert_eq!(keys, vec![(2, 0), (3, 1), (1, 2)]);
}

#[test]
fn heavier_task_is_never_behind_in_quanta() {
    for (heavier, lighter) in [(3u32, 1u32), (5, 2), (7, 3), (100, 7), (13, 5), (4, 4)] {
        let mut clock = Clock::new();
        let mut core = FairAlgorithm::new(&mut clock);
        core.insert_at(Task::new(1, 1000000, 1000000, 1, 0, heavier), 0);
        core.insert_at(Task::new(2, 1000000, 1000000, 1, 0, lighter), 0);
        let mut quanta = [0u64; 3];
        for now in 1u128..=3000 {
            let mut task = core.pop();
            if quanta[1] == quanta[2] {
                assert_eq!(task.get_id(), 1);
            }
            quanta[task.get_id() as usize] += 1;
            assert!(quanta[1] >= quanta[2]);
            task.cpu_cycle();
            core.insert_at(*task, now);
        }
    }
}

#[test]
fn quanta_follow_the_weights_only_in_the_long_run() {
    let mut clock = Clock::new();
    let mut core = FairAlgorithm::new(&mut clock);
    core.insert_at(Task::new(1, 1000000, 1000000, 1, 0, 100), 0);
    core.insert_at(Task::new(2, 1000000, 1000000, 1, 0, 7), 0);
    let mut quanta = [0i64; 3];
    let mut widest = 0;
    let mut widest_early = 0;
    for now in 1u128..=20000 {
        let mut task = core.pop();
        quanta[task.get_id() as usize] += 1;
        let gap = (quanta[1] * 7 - quanta[2] * 100).abs();
        if gap > widest {
            widest = gap;
        }
        if now == 1000 {
            widest_early = widest;
        }
        task.cpu_cycle();
        core.insert_at(*task, now);
    }
    assert_eq!(quanta[1], 18706);
    assert_eq!(quanta[2], 1294);
    assert_eq!(widest_early, 831);
    assert_eq!(widest, 1605);
}

#[test]
fn every_run_ends_within_its_bound() {
    let sets: [&[(usize, usize, u64, u32)]; 4] = [
        &[(50, 9, 1, 4), (50, 3, 7, 2)],
        &[(1, 1, 1, 1)],
        &[(0, 1, 0, 1), (7, 2, 0, 3), (7, 7, 9, 1)],
        &[(30, 1, 5, 1), (30, 1, 5, 9), (30, 30, 1, 2), (3, 2, 40, 5)],
    ];
    for set in sets {
        let mut clock = Clock::new();
        let mut core = FairAlgorithm::new(&mut clock);
        let mut bound: u128 = 0;
        for (i, (demand, burst, io, weight)) in set.iter().enumerate() {
            core.insert_at(Task::new(i as u16 + 1, *demand, *burst, *io, 0, *weight), 0);
            let cycles = if *demand > 0 { *demand as u128 } else { 1 };
            let span = if *io > 0 { *io as u128 } else { 1 };
            bound += cycles * (1 + span);
        }
        let mut ticks: u128 = 0;
        let mut cycles = vec![0usize; set.len() + 1];
        while !core.is_finished() {
            ticks += 1;
            assert!(ticks <= bound);
            if !core.is_empty() {
                let mut task = core.pop();
                task.cpu_cycle();
                cycles[task.get_id() as usize] += 1;
                assert_eq!(task.get_runtime(), cycles[task.get_id() as usize]);
                core.insert_at(*task, ticks);
            }
            core.idle_at(ticks);
        }
        for (i, (demand, _, _, _)) in set.iter().enumerate() {
            assert_eq!(cycles[i + 1], if *demand > 0 { *demand } else { 1 });
        }
    }
}
