use rust_cfs::proc::queue::TaskQueue;
use rust_cfs::proc::task::{Task, TaskStatus};

fn ids(tasks: &[Task]) -> Vec<u16> {
    let mut out = Vec::new();
    for task in tasks {
        out.push(task.get_id());
    }
    out
}

#[test]
fn new_queue_is_empty() {
    let mut queue = TaskQueue::new();
    assert!(queue.is_empty());
    assert!(queue.pop().is_empty());
    assert!(queue.remove(3).is_empty());
    assert!(queue.is_empty());
}

#[test]
fn add_drops_idle_and_terminated_tasks() {
    let mut queue = TaskQueue::new();
    let mut idle = Task::new(1, 10, 3, 2, 4, 1);
    idle.to_idle();
    let mut ended = Task::new(2, 10, 3, 2, 4, 1);
    ended.terminate();
    queue.add(idle);
    queue.add(ended);
    assert!(queue.is_empty());

    queue.add(Task::new(3, 10, 3, 2, 4, 1));
    queue.add(idle);
    queue.add(ended);
    let bucket = queue.pop();
    assert_eq!(ids(&bucket), vec![3]);
    assert!(queue.is_empty());
}

#[test]
fn add_takes_new_waiting_and_running_tasks() {
    let mut queue = TaskQueue::new();
    let fresh = Task::new(1, 10, 3, 2, 4, 1);
    let mut waiting = Task::new(2, 10, 3, 2, 4, 1);
    waiting.schedule();
    let mut running = Task::new(3, 10, 3, 2, 4, 1);
    running.run();
    queue.add(fresh);
    queue.add(waiting);
    queue.add(running);
    let bucket = queue.pop();
    assert_eq!(ids(&bucket), vec![1, 2, 3]);
    assert_eq!(bucket[0].get_status(), TaskStatus::New);
    assert_eq!(bucket[1].get_status(), TaskStatus::Waiting);
    assert_eq!(bucket[2].get_status(), TaskStatus::Running);
}

#[test]
fn pop_yields_buckets_in_birth_order() {
    let mut queue = TaskQueue::new();
    queue.append(&[
        Task::new(5, 3874, 7, 3, 5, 2),
        Task::new(3, 139, 10, 5, 2, 8),
        Task::new(1, 13191, 10, 5, 1, 5),
        Task::new(6, 17013, 10, 6, 5, 5),
        Task::new(4, 31921, 5, 10, 3, 4),
        Task::new(2, 13289, 10, 5, 1, 4),
    ]);
    assert_eq!(ids(&queue.pop()), vec![1, 2]);
    assert_eq!(ids(&queue.pop()), vec![3]);
    assert_eq!(ids(&queue.pop()), vec![4]);
    assert_eq!(ids(&queue.pop()), vec![5, 6]);
    assert!(queue.pop().is_empty());
    assert!(queue.is_empty());
}

#[test]
fn pop_takes_the_bucket_of_tick_zero_first() {
    let mut queue = TaskQueue::new();
    queue.add(Task::new(1, 10, 3, 2, 9, 1));
    queue.add(Task::new(2, 10, 3, 2, 0, 1));
    queue.add(Task::new(3, 10, 3, 2, 4, 1));
    queue.add(Task::new(4, 10, 3, 2, 0, 1));
    assert_eq!(ids(&queue.pop()), vec![2, 4]);
    assert_eq!(ids(&queue.pop()), vec![3]);
    assert_eq!(ids(&queue.pop()), vec![1]);
    assert!(queue.is_empty());
}

#[test]
fn pop_orders_ticks_beyond_64_bits() {
    let mut queue = TaskQueue::new();
    let far: u128 = 1u128 << 100;
    queue.add(Task::new(1, 10, 3, 2, far + 1, 1));
    queue.add(Task::new(2, 10, 3, 2, far, 1));
    queue.add(Task::new(3, 10, 3, 2, u128::MAX, 1));
    assert_eq!(ids(&queue.pop()), vec![2]);
    assert_eq!(ids(&queue.pop()), vec![1]);
    assert_eq!(ids(&queue.pop()), vec![3]);
}

#[test]
fn remove_takes_exactly_the_named_bucket() {
    let mut queue = TaskQueue::new();
    queue.append(&[
        Task::new(1, 10, 3, 2, 1, 1),
        Task::new(2, 10, 3, 2, 2, 1),
        Task::new(3, 10, 3, 2, 1, 1),
    ]);
    assert!(queue.remove(7).is_empty());
    assert!(!queue.is_empty());
    assert_eq!(ids(&queue.remove(1)), vec![1, 3]);
    assert!(queue.remove(1).is_empty());
    assert_eq!(ids(&queue.remove(2)), vec![2]);
    assert!(queue.is_empty());
}

#[test]
fn append_is_add_for_each_task() {
    let mut idle = Task::new(2, 10, 3, 2, 1, 1);
    idle.to_idle();
    let tasks = [Task::new(1, 10, 3, 2, 1, 1), idle, Task::new(3, 10, 3, 2, 1, 1)];
    let mut appended = TaskQueue::new();
    appended.append(&tasks);
    let mut added = TaskQueue::new();
    for task in tasks {
        added.add(task);
    }
    assert_eq!(ids(&appended.pop()), vec![1, 3]);
    assert_eq!(ids(&added.pop()), vec![1, 3]);
    assert!(appended.is_empty());
    assert!(added.is_empty());
}
