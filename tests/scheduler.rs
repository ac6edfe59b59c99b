use sjf_scheduler::clever::arrivals_latest_first;
use sjf_scheduler::heap::TaskHeap;
use sjf_scheduler::{
    compute_execution_order, get_shortest_task_ind, CleverScheduler, NaiveScheduler, Scheduler,
    Task, TaskOrder,
};

fn task(id: u64, queued_at: u32, execution_duration: u32) -> Task {
    Task { id, queued_at, execution_duration }
}

fn both(tasks: &[Task]) -> (Vec<u64>, Vec<u64>) {
    let mut naive = NaiveScheduler::new(tasks);
    let mut clever = CleverScheduler::new(tasks);
    (naive.execution_order(), clever.execution_order())
}

#[test]
fn reverse_queue_order() {
    let tasks = vec![
        Task { id: 42, queued_at: 5, execution_duration: 3 },
        Task { id: 43, queued_at: 2, execution_duration: 3 },
        Task { id: 44, queued_at: 0, execution_duration: 2 },
    ];

    let mut naive_scheduler = NaiveScheduler::new(&tasks);
    let mut clever_scheduler = CleverScheduler::new(&tasks);

    assert_eq!(naive_scheduler.execution_order(), vec![44, 43, 42]);
    assert_eq!(clever_scheduler.execution_order(), vec![44, 43, 42]);
}

#[test]
fn accepts_slice_arg() {
    let tasks = vec![
        Task { id: 42, queued_at: 5, execution_duration: 3 },
        Task { id: 43, queued_at: 2, execution_duration: 3 },
        Task { id: 44, queued_at: 0, execution_duration: 2 },
    ];

    let mut naive_scheduler = NaiveScheduler::new(tasks.as_slice());
    let mut clever_scheduler = CleverScheduler::new(&tasks);

    assert_eq!(naive_scheduler.execution_order(), vec![44, 43, 42]);
    assert_eq!(clever_scheduler.execution_order(), vec![44, 43, 42]);
}

#[test]
fn two_items_queued_at_once() {
    let tasks = vec![
        Task { id: 42, queued_at: 0, execution_duration: 3 },
        Task { id: 43, queued_at: 1, execution_duration: 3 },
        Task { id: 44, queued_at: 2, execution_duration: 2 },
    ];

    let mut naive_scheduler = NaiveScheduler::new(&tasks);
    let mut clever_scheduler = CleverScheduler::new(&tasks);

    assert_eq!(naive_scheduler.execution_order(), vec![42, 44, 43]);
    assert_eq!(clever_scheduler.execution_order(), vec![42, 44, 43]);
}

#[test]
fn empty_input_gives_empty_order() {
    let tasks: Vec<Task> = vec![];
    assert_eq!(both(&tasks), (vec![], vec![]));
    assert_eq!(compute_execution_order(&tasks), Vec::<u64>::new());
}

#[test]
fn singleton_is_dispatched() {
    let tasks = vec![task(1, 10, 5)];
    assert_eq!(both(&tasks), (vec![1], vec![1]));
    assert_eq!(compute_execution_order(&tasks), vec![1]);
}

#[test]
fn entry_point_matches_scenarios() {
    assert_eq!(compute_execution_order(&[task(42, 5, 3), task(43, 2, 3), task(44, 0, 2)]), vec![44, 43, 42]);
    assert_eq!(compute_execution_order(&[task(42, 0, 3), task(43, 1, 3), task(44, 2, 2)]), vec![42, 44, 43]);
}

#[test]
fn output_is_permutation_of_input_ids() {
    let tasks = vec![
        task(7, 3, 1), task(3, 0, 9), task(9, 20, 2), task(1, 4, 4), task(5, 4, 0), task(2, 100, 7),
    ];
    let (naive, clever) = both(&tasks);
    let mut expected: Vec<u64> = tasks.iter().map(|t| t.id).collect();
    expected.sort();
    let mut got = naive.clone();
    got.sort();
    assert_eq!(got, expected);
    let mut got = clever.clone();
    got.sort();
    assert_eq!(got, expected);
}

#[test]
fn repeated_runs_agree() {
    let tasks = vec![task(1, 2, 5), task(2, 0, 3), task(3, 2, 1), task(4, 9, 1)];
    let first = compute_execution_order(&tasks);
    let second = compute_execution_order(&tasks);
    assert_eq!(first, second);
    assert_eq!(both(&tasks), both(&tasks));
}

#[test]
fn strategies_agree_on_varied_inputs() {
    let inputs: Vec<Vec<Task>> = vec![
        vec![task(1, 0, 4), task(2, 0, 4), task(3, 0, 4)],
        vec![task(1, 5, 2), task(2, 5, 1), task(3, 5, 2), task(4, 0, 1)],
        vec![task(10, 1, 0), task(11, 1, 0), task(12, 0, 0)],
        vec![task(1, 0, 10), task(2, 3, 2), task(3, 3, 2), task(4, 30, 1), task(5, 12, 6)],
        vec![task(8, 7, 3), task(8, 7, 3), task(8, 1, 3)],
    ];
    for tasks in inputs {
        let (naive, clever) = both(&tasks);
        assert_eq!(naive, clever);
        assert_eq!(compute_execution_order(&tasks), naive);
    }
}

#[test]
fn zero_arrivals_run_shortest_first() {
    let tasks = vec![task(1, 0, 9), task(2, 0, 3), task(3, 0, 7), task(4, 0, 1), task(5, 0, 5)];
    assert_eq!(both(&tasks), (vec![4, 2, 5, 3, 1], vec![4, 2, 5, 3, 1]));
}

#[test]
fn equal_durations_go_by_arrival_then_id() {
    // At time 10 all three have arrived with the same duration.
    let tasks = vec![task(1, 0, 10), task(9, 4, 2), task(3, 6, 2), task(2, 6, 2)];
    assert_eq!(both(&tasks), (vec![1, 9, 2, 3], vec![1, 9, 2, 3]));
}

#[test]
fn idle_server_waits_for_next_arrival() {
    // After task 1 ends at 2, nothing has arrived until 50.
    let tasks = vec![task(1, 0, 2), task(2, 50, 10), task(3, 55, 1), task(4, 52, 3)];
    assert_eq!(both(&tasks), (vec![1, 2, 3, 4], vec![1, 2, 3, 4]));
}

#[test]
fn idle_skip_takes_shortest_of_simultaneous_arrivals() {
    let tasks = vec![task(1, 5, 10), task(2, 5, 1), task(3, 5, 4)];
    assert_eq!(both(&tasks), (vec![2, 3, 1], vec![2, 3, 1]));
}

#[test]
fn arrival_at_completion_instant_is_considered() {
    // Task 2 arrives exactly when task 1 finishes and is shorter than task 3.
    let tasks = vec![task(1, 0, 4), task(3, 1, 5), task(2, 4, 1)];
    assert_eq!(both(&tasks), (vec![1, 2, 3], vec![1, 2, 3]));
}

#[test]
fn zero_duration_tasks_free_the_server_at_once() {
    let tasks = vec![task(1, 0, 0), task(2, 0, 3), task(3, 1, 0)];
    // 1 runs instantly at 0; 2 runs 0..3; 3 arrived at 1.
    assert_eq!(both(&tasks), (vec![1, 2, 3], vec![1, 2, 3]));
}

#[test]
fn clock_saturates_without_overflow() {
    let tasks = vec![
        task(1, u32::MAX - 1, u32::MAX),
        task(2, u32::MAX, 7),
        task(3, u32::MAX, 2),
        task(4, 0, u32::MAX),
    ];
    assert_eq!(both(&tasks), (vec![4, 3, 2, 1], vec![4, 3, 2, 1]));
}

#[test]
fn shortest_index_picks_first_of_least() {
    let tasks = vec![task(1, 3, 5), task(2, 1, 2), task(3, 0, 7), task(4, 1, 2)];
    assert_eq!(get_shortest_task_ind(&tasks), Some(1));
    assert_eq!(get_shortest_task_ind(&vec![]), None);
    let tied = vec![task(5, 2, 2), task(6, 1, 2)];
    assert_eq!(get_shortest_task_ind(&tied), Some(1));
}

#[test]
fn task_orders_compare_by_their_keys() {
    let a = task(1, 0, 5);
    let b = task(2, 9, 1);
    assert!(TaskOrder::ByDuration.precedes(&b, &a));
    assert!(!TaskOrder::ByDuration.precedes(&a, &b));
    assert!(TaskOrder::ByArrival.precedes(&a, &b));
    assert!(TaskOrder::ByArrival.precedes(&a, &a));
}

#[test]
fn stepwise_use_of_the_baseline() {
    let tasks = vec![task(1, 3, 2), task(2, 0, 4), task(3, 1, 1)];
    let mut s = NaiveScheduler::new(&tasks);
    assert!(s.unfinished());
    s.update_queue();
    assert_eq!(s.current_queue.len(), 1);
    assert_eq!(s.get_next_task().map(|t| t.id), Some(2));
    assert_eq!(s.current_time, 4);
    let new_tasks = s.get_new_tasks();
    assert_eq!(new_tasks.len(), 2);
}

#[test]
fn stepwise_use_of_the_optimized() {
    let tasks = vec![task(1, 3, 2), task(2, 0, 4), task(3, 1, 1)];
    let mut s = CleverScheduler::new(&tasks);
    s.queue_tasks_submitted_before(0);
    assert_eq!(s.current_queue.len(), 1);
    assert_eq!(s.get_next_task().map(|t| t.id), Some(2));
    assert_eq!(s.current_time, 4);
    s.update_queue();
    assert_eq!(s.current_queue.len(), 2);
    assert_eq!(s.get_next_task().map(|t| t.id), Some(3));
    assert_eq!(s.current_time, 5);
    s.update_queue();
    assert_eq!(s.get_next_task().map(|t| t.id), Some(1));
    assert_eq!(s.current_time, 7);
    assert!(!s.unfinished());
    assert_eq!(s.get_next_task(), None);
}

#[test]
fn heap_gives_tasks_back_shortest_first() {
    let mut heap = TaskHeap::new(TaskOrder::ByDuration);
    for t in [task(1, 0, 8), task(2, 3, 2), task(3, 1, 5), task(4, 0, 2), task(5, 9, 0)] {
        heap.push(t);
    }
    assert_eq!(heap.len(), 5);
    let mut ids = Vec::new();
    while let Some(t) = heap.pop() {
        ids.push(t.id);
    }
    assert_eq!(ids, vec![5, 4, 2, 3, 1]);
    assert_eq!(heap.len(), 0);
}

#[test]
fn arrivals_are_laid_out_latest_first() {
    let tasks = vec![task(1, 4, 1), task(2, 9, 1), task(3, 0, 5), task(4, 4, 0)];
    let ids: Vec<u64> = arrivals_latest_first(&tasks).iter().map(|t| t.id).collect();
    assert_eq!(ids, vec![2, 1, 4, 3]);
}

#[test]
fn clock_ends_at_last_completion() {
    let tasks = vec![task(42, 0, 3), task(43, 1, 3), task(44, 2, 2)];
    let mut naive = NaiveScheduler::new(&tasks);
    let mut clever = CleverScheduler::new(&tasks);
    naive.execution_order();
    clever.execution_order();
    assert_eq!(naive.current_time, 8);
    assert_eq!(clever.current_time, 8);
    let idle = vec![task(1, 10, 5)];
    let mut s = CleverScheduler::new(&idle);
    s.execution_order();
    assert_eq!(s.current_time, 15);
}

#[test]
fn empty_run_leaves_clock_at_zero() {
    let tasks: Vec<Task> = vec![];
    let mut s = NaiveScheduler::new(&tasks);
    assert_eq!(s.execution_order(), Vec::<u64>::new());
    assert_eq!(s.current_time, 0);
}

#[test]
fn second_run_changes_nothing() {
    let tasks = vec![task(1, 0, 4), task(2, 1, 1)];
    let mut s = CleverScheduler::new(&tasks);
    assert_eq!(s.execution_order(), vec![1, 2]);
    let t = s.current_time;
    assert_eq!(s.execution_order(), Vec::<u64>::new());
    assert_eq!(s.current_time, t);
    assert_eq!(s.unqueued_tasks.len(), 0);
    assert_eq!(s.current_queue.len(), 0);
}

#[test]
fn new_schedulers_start_with_every_task_waiting() {
    let tasks = vec![task(1, 0, 4), task(2, 7, 1), task(3, 3, 2)];
    let naive = NaiveScheduler::new(&tasks);
    assert_eq!(naive.current_queue.len(), 0);
    assert_eq!(naive.unqueued_tasks, tasks);
    let clever = CleverScheduler::new(&tasks);
    assert_eq!(clever.current_queue.len(), 0);
    let ids: Vec<u64> = clever.unqueued_tasks.iter().map(|t| t.id).collect();
    assert_eq!(ids, vec![2, 3, 1]);
}

#[test]
fn baseline_admission_keeps_order() {
    let tasks = vec![task(1, 5, 1), task(2, 0, 1), task(3, 9, 1), task(4, 0, 2), task(5, 2, 1)];
    let mut s = NaiveScheduler::new(&tasks);
    s.update_queue();
    let admitted: Vec<u64> = s.current_queue.iter().map(|t| t.id).collect();
    let waiting: Vec<u64> = s.unqueued_tasks.iter().map(|t| t.id).collect();
    assert_eq!(admitted, vec![2, 4]);
    assert_eq!(waiting, vec![1, 3, 5]);
    assert_eq!(s.get_next_task().map(|t| t.id), Some(2));
    let waiting: Vec<u64> = s.unqueued_tasks.iter().map(|t| t.id).collect();
    assert_eq!(waiting, vec![1, 3, 5]);
    assert_eq!(s.current_time, 1);
    s.update_queue();
    let admitted: Vec<u64> = s.current_queue.iter().map(|t| t.id).collect();
    assert_eq!(admitted, vec![4]);
}

#[test]
fn optimized_release_accepts_any_time() {
    let tasks = vec![task(1, 5, 1), task(2, 0, 1), task(3, 9, 1)];
    let mut s = CleverScheduler::new(&tasks);
    s.queue_tasks_submitted_before(5);
    assert_eq!(s.current_queue.len(), 2);
    assert_eq!(s.unqueued_tasks.len(), 1);
    s.queue_tasks_submitted_before(0);
    assert_eq!(s.current_queue.len(), 2);
    let mut empty = CleverScheduler::new(&[]);
    empty.queue_tasks_submitted_before(3);
    assert_eq!(empty.current_queue.len(), 0);
    assert_eq!(empty.unqueued_tasks.len(), 0);
}
