use task_queue::DbError;
use task_queue::Filter;
use task_queue::Task;
use task_queue::TaskKind;
use task_queue::TaskStatus;
use task_queue::TaskStore;

// 2022-01-02 13:14:15 UTC, in milliseconds since the Unix epoch.
const BASE: i64 = 1_641_129_255_000;
// A moment well after BASE and after every delay used here.
const LATER: i64 = 1_700_000_000_000;

#[test]
fn test_happy_path_single_task() {
    let now = BASE;
    let mut db = TaskStore::new();
    let task = Task::with_current_time(TaskKind::Bar, now);
    db.add_task(&task).expect("Unable to add task to the database");

    let next_task = db.get_next_task_executable_at(LATER);

    assert_eq!(next_task.map(|t| t.id), Some(task.id));
}

#[test]
fn test_queue_returns_earliest_task() {
    let now = BASE;
    let mut db = TaskStore::new();
    let task1 = Task::with_current_time(TaskKind::Foo, now);
    let task2 = Task::with_current_time(TaskKind::Bar, now);
    db.add_task(&task1).expect("Unable to add task to the database");
    db.add_task(&task2).expect("Unable to add task to the database");

    let next_task = db.get_next_task_executable_at(LATER);

    assert_eq!(next_task.map(|t| t.id), Some(task2.id));
}

#[test]
fn test_queue_can_remove_task() {
    let now = BASE;
    let mut db = TaskStore::new();
    let task1 = Task::with_current_time(TaskKind::Foo, now);
    let task2 = Task::with_current_time(TaskKind::Bar, now);
    db.add_task(&task1).expect("Unable to add task to the database");
    db.add_task(&task2).expect("Unable to add task to the database");

    let tasks_before = db.get_tasks();
    assert_eq!(tasks_before.len(), 2);

    let next_task = db.get_next_task_executable_at(LATER);
    assert_eq!(next_task.map(|t| t.id), Some(task2.id));

    db.complete_task(task2.id).expect("Unable to complete task");

    let tasks_after = db.get_tasks();
    assert_eq!(tasks_after.len(), 2);

    let next_task = db.get_next_task_executable_at(LATER);
    assert_eq!(next_task.map(|t| t.id), Some(task1.id));
}

#[test]
fn claim_respects_delay() {
    // Scenario: a kind with a 3-second delay is not claimable at its creation
    // time, and claimable once the delay has elapsed.
    let t0 = BASE;
    let mut db = TaskStore::new();
    let task = Task::with_current_time(TaskKind::Foo, t0);
    assert_eq!(task.process_at, t0 + 3000);
    db.add_task(&task).unwrap();

    assert!(db.get_next_task_executable_at(t0).is_none());
    let claimed = db.get_next_task_executable_at(t0 + 3000);
    assert_eq!(claimed.map(|t| t.id), Some(task.id));
}

#[test]
fn claim_order_over_two_kinds() {
    // Scenario: with a delayed and an undelayed task created at the same
    // time, the undelayed one is claimed first; the delayed one only after
    // its delay elapses.
    let t0 = BASE;
    let mut db = TaskStore::new();
    let task1 = Task::with_current_time(TaskKind::Foo, t0);
    let task2 = Task::with_current_time(TaskKind::Bar, t0);
    db.add_task(&task1).unwrap();
    db.add_task(&task2).unwrap();

    let first = db.get_next_task_executable_at(t0);
    assert_eq!(first.map(|t| t.id), Some(task2.id));
    assert!(db.get_next_task_executable_at(t0).is_none());
    let second = db.get_next_task_executable_at(t0 + 3000);
    assert_eq!(second.map(|t| t.id), Some(task1.id));
}

#[test]
fn completed_task_leaves_the_queue() {
    // Scenario: after claiming and completing a task, it is never claimed
    // again and its stored status reads Completed.
    let t0 = BASE;
    let mut db = TaskStore::new();
    let task2 = Task::with_current_time(TaskKind::Bar, t0);
    db.add_task(&task2).unwrap();

    let claimed = db.get_next_task_executable_at(t0).unwrap();
    assert_eq!(claimed.id, task2.id);
    assert_eq!(claimed.status, TaskStatus::InProgress);

    db.complete_task(task2.id).unwrap();
    assert!(db.get_next_task_executable_at(LATER).is_none());
    let stored = db.get_task(task2.id).unwrap();
    assert_eq!(stored.status, TaskStatus::Completed);
}

#[test]
fn single_eligible_task_is_claimed_once() {
    // Scenario: against a store with exactly one eligible task, of two
    // claims one returns the task and the other returns none.
    let t0 = BASE;
    let mut db = TaskStore::new();
    let task = Task::with_current_time(TaskKind::Baz, t0);
    db.add_task(&task).unwrap();

    let first = db.get_next_task_executable_at(t0);
    let second = db.get_next_task_executable_at(t0);
    assert_eq!(first.map(|t| t.id), Some(task.id));
    assert!(second.is_none());
}

#[test]
fn duplicate_id_is_rejected() {
    let mut db = TaskStore::new();
    let task = Task::with_current_time(TaskKind::Bar, BASE);
    db.add_task(&task).unwrap();
    let copy = Task { process_at: BASE + 500, ..task };
    let err = db.add_task(&copy).unwrap_err();
    assert_eq!(err, DbError::DuplicateId(task.id));
    assert_eq!(db.get_tasks().len(), 1);
}

#[test]
fn complete_requires_in_progress() {
    let mut db = TaskStore::new();
    let task = Task::with_current_time(TaskKind::Bar, BASE);
    db.add_task(&task).unwrap();

    // Still Pending: completion is rejected and changes nothing.
    let err = db.complete_task(task.id).unwrap_err();
    assert_eq!(err, DbError::TaskNotPending(task.id, TaskStatus::InProgress));
    assert_eq!(db.get_task(task.id).unwrap().status, TaskStatus::Pending);

    // Absent id: same rejection.
    let err = db.complete_task(task.id.wrapping_add(1)).unwrap_err();
    assert!(matches!(err, DbError::TaskNotPending(_, TaskStatus::InProgress)));

    // Completed: a second completion is rejected and the status stays.
    db.get_next_task_executable_at(LATER).unwrap();
    db.complete_task(task.id).unwrap();
    let err = db.complete_task(task.id).unwrap_err();
    assert_eq!(err, DbError::TaskNotPending(task.id, TaskStatus::InProgress));
    assert_eq!(db.get_task(task.id).unwrap().status, TaskStatus::Completed);
}

#[test]
fn delete_is_idempotent() {
    let mut db = TaskStore::new();
    let task = Task::with_current_time(TaskKind::Bar, BASE);
    db.add_task(&task).unwrap();

    // Deleting an absent id succeeds and changes nothing.
    db.delete_task(task.id.wrapping_add(1));
    assert_eq!(db.get_tasks().len(), 1);

    // Deleting twice is safe.
    db.delete_task(task.id);
    assert!(db.get_task(task.id).is_none());
    db.delete_task(task.id);
    assert!(db.get_tasks().is_empty());
}

#[test]
fn lists_are_ordered_by_process_at() {
    let mut db = TaskStore::new();
    let a = Task { id: 10, kind: TaskKind::Bar, process_at: 300, status: TaskStatus::Pending };
    let b = Task { id: 11, kind: TaskKind::Bar, process_at: 100, status: TaskStatus::Pending };
    let c = Task { id: 12, kind: TaskKind::Foo, process_at: 200, status: TaskStatus::Pending };
    db.add_task(&a).unwrap();
    db.add_task(&b).unwrap();
    db.add_task(&c).unwrap();

    let all = db.get_tasks();
    let ids: Vec<u128> = all.iter().map(|t| t.id).collect();
    assert_eq!(ids, vec![11, 12, 10]);
}

#[test]
fn filtered_lists_narrow_and_stay_ordered() {
    let mut db = TaskStore::new();
    let a = Task { id: 10, kind: TaskKind::Bar, process_at: 300, status: TaskStatus::Pending };
    let b = Task { id: 11, kind: TaskKind::Bar, process_at: 100, status: TaskStatus::Pending };
    let c = Task { id: 12, kind: TaskKind::Foo, process_at: 200, status: TaskStatus::Pending };
    db.add_task(&a).unwrap();
    db.add_task(&b).unwrap();
    db.add_task(&c).unwrap();
    db.get_next_task_executable_at(150).unwrap();

    let bars = db.get_filtered_tasks(Filter::Kind(TaskKind::Bar));
    let ids: Vec<u128> = bars.iter().map(|t| t.id).collect();
    assert_eq!(ids, vec![11, 10]);

    let pending = db.get_filtered_tasks(Filter::Status(TaskStatus::Pending));
    let ids: Vec<u128> = pending.iter().map(|t| t.id).collect();
    assert_eq!(ids, vec![12, 10]);

    let in_progress = db.get_filtered_tasks(Filter::Status(TaskStatus::InProgress));
    let ids: Vec<u128> = in_progress.iter().map(|t| t.id).collect();
    assert_eq!(ids, vec![11]);
}

#[test]
fn ties_on_process_at_are_claimed_exhaustively() {
    // Tasks sharing a process_at are each claimed exactly once, whatever the
    // tie order.
    let mut db = TaskStore::new();
    let a = Task { id: 1, kind: TaskKind::Bar, process_at: 100, status: TaskStatus::Pending };
    let b = Task { id: 2, kind: TaskKind::Baz, process_at: 100, status: TaskStatus::Pending };
    db.add_task(&a).unwrap();
    db.add_task(&b).unwrap();

    let first = db.get_next_task_executable_at(100).unwrap();
    let second = db.get_next_task_executable_at(100).unwrap();
    assert_ne!(first.id, second.id);
    assert!(db.get_next_task_executable_at(100).is_none());
}
