use task_queue::DbError;
use task_queue::ErrorCategory;
use task_queue::Task;
use task_queue::TaskKind;
use task_queue::TaskStatus;

#[test]
fn test_task_kind_process_delay() {
    assert_eq!(TaskKind::Foo.process_delay(), 3000);
    assert_eq!(TaskKind::Bar.process_delay(), 0);
    assert_eq!(TaskKind::Baz.process_delay(), 0);
}

#[test]
fn test_task_new() {
    let task = Task::new(TaskKind::Foo);
    assert_eq!(task.kind, TaskKind::Foo);
}

#[test]
fn foo_is_3_seconds_from_now() {
    let now = 1_641_129_255_000;
    let task = Task::with_current_time(TaskKind::Foo, now);
    assert_eq!(task.process_at, now + 3000);
}

#[test]
fn new_task_is_pending_with_an_id() {
    let task = Task::new(TaskKind::Baz);
    assert_eq!(task.status, TaskStatus::Pending);
    assert_ne!(task.id, 0);
}

#[test]
fn status_names_round_trip() {
    for st in [TaskStatus::Pending, TaskStatus::InProgress, TaskStatus::Completed] {
        assert_eq!(TaskStatus::from_str(st.name()).unwrap(), st);
    }
    assert_eq!(TaskStatus::Pending.name(), "Pending");
    assert_eq!(TaskStatus::InProgress.name(), "InProgress");
    assert_eq!(TaskStatus::Completed.name(), "Completed");
}

#[test]
fn unknown_status_is_rejected() {
    let err = TaskStatus::from_str("Done").unwrap_err();
    assert_eq!(err, DbError::InvalidStatus("Done".to_string()));
    assert!(TaskStatus::from_str("pending").is_err());
    assert!(TaskStatus::from_str("").is_err());
}

#[test]
fn kind_names_parse() {
    assert_eq!(TaskKind::from_str("Foo").unwrap(), TaskKind::Foo);
    assert_eq!(TaskKind::from_str("Bar").unwrap(), TaskKind::Bar);
    assert_eq!(TaskKind::from_str("Baz").unwrap(), TaskKind::Baz);
    let err = TaskKind::from_str("Qux").unwrap_err();
    assert_eq!(err, DbError::InvalidKind("Qux".to_string()));
}

#[test]
fn errors_classify_for_the_boundary() {
    assert_eq!(
        DbError::InvalidFilter("x".to_string()).category(),
        ErrorCategory::BadRequest
    );
    assert_eq!(
        DbError::InvalidStatus("x".to_string()).category(),
        ErrorCategory::BadRequest
    );
    assert_eq!(
        DbError::InvalidKind("x".to_string()).category(),
        ErrorCategory::BadRequest
    );
    assert_eq!(DbError::DuplicateId(3).category(), ErrorCategory::Internal);
    assert_eq!(
        DbError::TaskNotPending(3, TaskStatus::InProgress).category(),
        ErrorCategory::Internal
    );
}
