use task_queue::DbError;
use task_queue::Filter;
use task_queue::Task;
use task_queue::TaskKind;
use task_queue::TaskStatus;

#[test]
fn parses_status_and_kind_filters() {
    assert_eq!(
        Filter::from_str("status:Pending").unwrap(),
        Filter::Status(TaskStatus::Pending)
    );
    assert_eq!(
        Filter::from_str("status:InProgress").unwrap(),
        Filter::Status(TaskStatus::InProgress)
    );
    assert_eq!(
        Filter::from_str("status:Completed").unwrap(),
        Filter::Status(TaskStatus::Completed)
    );
    assert_eq!(Filter::from_str("kind:Foo").unwrap(), Filter::Kind(TaskKind::Foo));
    assert_eq!(Filter::from_str("kind:Bar").unwrap(), Filter::Kind(TaskKind::Bar));
    assert_eq!(Filter::from_str("kind:Baz").unwrap(), Filter::Kind(TaskKind::Baz));
}

#[test]
fn malformed_filters_are_rejected_whole() {
    assert_eq!(
        Filter::from_str("nonsense").unwrap_err(),
        DbError::InvalidFilter("nonsense".to_string())
    );
    assert_eq!(Filter::from_str("").unwrap_err(), DbError::InvalidFilter("".to_string()));
    assert_eq!(
        Filter::from_str("status:a:b").unwrap_err(),
        DbError::InvalidFilter("status:a:b".to_string())
    );
    assert_eq!(
        Filter::from_str("owner:Foo").unwrap_err(),
        DbError::InvalidFilter("owner:Foo".to_string())
    );
}

#[test]
fn bad_filter_values_name_the_part() {
    assert_eq!(
        Filter::from_str("status:Nope").unwrap_err(),
        DbError::InvalidStatus("Nope".to_string())
    );
    assert_eq!(
        Filter::from_str("status:").unwrap_err(),
        DbError::InvalidStatus("".to_string())
    );
    assert_eq!(
        Filter::from_str("kind:Nope").unwrap_err(),
        DbError::InvalidKind("Nope".to_string())
    );
}

#[test]
fn filters_match_the_named_field() {
    let t = Task { id: 5, kind: TaskKind::Foo, process_at: 0, status: TaskStatus::Pending };
    assert!(Filter::Status(TaskStatus::Pending).matches(&t));
    assert!(!Filter::Status(TaskStatus::Completed).matches(&t));
    assert!(Filter::Kind(TaskKind::Foo).matches(&t));
    assert!(!Filter::Kind(TaskKind::Bar).matches(&t));
}
