use task_queue::poll_action;
use task_queue::Limiter;
use task_queue::PollAction;
use task_queue::Task;
use task_queue::TaskKind;
use task_queue::TaskStatus;

#[test]
fn limiter_caps_units_in_flight() {
    let mut limiter = Limiter::new(2);
    assert_eq!(limiter.available(), 2);
    assert!(limiter.try_acquire());
    assert!(limiter.try_acquire());
    assert_eq!(limiter.available(), 0);
    assert!(!limiter.try_acquire());
    limiter.release();
    assert_eq!(limiter.available(), 1);
    assert!(limiter.try_acquire());
    assert!(!limiter.try_acquire());
}

#[test]
fn poll_decision_follows_the_claim() {
    let t = Task { id: 9, kind: TaskKind::Baz, process_at: 0, status: TaskStatus::InProgress };
    assert_eq!(poll_action(Some(t)), PollAction::Execute(t));
    assert_eq!(poll_action(None), PollAction::Backoff);
}
