use vstd::prelude::*;

use crate::store::DbError;

verus! {

/// Lifecycle state of a task. Statuses only move forward:
/// `Pending`, then `InProgress`, then `Completed`.
#[derive(Clone, Copy, Debug, PartialEq, Eq, Structural)]
pub enum TaskStatus {
    Pending,
    InProgress,
    Completed,
}

/// Position of a status in the forward lifecycle order.
pub open spec fn status_rank(st: TaskStatus) -> int {
    match st {
        TaskStatus::Pending => 0,
        TaskStatus::InProgress => 1,
        TaskStatus::Completed => 2,
    }
}

/// `a` comes no later than `b` in the lifecycle order.
pub open spec fn status_le(a: TaskStatus, b: TaskStatus) -> bool {
    status_rank(a) <= status_rank(b)
}

impl TaskStatus {
    /// The display name of the status.
    pub open spec fn spec_name(self) -> Seq<char> {
        match self {
            TaskStatus::Pending => "Pending"@,
            TaskStatus::InProgress => "InProgress"@,
            TaskStatus::Completed => "Completed"@,
        }
    }

    /// Returns the display name of the status.
    pub fn name(&self) -> (r: &'static str)
        ensures
            r@ == self.spec_name(),
    {
        match self {
            TaskStatus::Pending => "Pending",
            TaskStatus::InProgress => "InProgress",
            TaskStatus::Completed => "Completed",
        }
    }

    /// What `from_str` accepts: exactly the three display names.
    pub open spec fn spec_parse(s: Seq<char>) -> Option<TaskStatus> {
        if s == "Pending"@ {
            Some(TaskStatus::Pending)
        } else if s == "InProgress"@ {
            Some(TaskStatus::InProgress)
        } else if s == "Completed"@ {
            Some(TaskStatus::Completed)
        } else {
            None
        }
    }

    /// Parses a status display name; any other string is rejected with
    /// `InvalidStatus` carrying the offending input.
    pub fn from_str(s: &str) -> (r: Result<TaskStatus, DbError>)
        ensures
            match r {
                Ok(st) => Self::spec_parse(s@) == Some(st),
                Err(e) => Self::spec_parse(s@) is None && (e matches DbError::InvalidStatus(m)
                    && m@ == s@),
            },
    {
        if str_eq(s, "Pending") {
            Ok(TaskStatus::Pending)
        } else if str_eq(s, "InProgress") {
            Ok(TaskStatus::InProgress)
        } else if str_eq(s, "Completed") {
            Ok(TaskStatus::Completed)
        } else {
            Err(DbError::InvalidStatus(s.to_owned()))
        }
    }
}

/// The closed set of task kinds.
#[derive(Clone, Copy, Debug, PartialEq, Eq, Structural)]
pub enum TaskKind {
    Foo,
    Bar,
    Baz,
}

impl TaskKind {
    /// Scheduling delay of the kind, in milliseconds.
    pub open spec fn spec_process_delay(self) -> int {
        match self {
            TaskKind::Foo => 3000,
            TaskKind::Bar => 0,
            TaskKind::Baz => 0,
        }
    }

    /// Returns the scheduling delay of the kind, in milliseconds: a task of
    /// this kind becomes eligible that long after its creation time.
    pub fn process_delay(&self) -> (r: i64)
        ensures
            r == self.spec_process_delay(),
    {
        match self {
            TaskKind::Foo => 3000,
            _ => 0,
        }
    }

    /// What `from_str` accepts: exactly the three kind names.
    pub open spec fn spec_parse(s: Seq<char>) -> Option<TaskKind> {
        if s == "Foo"@ {
            Some(TaskKind::Foo)
        } else if s == "Bar"@ {
            Some(TaskKind::Bar)
        } else if s == "Baz"@ {
            Some(TaskKind::Baz)
        } else {
            None
        }
    }

    /// Parses a kind name; any other string is rejected with `InvalidKind`
    /// carrying the offending input.
    pub fn from_str(s: &str) -> (r: Result<TaskKind, DbError>)
        ensures
            match r {
                Ok(k) => Self::spec_parse(s@) == Some(k),
                Err(e) => Self::spec_parse(s@) is None && (e matches DbError::InvalidKind(m)
                    && m@ == s@),
            },
    {
        if str_eq(s, "Foo") {
            Ok(TaskKind::Foo)
        } else if str_eq(s, "Bar") {
            Ok(TaskKind::Bar)
        } else if str_eq(s, "Baz") {
            Ok(TaskKind::Baz)
        } else {
            Err(DbError::InvalidKind(s.to_owned()))
        }
    }
}

/// A unit of schedulable work. `id` and `kind` are fixed at creation;
/// `process_at` (milliseconds since the Unix epoch) is the earliest moment the
/// task may be claimed; `status` walks the lifecycle forward only.
#[derive(Clone, Copy, Debug, PartialEq, Eq, Structural)]
pub struct Task {
    pub id: u128,
    pub kind: TaskKind,
    pub process_at: i64,
    pub status: TaskStatus,
}

impl Task {
    /// Builds a `Pending` task due at `now` plus the kind's delay, under a
    /// freshly drawn id.
    pub fn with_current_time(kind: TaskKind, now: i64) -> (r: Task)
        requires
            now + kind.spec_process_delay() <= i64::MAX,
        ensures
            r.kind == kind,
            r.status == TaskStatus::Pending,
            r.process_at == now + kind.spec_process_delay(),
    {
        let delay = kind.process_delay();
        Task { id: fresh_task_id(), kind, process_at: now + delay, status: TaskStatus::Pending }
    }

    /// Builds a `Pending` task due at the current time plus the kind's delay.
    pub fn new(kind: TaskKind) -> (r: Task)
        ensures
            r.kind == kind,
            r.status == TaskStatus::Pending,
    {
        let now = current_time_millis();
        Task::with_current_time(kind, now)
    }
}

/// Relies on `uuid::Uuid::new_v4` and `Uuid::as_u128`: the identifier is built
/// from random bytes with the version and variant bits forced on, so the
/// returned value always carries those bits (and is in particular nonzero).
/// Distinct calls may or may not collide; nothing more is assumed.
#[verifier::external_body]
fn fresh_task_id() -> (r: u128)
    ensures
        r & 0x4000_8000_0000_0000_0000u128 == 0x4000_8000_0000_0000_0000u128,
{
    uuid::Uuid::new_v4().as_u128()
}

/// Relies on `chrono::Utc::now` and `DateTime::timestamp_millis`: the clock
/// reading lies between the Unix epoch (`now` aborts on earlier readings) and
/// chrono's maximum date (year 262142), so the millisecond count is
/// nonnegative and far below `i64::MAX`.
#[verifier::external_body]
fn current_time_millis() -> (r: i64)
    ensures
        0 <= r <= 9_000_000_000_000_000i64,
{
    chrono::Utc::now().timestamp_millis()
}

/// Compares two strings by their character sequences.
pub(crate) fn str_eq(a: &str, b: &str) -> (r: bool)
    ensures
        r == (a@ == b@),
{
    let alen = a.unicode_len();
    let blen = b.unicode_len();
    if alen != blen {
        return false;
    }
    let mut i: usize = 0;
    while i < alen
        invariant
            i <= alen,
            alen == a@.len(),
            alen == b@.len(),
            forall|j: int| 0 <= j < i ==> a@[j] == b@[j],
        decreases alen - i,
    {
        if a.get_char(i) != b.get_char(i) {
            return false;
        }
        i += 1;
    }
    proof {
        assert(a@ =~= b@);
    }
    true
}

} // verus!
