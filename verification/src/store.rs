use vstd::prelude::*;

use crate::filter::Filter;
use crate::task::Task;
use crate::task::TaskStatus;

verus! {

/// Errors surfaced by the store and by the string parsers at its boundary.
#[derive(Debug, Clone, PartialEq)]
pub enum DbError {
    /// A task with the same id is already stored.
    DuplicateId(u128),
    /// The task is not in the status the operation expects; the second field
    /// names the expected status.
    TaskNotPending(u128, TaskStatus),
    /// The string is not of the form `status:<name>` or `kind:<name>`.
    InvalidFilter(String),
    /// The string names no task status.
    InvalidStatus(String),
    /// The string names no task kind.
    InvalidKind(String),
}

/// User-facing category of an error, as the HTTP boundary reports it.
#[derive(Clone, Copy, Debug, PartialEq, Eq, Structural)]
pub enum ErrorCategory {
    /// The request itself was malformed: reported as a client error.
    BadRequest,
    /// The store failed or an integrity expectation broke: reported as an
    /// internal failure.
    Internal,
}

impl DbError {
    /// The category of the error: validation failures are the caller's
    /// fault, everything else an internal failure.
    pub open spec fn spec_category(&self) -> ErrorCategory {
        match self {
            DbError::InvalidFilter(_) => ErrorCategory::BadRequest,
            DbError::InvalidStatus(_) => ErrorCategory::BadRequest,
            DbError::InvalidKind(_) => ErrorCategory::BadRequest,
            DbError::DuplicateId(_) => ErrorCategory::Internal,
            DbError::TaskNotPending(_, _) => ErrorCategory::Internal,
        }
    }

    /// Classifies the error for the boundary that reports it.
    pub fn category(&self) -> (r: ErrorCategory)
        ensures
            r == self.spec_category(),
    {
        match self {
            DbError::InvalidFilter(_) => ErrorCategory::BadRequest,
            DbError::InvalidStatus(_) => ErrorCategory::BadRequest,
            DbError::InvalidKind(_) => ErrorCategory::BadRequest,
            DbError::DuplicateId(_) => ErrorCategory::Internal,
            DbError::TaskNotPending(_, _) => ErrorCategory::Internal,
        }
    }
}

/// The task may be claimed at time `now`: still `Pending` and due.
pub open spec fn eligible(t: Task, now: i64) -> bool {
    t.status == TaskStatus::Pending && t.process_at <= now
}

/// The sequence is ordered by `process_at`, ascending.
pub open spec fn sorted_by_process_at(s: Seq<Task>) -> bool {
    forall|i: int, j: int| 0 <= i < j < s.len() ==> s[i].process_at <= s[j].process_at
}

/// No two tasks of the sequence share an id.
pub open spec fn unique_ids(s: Seq<Task>) -> bool {
    forall|i: int, j: int| 0 <= i < j < s.len() ==> s[i].id != s[j].id
}

/// The store's representation invariant over its task sequence.
pub open spec fn store_inv(s: Seq<Task>) -> bool {
    sorted_by_process_at(s) && unique_ids(s)
}

/// Some task of `s` carries `id`.
pub open spec fn has_task(s: Seq<Task>, id: u128) -> bool {
    exists|i: int| 0 <= i < s.len() && s[i].id == id
}

/// Index of the task carrying `id` (meaningful when `has_task` holds and ids
/// are unique).
pub open spec fn idx_of_id(s: Seq<Task>, id: u128) -> int {
    choose|i: int| 0 <= i < s.len() && s[i].id == id
}

/// The task of `s` carrying `id`.
pub open spec fn task_at(s: Seq<Task>, id: u128) -> Task {
    s[idx_of_id(s, id)]
}

/// Under unique ids, any index carrying `id` is the index of `id`.
pub proof fn lemma_idx_of_id(s: Seq<Task>, id: u128, i: int)
    requires
        unique_ids(s),
        0 <= i < s.len(),
        s[i].id == id,
    ensures
        has_task(s, id),
        idx_of_id(s, id) == i,
        task_at(s, id) == s[i],
{
    assert(0 <= i < s.len() && s[i].id == id);
    assert(0 <= idx_of_id(s, id) < s.len() && s[idx_of_id(s, id)].id == id);
}

/// Some task of `s` is eligible at `now`.
pub open spec fn has_eligible(s: Seq<Task>, now: i64) -> bool {
    exists|i: int| 0 <= i < s.len() && eligible(s[i], now)
}

/// Index of the first task of `s` eligible at `now` (meaningful when
/// `has_eligible` holds).
pub open spec fn first_eligible(s: Seq<Task>, now: i64) -> int
    decreases s.len(),
{
    if s.len() == 0 {
        0
    } else if eligible(s[0], now) {
        0
    } else {
        1 + first_eligible(s.drop_first(), now)
    }
}

/// An index that is eligible behind only ineligible ones is the first
/// eligible index.
pub proof fn lemma_first_eligible_is(s: Seq<Task>, now: i64, i: int)
    requires
        0 <= i < s.len(),
        eligible(s[i], now),
        forall|j: int| 0 <= j < i ==> !eligible(s[j], now),
    ensures
        has_eligible(s, now),
        first_eligible(s, now) == i,
    decreases s.len(),
{
    assert(0 <= i < s.len() && eligible(s[i], now));
    if i > 0 {
        let d = s.drop_first();
        assert(forall|j: int| 0 <= j < i - 1 ==> d[j] == s[j + 1] && !eligible(s[j + 1], now));
        assert(d[i - 1] == s[i]);
        lemma_first_eligible_is(d, now, i - 1);
    }
}

/// The task handed out by a claim at `now` (meaningful when `has_eligible`
/// holds): the first eligible task, moved to `InProgress`.
pub open spec fn claimed_task(s: Seq<Task>, now: i64) -> Task {
    let t = s[first_eligible(s, now)];
    Task { id: t.id, kind: t.kind, process_at: t.process_at, status: TaskStatus::InProgress }
}

/// Return value of a claim at `now`.
pub open spec fn claim_result(s: Seq<Task>, now: i64) -> Option<Task> {
    if has_eligible(s, now) {
        Some(claimed_task(s, now))
    } else {
        None
    }
}

/// Store contents after a claim at `now`.
pub open spec fn claim_post(s: Seq<Task>, now: i64) -> Seq<Task> {
    if has_eligible(s, now) {
        s.update(first_eligible(s, now), claimed_task(s, now))
    } else {
        s
    }
}

/// Completion succeeds exactly when the task exists and is `InProgress`.
pub open spec fn can_complete(s: Seq<Task>, id: u128) -> bool {
    has_task(s, id) && task_at(s, id).status == TaskStatus::InProgress
}

/// Store contents after completing `id`: the task moves to `Completed` when
/// completion succeeds, and nothing changes when it fails.
pub open spec fn complete_post(s: Seq<Task>, id: u128) -> Seq<Task> {
    if can_complete(s, id) {
        let t = task_at(s, id);
        s.update(
            idx_of_id(s, id),
            Task { id: t.id, kind: t.kind, process_at: t.process_at, status: TaskStatus::Completed },
        )
    } else {
        s
    }
}

/// Number of tasks due no later than `pa`: where a new task with that
/// `process_at` is inserted, after every task due no later than it.
pub open spec fn insert_pos(s: Seq<Task>, pa: i64) -> int
    decreases s.len(),
{
    if s.len() == 0 {
        0
    } else if s[0].process_at <= pa {
        1 + insert_pos(s.drop_first(), pa)
    } else {
        0
    }
}

/// A position whose prefix is due no later than `pa` and whose own task is
/// due after `pa` is the insertion position.
pub proof fn lemma_insert_pos_is(s: Seq<Task>, pa: i64, k: int)
    requires
        0 <= k <= s.len(),
        forall|j: int| 0 <= j < k ==> s[j].process_at <= pa,
        k < s.len() ==> s[k].process_at > pa,
    ensures
        insert_pos(s, pa) == k,
    decreases s.len(),
{
    if s.len() > 0 && k > 0 {
        let d = s.drop_first();
        assert(forall|j: int| 0 <= j < k - 1 ==> d[j] == s[j + 1] && s[j + 1].process_at <= pa);
        assert(k - 1 < d.len() ==> d[k - 1] == s[k]);
        lemma_insert_pos_is(d, pa, k - 1);
    }
}

/// Store contents after inserting `t`: unchanged when the id is taken, else
/// `t` stands after every task due no later than it.
pub open spec fn insert_post(s: Seq<Task>, t: Task) -> Seq<Task> {
    if has_task(s, t.id) {
        s
    } else {
        s.insert(insert_pos(s, t.process_at), t)
    }
}

/// The tasks kept by deleting `id`.
pub open spec fn keeps_id(id: u128) -> spec_fn(Task) -> bool {
    |t: Task| t.id != id
}

/// Store contents after deleting `id`: every task but the one carrying `id`.
pub open spec fn delete_post(s: Seq<Task>, id: u128) -> Seq<Task> {
    s.filter(keeps_id(id))
}

/// The tasks kept by listing under `f`.
pub open spec fn matches_filter(f: Filter) -> spec_fn(Task) -> bool {
    |t: Task| f.spec_matches(t)
}

/// `t` is one of the first `n` tasks of `s`.
pub open spec fn from_prefix(s: Seq<Task>, n: int, t: Task) -> bool {
    exists|j: int| 0 <= j < n && t == #[trigger] s[j]
}

/// Appending an element to a sequence extends its filtered image exactly when
/// the element passes the predicate.
proof fn lemma_filter_push(s: Seq<Task>, pred: spec_fn(Task) -> bool, x: Task)
    ensures
        s.push(x).filter(pred) == if pred(x) {
            s.filter(pred).push(x)
        } else {
            s.filter(pred)
        },
{
    reveal(Seq::filter);
    assert(s.push(x).drop_last() =~= s);
    assert(s.push(x).last() == x);
}

/// The single source of truth for tasks: holds them ordered by `process_at`
/// under unique ids, and is the only mutator of their statuses.
pub struct TaskStore {
    tasks: Vec<Task>,
}

impl View for TaskStore {
    type V = Seq<Task>;

    closed spec fn view(&self) -> Seq<Task> {
        self.tasks@
    }
}

impl TaskStore {
    /// The store's invariant: tasks ordered by due time, ids unique.
    pub open spec fn wf(&self) -> bool {
        store_inv(self@)
    }

    /// An empty store.
    pub fn new() -> (r: TaskStore)
        ensures
            r.wf(),
            r@ == Seq::<Task>::empty(),
    {
        TaskStore { tasks: Vec::new() }
    }

    /// Persists a new task; rejects an id already stored.
    #[verifier::loop_isolation(false)]
    pub fn add_task(&mut self, task: &Task) -> (r: Result<(), DbError>)
        requires
            old(self).wf(),
        ensures
            final(self).wf(),
            final(self)@ == insert_post(old(self)@, *task),
            has_task(old(self)@, task.id) ==> (r matches Err(e) && e == DbError::DuplicateId(
                task.id,
            )) && final(self)@ == old(self)@,
            !has_task(old(self)@, task.id) ==> r is Ok,
    {
        let ghost s = self.tasks@;
        let n = self.tasks.len();
        let mut i: usize = 0;
        while i < n
            invariant
                i <= n,
                n == s.len(),
                self.tasks@ == s,
                forall|j: int| 0 <= j < i ==> s[j].id != task.id,
            decreases n - i,
        {
            if self.tasks[i].id == task.id {
                proof {
                    lemma_idx_of_id(s, task.id, i as int);
                }
                return Err(DbError::DuplicateId(task.id));
            }
            i += 1;
        }
        proof {
            assert(!has_task(s, task.id));
        }
        let mut k: usize = 0;
        while k < n && self.tasks[k].process_at <= task.process_at
            invariant
                k <= n,
                forall|j: int| 0 <= j < k ==> s[j].process_at <= task.process_at,
            decreases n - k,
        {
            k += 1;
        }
        proof {
            lemma_insert_pos_is(s, task.process_at, k as int);
        }
        self.tasks.insert(k, *task);
        proof {
            let post = s.insert(k as int, *task);
            assert forall|a: int, b: int| 0 <= a < b < post.len() implies post[a].process_at
                <= post[b].process_at by {
                assert(store_inv(s));
            }
            assert forall|a: int, b: int| 0 <= a < b < post.len() implies post[a].id != post[b].id by {
                if a != k && b != k {
                    let a0 = if a < k { a } else { a - 1 };
                    let b0 = if b < k { b } else { b - 1 };
                    assert(post[a] == s[a0] && post[b] == s[b0]);
                } else if a == k {
                    assert(post[b] == s[b - 1]);
                } else {
                    assert(post[a] == s[a]);
                }
            }
        }
        Ok(())
    }

    /// Atomically claims the next eligible task as of `now`: the `Pending`
    /// task with the smallest `process_at <= now` moves to `InProgress` and is
    /// returned; returns `None`, changing nothing, when no task is eligible.
    #[verifier::loop_isolation(false)]
    pub fn get_next_task_executable_at(&mut self, now: i64) -> (r: Option<Task>)
        requires
            old(self).wf(),
        ensures
            final(self).wf(),
            final(self)@ == claim_post(old(self)@, now),
            r == claim_result(old(self)@, now),
            r is None <==> !has_eligible(old(self)@, now),
            r is None ==> final(self)@ == old(self)@,
            r matches Some(t) ==> t.status == TaskStatus::InProgress && t.process_at <= now,
            r matches Some(t) ==> has_task(old(self)@, t.id) && task_at(old(self)@, t.id).status
                == TaskStatus::Pending && task_at(old(self)@, t.id).process_at == t.process_at,
            r matches Some(t) ==> forall|j: int|
                0 <= j < old(self)@.len() && eligible(old(self)@[j], now) ==> t.process_at <= old(
                    self,
                )@[j].process_at,
            r matches Some(t) ==> final(self)@ == old(self)@.update(idx_of_id(old(self)@, t.id), t),
    {
        let ghost s = self.tasks@;
        let n = self.tasks.len();
        let mut i: usize = 0;
        while i < n
            invariant
                i <= n,
                n == s.len(),
                self.tasks@ == s,
                store_inv(s),
                forall|j: int| 0 <= j < i ==> !eligible(s[j], now),
            decreases n - i,
        {
            let t = self.tasks[i];
            if t.status == TaskStatus::Pending && t.process_at <= now {
                proof {
                    lemma_first_eligible_is(s, now, i as int);
                    lemma_idx_of_id(s, t.id, i as int);
                }
                let mut claimed = self.tasks.remove(i);
                claimed.status = TaskStatus::InProgress;
                self.tasks.insert(i, claimed);
                proof {
                    assert(self.tasks@ =~= s.update(i as int, claimed));
                    lemma_idx_of_id(s, claimed.id, i as int);
                    assert forall|a: int, b: int|
                        0 <= a < b < self.tasks@.len() implies self.tasks@[a].process_at
                        <= self.tasks@[b].process_at by {
                        assert(self.tasks@[a].process_at == s[a].process_at);
                        assert(self.tasks@[b].process_at == s[b].process_at);
                    }
                    assert forall|a: int, b: int|
                        0 <= a < b < self.tasks@.len() implies self.tasks@[a].id != self.tasks@[b].id by {
                        assert(self.tasks@[a].id == s[a].id);
                        assert(self.tasks@[b].id == s[b].id);
                    }
                }
                return Some(claimed);
            }
            i += 1;
        }
        proof {
            assert(!has_eligible(s, now));
        }
        None
    }

    /// Moves the task carrying `id` from `InProgress` to `Completed`; any
    /// task not currently `InProgress` (or absent) is rejected, changing
    /// nothing.
    #[verifier::loop_isolation(false)]
    pub fn complete_task(&mut self, id: u128) -> (r: Result<(), DbError>)
        requires
            old(self).wf(),
        ensures
            final(self).wf(),
            final(self)@ == complete_post(old(self)@, id),
            can_complete(old(self)@, id) ==> r is Ok,
            !can_complete(old(self)@, id) ==> r == Result::<(), DbError>::Err(
                DbError::TaskNotPending(id, TaskStatus::InProgress),
            ) && final(self)@ == old(self)@,
    {
        let ghost s = self.tasks@;
        let n = self.tasks.len();
        let mut i: usize = 0;
        while i < n
            invariant
                i <= n,
                n == s.len(),
                self.tasks@ == s,
                store_inv(s),
                forall|j: int| 0 <= j < i ==> s[j].id != id,
            decreases n - i,
        {
            let t = self.tasks[i];
            if t.id == id {
                proof {
                    lemma_idx_of_id(s, id, i as int);
                }
                if t.status == TaskStatus::InProgress {
                    let mut done = self.tasks.remove(i);
                    done.status = TaskStatus::Completed;
                    self.tasks.insert(i, done);
                    proof {
                        assert(self.tasks@ =~= s.update(i as int, done));
                        assert forall|a: int, b: int|
                            0 <= a < b < self.tasks@.len() implies self.tasks@[a].process_at
                            <= self.tasks@[b].process_at by {
                            assert(self.tasks@[a].process_at == s[a].process_at);
                            assert(self.tasks@[b].process_at == s[b].process_at);
                        }
                        assert forall|a: int, b: int|
                            0 <= a < b < self.tasks@.len() implies self.tasks@[a].id
                            != self.tasks@[b].id by {
                            assert(self.tasks@[a].id == s[a].id);
                            assert(self.tasks@[b].id == s[b].id);
                        }
                    }
                    return Ok(());
                } else {
                    return Err(DbError::TaskNotPending(id, TaskStatus::InProgress));
                }
            }
            i += 1;
        }
        proof {
            assert(!has_task(s, id));
        }
        Err(DbError::TaskNotPending(id, TaskStatus::InProgress))
    }

    /// Looks the task carrying `id` up.
    #[verifier::loop_isolation(false)]
    pub fn get_task(&self, id: u128) -> (r: Option<Task>)
        requires
            self.wf(),
        ensures
            match r {
                Some(t) => has_task(self@, id) && t == task_at(self@, id),
                None => !has_task(self@, id),
            },
    {
        let ghost s = self.tasks@;
        let n = self.tasks.len();
        let mut i: usize = 0;
        while i < n
            invariant
                i <= n,
                n == s.len(),
                self.tasks@ == s,
                store_inv(s),
                forall|j: int| 0 <= j < i ==> s[j].id != id,
            decreases n - i,
        {
            let t = self.tasks[i];
            if t.id == id {
                proof {
                    lemma_idx_of_id(s, id, i as int);
                }
                return Some(t);
            }
            i += 1;
        }
        None
    }

    /// Lists every task, ordered by `process_at` ascending.
    #[verifier::loop_isolation(false)]
    #[verifier::loop_isolation(false)]
    pub fn get_tasks(&self) -> (r: Vec<Task>)
        requires
            self.wf(),
        ensures
            r@ == self@,
            sorted_by_process_at(r@),
    {
        let n = self.tasks.len();
        let mut out: Vec<Task> = Vec::new();
        let mut i: usize = 0;
        while i < n
            invariant
                i <= n,
                n == self@.len(),
                out@ == self@.take(i as int),
                self.wf(),
            decreases n - i,
        {
            out.push(self.tasks[i]);
            proof {
                assert(out@ =~= self@.take(i + 1));
            }
            i += 1;
        }
        proof {
            assert(self@.take(n as int) =~= self@);
        }
        out
    }

    /// Lists the tasks matching `filter`, ordered by `process_at` ascending.
    #[verifier::loop_isolation(false)]
    pub fn get_filtered_tasks(&self, filter: Filter) -> (r: Vec<Task>)
        requires
            self.wf(),
        ensures
            r@ == self@.filter(matches_filter(filter)),
            sorted_by_process_at(r@),
    {
        let ghost s = self.tasks@;
        let ghost pred = matches_filter(filter);
        let n = self.tasks.len();
        let mut out: Vec<Task> = Vec::new();
        let mut i: usize = 0;
        while i < n
            invariant
                i <= n,
                n == s.len(),
                self.tasks@ == s,
                store_inv(s),
                pred == matches_filter(filter),
                out@ == s.take(i as int).filter(pred),
                forall|k: int| 0 <= k < out@.len() ==> from_prefix(s, i as int, #[trigger] out@[k]),
                sorted_by_process_at(out@),
            decreases n - i,
        {
            let t = self.tasks[i];
            proof {
                assert(s.take(i + 1) =~= s.take(i as int).push(s[i as int]));
                lemma_filter_push(s.take(i as int), pred, s[i as int]);
            }
            if filter.matches(&t) {
                let ghost prev = out@;
                out.push(t);
                proof {
                    assert forall|k: int|
                        0 <= k < out@.len() implies from_prefix(s, i + 1, #[trigger] out@[k]) by {
                        if k < prev.len() {
                            assert(from_prefix(s, i as int, prev[k]));
                            let j = choose|j: int| 0 <= j < i && prev[k] == #[trigger] s[j];
                            assert(0 <= j < i + 1 && out@[k] == s[j]);
                        } else {
                            assert(out@[k] == s[i as int]);
                        }
                    }
                    assert forall|a: int, b: int|
                        0 <= a < b < out@.len() implies out@[a].process_at <= out@[b].process_at by {
                        if b == out@.len() - 1 {
                            assert(from_prefix(s, i as int, prev[a]));
                            let j = choose|j: int| 0 <= j < i && prev[a] == #[trigger] s[j];
                            assert(s[j].process_at <= s[i as int].process_at);
                        }
                    }
                }
            }
            i += 1;
        }
        proof {
            assert(s.take(n as int) =~= s);
        }
        out
    }

    /// Removes the task carrying `id`, whatever its status; removing an
    /// absent id changes nothing and still succeeds.
    #[verifier::loop_isolation(false)]
    pub fn delete_task(&mut self, id: u128)
        requires
            old(self).wf(),
        ensures
            final(self).wf(),
            final(self)@ == delete_post(old(self)@, id),
            !has_task(final(self)@, id),
    {
        let ghost s = self.tasks@;
        let ghost pred = keeps_id(id);
        let n = self.tasks.len();
        let mut out: Vec<Task> = Vec::new();
        let mut i: usize = 0;
        while i < n
            invariant
                i <= n,
                n == s.len(),
                self.tasks@ == s,
                store_inv(s),
                pred == keeps_id(id),
                out@ == s.take(i as int).filter(pred),
                forall|k: int| 0 <= k < out@.len() ==> from_prefix(s, i as int, #[trigger] out@[k]),
                sorted_by_process_at(out@),
                unique_ids(out@),
                forall|k: int| 0 <= k < out@.len() ==> out@[k].id != id,
            decreases n - i,
        {
            let t = self.tasks[i];
            proof {
                assert(s.take(i + 1) =~= s.take(i as int).push(s[i as int]));
                lemma_filter_push(s.take(i as int), pred, s[i as int]);
            }
            if t.id != id {
                let ghost prev = out@;
                out.push(t);
                proof {
                    assert forall|k: int|
                        0 <= k < out@.len() implies from_prefix(s, i + 1, #[trigger] out@[k]) by {
                        if k < prev.len() {
                            assert(from_prefix(s, i as int, prev[k]));
                            let j = choose|j: int| 0 <= j < i && prev[k] == #[trigger] s[j];
                            assert(0 <= j < i + 1 && out@[k] == s[j]);
                        } else {
                            assert(out@[k] == s[i as int]);
                        }
                    }
                    assert forall|a: int, b: int|
                        0 <= a < b < out@.len() implies out@[a].process_at <= out@[b].process_at by {
                        if b == out@.len() - 1 {
                            assert(from_prefix(s, i as int, prev[a]));
                            let j = choose|j: int| 0 <= j < i && prev[a] == #[trigger] s[j];
                            assert(s[j].process_at <= s[i as int].process_at);
                        }
                    }
                    assert forall|a: int, b: int|
                        0 <= a < b < out@.len() implies out@[a].id != out@[b].id by {
                        if b == out@.len() - 1 {
                            assert(from_prefix(s, i as int, prev[a]));
                            let j = choose|j: int| 0 <= j < i && prev[a] == #[trigger] s[j];
                            assert(s[j].id != s[i as int].id);
                        }
                    }
                }
            }
            i += 1;
        }
        proof {
            assert(s.take(n as int) =~= s);
        }
        self.tasks = out;
        proof {
            if has_task(self@, id) {
                let w = choose|w: int| 0 <= w < self@.len() && self@[w].id == id;
                assert(self@[w].id != id);
            }
        }
    }
}

} // verus!
