use vstd::prelude::*;

use crate::store::claim_post;
use crate::store::claim_result;
use crate::store::claimed_task;
use crate::store::complete_post;
use crate::store::delete_post;
use crate::store::eligible;
use crate::store::first_eligible;
use crate::store::has_eligible;
use crate::store::has_task;
use crate::store::idx_of_id;
use crate::store::insert_pos;
use crate::store::insert_post;
use crate::store::keeps_id;
use crate::store::lemma_idx_of_id;
use crate::store::store_inv;
use crate::store::task_at;
use crate::store::unique_ids;
use crate::task::status_le;
use crate::task::Task;
use crate::task::TaskStatus;

verus! {

/// The first eligible index of a sequence with an eligible task is in range,
/// eligible, and preceded by ineligible tasks only.
pub proof fn lemma_first_eligible_props(s: Seq<Task>, now: i64)
    requires
        has_eligible(s, now),
    ensures
        0 <= first_eligible(s, now) < s.len(),
        eligible(s[first_eligible(s, now)], now),
        forall|j: int| 0 <= j < first_eligible(s, now) ==> !eligible(s[j], now),
    decreases s.len(),
{
    if !eligible(s[0], now) {
        let d = s.drop_first();
        let w = choose|i: int| 0 <= i < s.len() && eligible(s[i], now);
        assert(d[w - 1] == s[w]);
        lemma_first_eligible_props(d, now);
        assert forall|j: int| 0 <= j < first_eligible(s, now) implies !eligible(s[j], now) by {
            if j > 0 {
                assert(!eligible(d[j - 1], now));
            }
        }
    }
}

/// Ordering law: a claim returns a task only when one is eligible, and then
/// the returned task is itself due and is due no later than every other
/// eligible task.
pub proof fn lemma_claim_earliest(s: Seq<Task>, now: i64)
    requires
        store_inv(s),
    ensures
        claim_result(s, now) is None <==> !has_eligible(s, now),
        claim_result(s, now) matches Some(t) ==> t.process_at <= now && t.status
            == TaskStatus::InProgress,
        claim_result(s, now) matches Some(t) ==> forall|j: int|
            0 <= j < s.len() && eligible(s[j], now) ==> t.process_at <= s[j].process_at,
{
    if has_eligible(s, now) {
        lemma_first_eligible_props(s, now);
        let fe = first_eligible(s, now);
        let t = claimed_task(s, now);
        assert forall|j: int| 0 <= j < s.len() && eligible(s[j], now) implies t.process_at
            <= s[j].process_at by {
            if j < fe {
                assert(!eligible(s[j], now));
            }
        }
    }
}

/// A claim changes no id and no due time, moves no status backwards, and
/// keeps ids unique.
pub proof fn lemma_claim_post_frame(s: Seq<Task>, now: i64)
    ensures
        claim_post(s, now).len() == s.len(),
        forall|j: int|
            0 <= j < s.len() ==> (#[trigger] claim_post(s, now)[j]).id == s[j].id && claim_post(
                s,
                now,
            )[j].process_at == s[j].process_at && status_le(s[j].status, claim_post(s, now)[j].status),
        unique_ids(s) ==> unique_ids(claim_post(s, now)),
{
    if has_eligible(s, now) {
        lemma_first_eligible_props(s, now);
    }
    if unique_ids(s) {
        assert forall|i: int, j: int|
            0 <= i < j < claim_post(s, now).len() implies claim_post(s, now)[i].id != claim_post(
            s,
            now,
        )[j].id by {
            assert(claim_post(s, now)[i].id == s[i].id);
            assert(claim_post(s, now)[j].id == s[j].id);
        }
    }
}

/// Store contents after a run of claims, one per entry of `nows`, in order.
pub open spec fn claim_seq_state(s: Seq<Task>, nows: Seq<i64>) -> Seq<Task>
    decreases nows.len(),
{
    if nows.len() == 0 {
        s
    } else {
        claim_seq_state(claim_post(s, nows[0]), nows.drop_first())
    }
}

/// What the claim numbered `k` of such a run returns.
pub open spec fn claim_seq_result(s: Seq<Task>, nows: Seq<i64>, k: int) -> Option<Task> {
    claim_result(claim_seq_state(s, nows.take(k)), nows[k])
}

/// One more claim extends the run by one `claim_post` step.
proof fn lemma_claim_seq_snoc(s: Seq<Task>, nows: Seq<i64>, k: int)
    requires
        0 <= k < nows.len(),
    ensures
        claim_seq_state(s, nows.take(k + 1)) == claim_post(
            claim_seq_state(s, nows.take(k)),
            nows[k],
        ),
    decreases k,
{
    if k == 0 {
        assert(nows.take(0).len() == 0);
        assert(nows.take(1)[0] == nows[0]);
        assert(nows.take(1).drop_first() =~= nows.take(0));
        assert(claim_seq_state(claim_post(s, nows[0]), nows.take(0)) == claim_post(s, nows[0]));
    } else {
        let s1 = claim_post(s, nows[0]);
        let d = nows.drop_first();
        assert(nows.take(k + 1)[0] == nows[0]);
        assert(nows.take(k + 1).drop_first() =~= d.take(k));
        assert(nows.take(k).drop_first() =~= d.take(k - 1));
        assert(d[k - 1] == nows[k]);
        lemma_claim_seq_snoc(s1, d, k - 1);
        assert(claim_seq_state(s, nows.take(k + 1)) == claim_seq_state(s1, d.take(k)));
        assert(claim_seq_state(s, nows.take(k)) == claim_seq_state(s1, d.take(k - 1)));
    }
}

/// A run of claims changes no id and no due time, moves no status backwards,
/// and keeps ids unique.
proof fn lemma_claim_seq_frame(s: Seq<Task>, nows: Seq<i64>)
    ensures
        claim_seq_state(s, nows).len() == s.len(),
        forall|j: int|
            0 <= j < s.len() ==> (#[trigger] claim_seq_state(s, nows)[j]).id == s[j].id
                && status_le(s[j].status, claim_seq_state(s, nows)[j].status),
        unique_ids(s) ==> unique_ids(claim_seq_state(s, nows)),
    decreases nows.len(),
{
    if nows.len() > 0 {
        lemma_claim_post_frame(s, nows[0]);
        lemma_claim_seq_frame(claim_post(s, nows[0]), nows.drop_first());
    }
}

/// Some task of `s` carries `id` and has moved beyond `Pending`.
pub open spec fn inprogress_or_done(s: Seq<Task>, id: u128) -> bool {
    exists|i: int|
        0 <= i < s.len() && (#[trigger] s[i]).id == id && s[i].status != TaskStatus::Pending
}

/// A task beyond `Pending` stays beyond `Pending` under further claims.
proof fn lemma_claim_range_keeps_nonpending(s: Seq<Task>, nows: Seq<i64>, id: u128)
    requires
        inprogress_or_done(s, id),
    ensures
        inprogress_or_done(claim_seq_state(s, nows), id),
    decreases nows.len(),
{
    if nows.len() > 0 {
        let w = choose|i: int|
            0 <= i < s.len() && (#[trigger] s[i]).id == id && s[i].status != TaskStatus::Pending;
        lemma_claim_post_frame(s, nows[0]);
        let post = claim_post(s, nows[0]);
        assert(post[w].id == id && post[w].status != TaskStatus::Pending);
        lemma_claim_range_keeps_nonpending(post, nows.drop_first(), id);
    }
}

/// Exclusivity law: over any run of claims against one store, two distinct
/// claims that both return a task return tasks with distinct ids — no task is
/// ever handed to two claimers.
pub proof fn lemma_claims_pairwise_distinct(s: Seq<Task>, nows: Seq<i64>, a: int, b: int)
    requires
        unique_ids(s),
        0 <= a < b < nows.len(),
    ensures
        claim_seq_result(s, nows, a) is Some && claim_seq_result(s, nows, b) is Some ==> (
        claim_seq_result(s, nows, a)->Some_0).id != (claim_seq_result(s, nows, b)->Some_0).id,
{
    if claim_seq_result(s, nows, a) is Some && claim_seq_result(s, nows, b) is Some {
        let sa = claim_seq_state(s, nows.take(a));
        let sb = claim_seq_state(s, nows.take(b));
        let x = claim_seq_result(s, nows, a)->Some_0;
        let y = claim_seq_result(s, nows, b)->Some_0;
        lemma_first_eligible_props(sa, nows[a]);
        lemma_first_eligible_props(sb, nows[b]);
        let fa = first_eligible(sa, nows[a]);
        let fb = first_eligible(sb, nows[b]);
        lemma_claim_seq_snoc(s, nows, a);
        let sa1 = claim_post(sa, nows[a]);
        assert(sa1[fa].id == x.id && sa1[fa].status == TaskStatus::InProgress);
        assert(inprogress_or_done(sa1, x.id));
        assert(nows.take(b).skip(a + 1) =~= nows.subrange(a + 1, b));
        lemma_claim_seq_decompose(s, nows.take(b), a + 1);
        assert(claim_seq_state(s, nows.take(b).take(a + 1)) == claim_seq_state(
            s,
            nows.take(a + 1),
        )) by {
            assert(nows.take(b).take(a + 1) =~= nows.take(a + 1));
        }
        lemma_claim_range_keeps_nonpending(sa1, nows.subrange(a + 1, b), x.id);
        assert(inprogress_or_done(sb, x.id));
        if x.id == y.id {
            let w = choose|i: int|
                0 <= i < sb.len() && (#[trigger] sb[i]).id == x.id && sb[i].status
                    != TaskStatus::Pending;
            assert(sb[fb].status == TaskStatus::Pending && sb[fb].id == y.id);
            lemma_claim_seq_frame(s, nows.take(a));
            lemma_claim_post_frame(sa, nows[a]);
            lemma_claim_seq_frame(sa1, nows.subrange(a + 1, b));
            assert(claim_seq_state(sa1, nows.subrange(a + 1, b)) == sb);
            assert(unique_ids(sb));
            assert(w != fb);
        }
    }
}

/// A run of claims splits at any point into the run so far and the rest.
proof fn lemma_claim_seq_decompose(s: Seq<Task>, nows: Seq<i64>, k: int)
    requires
        0 <= k <= nows.len(),
    ensures
        claim_seq_state(s, nows) == claim_seq_state(claim_seq_state(s, nows.take(k)), nows.skip(k)),
    decreases k,
{
    if k == 0 {
        assert(nows.take(0).len() == 0);
        assert(nows.skip(0) =~= nows);
    } else {
        let s1 = claim_post(s, nows[0]);
        let d = nows.drop_first();
        assert(nows.take(k).len() > 0);
        assert(nows.take(k)[0] == nows[0]);
        assert(nows.take(k).drop_first() =~= d.take(k - 1));
        assert(nows.skip(k) =~= d.skip(k - 1));
        lemma_claim_seq_decompose(s1, d, k - 1);
    }
}

/// One store operation, as it acts on the store's task sequence.
pub enum StoreOp {
    Insert(Task),
    Claim(i64),
    Complete(u128),
    Delete(u128),
}

/// The task sequence after the operation.
pub open spec fn apply_op(s: Seq<Task>, op: StoreOp) -> Seq<Task> {
    match op {
        StoreOp::Insert(t) => insert_post(s, t),
        StoreOp::Claim(now) => claim_post(s, now),
        StoreOp::Complete(id) => complete_post(s, id),
        StoreOp::Delete(id) => delete_post(s, id),
    }
}

/// The insertion position lies within the sequence.
proof fn lemma_insert_pos_bounds(s: Seq<Task>, pa: i64)
    ensures
        0 <= insert_pos(s, pa) <= s.len(),
    decreases s.len(),
{
    if s.len() > 0 && s[0].process_at <= pa {
        lemma_insert_pos_bounds(s.drop_first(), pa);
    }
}

/// Every element of a filtered sequence comes from the sequence.
proof fn lemma_filter_subset(s: Seq<Task>, pred: spec_fn(Task) -> bool)
    ensures
        forall|k: int|
            0 <= k < s.filter(pred).len() ==> exists|j: int|
                0 <= j < s.len() && #[trigger] s.filter(pred)[k] == s[j],
    decreases s.len(),
{
    reveal(Seq::filter);
    if s.len() > 0 {
        let d = s.drop_last();
        lemma_filter_subset(d, pred);
        assert forall|k: int| 0 <= k < s.filter(pred).len() implies exists|j: int|
            0 <= j < s.len() && #[trigger] s.filter(pred)[k] == s[j] by {
            if k < d.filter(pred).len() {
                let j = choose|j: int| 0 <= j < d.len() && d.filter(pred)[k] == d[j];
                assert(s.filter(pred)[k] == s[j]);
            } else {
                assert(s.filter(pred)[k] == s.last());
            }
        }
    }
}

/// Status-monotonicity law: no store operation moves a surviving task's
/// status backwards in the lifecycle order `Pending`, `InProgress`,
/// `Completed`.
pub proof fn lemma_status_monotonic(s: Seq<Task>, op: StoreOp, id: u128)
    requires
        unique_ids(s),
        has_task(s, id),
        has_task(apply_op(s, op), id),
    ensures
        status_le(task_at(s, id).status, task_at(apply_op(s, op), id).status),
{
    let post = apply_op(s, op);
    let i = idx_of_id(s, id);
    let i2 = idx_of_id(post, id);
    assert(0 <= i < s.len() && s[i].id == id);
    assert(0 <= i2 < post.len() && post[i2].id == id);
    match op {
        StoreOp::Insert(t) => {
            if !has_task(s, t.id) {
                lemma_insert_pos_bounds(s, t.process_at);
                let p = insert_pos(s, t.process_at);
                if i2 != p {
                    let orig = if i2 < p {
                        i2
                    } else {
                        i2 - 1
                    };
                    assert(post[i2] == s[orig]);
                    lemma_idx_of_id(s, id, orig);
                }
            }
        },
        StoreOp::Claim(now) => {
            lemma_claim_post_frame(s, now);
            assert(post[i2].id == s[i2].id);
            lemma_idx_of_id(s, id, i2);
        },
        StoreOp::Complete(cid) => {
            if crate::store::can_complete(s, cid) {
                let ci = idx_of_id(s, cid);
                assert(post[i2].id == s[i2].id);
                lemma_idx_of_id(s, id, i2);
            }
        },
        StoreOp::Delete(did) => {
            lemma_filter_subset(s, keeps_id(did));
            let j = choose|j: int| 0 <= j < s.len() && post[i2] == s[j];
            lemma_idx_of_id(s, id, j);
        },
    }
}

/// Filtering keeps ids unique.
proof fn lemma_filter_unique(s: Seq<Task>, pred: spec_fn(Task) -> bool)
    requires
        unique_ids(s),
    ensures
        unique_ids(s.filter(pred)),
    decreases s.len(),
{
    reveal(Seq::filter);
    if s.len() > 0 {
        let d = s.drop_last();
        assert(forall|i: int| 0 <= i < d.len() ==> d[i] == s[i]);
        lemma_filter_unique(d, pred);
        lemma_filter_subset(d, pred);
        if pred(s.last()) {
            let f = s.filter(pred);
            assert(f == d.filter(pred).push(s.last()));
            assert forall|a: int, b: int| 0 <= a < b < f.len() implies f[a].id != f[b].id by {
                if b == f.len() - 1 {
                    let j = choose|j: int| 0 <= j < d.len() && d.filter(pred)[a] == d[j];
                    assert(s[j].id != s.last().id);
                }
            }
        }
    }
}

/// Every store operation keeps ids unique.
pub proof fn lemma_op_preserves_unique(s: Seq<Task>, op: StoreOp)
    requires
        unique_ids(s),
    ensures
        unique_ids(apply_op(s, op)),
{
    let post = apply_op(s, op);
    match op {
        StoreOp::Insert(t) => {
            if !has_task(s, t.id) {
                lemma_insert_pos_bounds(s, t.process_at);
                let p = insert_pos(s, t.process_at);
                assert forall|a: int, b: int| 0 <= a < b < post.len() implies post[a].id
                    != post[b].id by {
                    if a != p && b != p {
                        let a0 = if a < p {
                            a
                        } else {
                            a - 1
                        };
                        let b0 = if b < p {
                            b
                        } else {
                            b - 1
                        };
                        assert(post[a] == s[a0] && post[b] == s[b0]);
                    } else if a == p {
                        assert(post[b] == s[b - 1]);
                    } else {
                        assert(post[a] == s[a]);
                    }
                }
            }
        },
        StoreOp::Claim(now) => {
            lemma_claim_post_frame(s, now);
        },
        StoreOp::Complete(cid) => {
            assert forall|a: int, b: int| 0 <= a < b < post.len() implies post[a].id
                != post[b].id by {
                assert(post[a].id == s[a].id && post[b].id == s[b].id);
            }
        },
        StoreOp::Delete(did) => {
            lemma_filter_unique(s, keeps_id(did));
        },
    }
}

/// Store contents after a run of operations, applied in order.
pub open spec fn apply_ops(s: Seq<Task>, ops: Seq<StoreOp>) -> Seq<Task>
    decreases ops.len(),
{
    if ops.len() == 0 {
        s
    } else {
        apply_ops(apply_op(s, ops[0]), ops.drop_first())
    }
}

/// Status-monotonicity law over whole histories: across any run of store
/// operations during which a task stays stored, the statuses it shows over
/// time follow the lifecycle order — never backwards.
pub proof fn lemma_status_monotonic_run(s: Seq<Task>, ops: Seq<StoreOp>, id: u128)
    requires
        unique_ids(s),
        forall|k: int| 0 <= k <= ops.len() ==> has_task(apply_ops(s, #[trigger] ops.take(k)), id),
    ensures
        status_le(task_at(s, id).status, task_at(apply_ops(s, ops), id).status),
    decreases ops.len(),
{
    assert(ops.take(0) =~= Seq::<StoreOp>::empty());
    if ops.len() == 0 {
        assert(apply_ops(s, ops) == s);
    } else {
        let s1 = apply_op(s, ops[0]);
        let d = ops.drop_first();
        assert(ops.take(1)[0] == ops[0]);
        assert(ops.take(1).drop_first() =~= ops.take(0));
        assert(apply_ops(s, ops.take(1)) == apply_ops(s1, ops.take(0)));
        assert(has_task(s1, id));
        lemma_status_monotonic(s, ops[0], id);
        lemma_op_preserves_unique(s, ops[0]);
        assert forall|k: int| 0 <= k <= d.len() implies has_task(
            apply_ops(s1, #[trigger] d.take(k)),
            id,
        ) by {
            assert(ops.take(k + 1)[0] == ops[0]);
            assert(ops.take(k + 1).drop_first() =~= d.take(k));
            assert(apply_ops(s, ops.take(k + 1)) == apply_ops(s1, d.take(k)));
            assert(has_task(apply_ops(s, ops.take(k + 1)), id));
        }
        lemma_status_monotonic_run(s1, d, id);
        assert(apply_ops(s, ops) == apply_ops(s1, d));
    }
}

/// Every element of a sequence that satisfies the predicate throughout is
/// kept whole by filtering.
proof fn lemma_filter_all(s: Seq<Task>, pred: spec_fn(Task) -> bool)
    requires
        forall|k: int| 0 <= k < s.len() ==> pred(#[trigger] s[k]),
    ensures
        s.filter(pred) == s,
    decreases s.len(),
{
    reveal(Seq::filter);
    if s.len() > 0 {
        let d = s.drop_last();
        assert(forall|k: int| 0 <= k < d.len() ==> pred(#[trigger] d[k]) && d[k] == s[k]);
        lemma_filter_all(d, pred);
        assert(s.filter(pred) =~= s);
    }
}

/// Idempotent-delete law: deleting an id twice leaves exactly what deleting
/// it once leaves, and deleting an absent id changes nothing at all.
pub proof fn lemma_delete_idempotent(s: Seq<Task>, id: u128)
    ensures
        delete_post(delete_post(s, id), id) == delete_post(s, id),
        !has_task(s, id) ==> delete_post(s, id) == s,
{
    let once = delete_post(s, id);
    assert forall|k: int| 0 <= k < once.len() implies keeps_id(id)(#[trigger] once[k]) by {
        Seq::lemma_filter_pred(s, keeps_id(id), k);
    }
    lemma_filter_all(once, keeps_id(id));
    if !has_task(s, id) {
        assert forall|k: int| 0 <= k < s.len() implies keeps_id(id)(#[trigger] s[k]) by {
            assert(0 <= k < s.len() && s[k].id == s[k].id);
            if s[k].id == id {
                assert(has_task(s, id));
            }
        }
        lemma_filter_all(s, keeps_id(id));
    }
}

} // verus!
