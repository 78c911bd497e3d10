//! What collecting results does to the job table, seen as a map from job id
//! to job, and why the outcome does not depend on the order in which the
//! results arrive.

use vstd::prelude::*;
use crate::models::{JobConfig, JobState, JobStatus, TaskResult, count_received, lemma_count_received_fill};
use crate::hub::{AppState, Collected, has_job, job_pos, result_fits, result_recorded};

verus! {

/// A job as the collector sees it.
pub struct JobView {
    pub config: JobConfig,
    pub status: JobStatus,
    pub chunks_total: nat,
    pub chunks_done: nat,
    pub results: Seq<Option<TaskResult>>,
}

/// The collector's view of one job.
pub open spec fn job_view(s: JobState) -> JobView {
    JobView {
        config: s.config,
        status: s.status,
        chunks_total: s.chunks_total as nat,
        chunks_done: s.chunks_done as nat,
        results: s.results@,
    }
}

/// The job table as a map from job id to job.
pub open spec fn table_view(t: Seq<(String, JobState)>) -> Map<Seq<char>, JobView> {
    Map::new(|id: Seq<char>| has_job(t, id), |id: Seq<char>| job_view(t[job_pos(t, id)].1))
}

/// What a result does to its job: a chunk that has not arrived yet is
/// stored and counted, and the job is running with the new count unless
/// that count completes it; anything else changes nothing.
pub open spec fn apply_result(v: JobView, r: TaskResult) -> JobView {
    let t = r.task_id as int;
    if t >= v.results.len() || v.results[t] is Some {
        v
    } else {
        let done = v.chunks_done + 1;
        JobView {
            config: v.config,
            status: if done == v.chunks_total {
                v.status
            } else {
                JobStatus::Running { chunks_done: done as usize, chunks_total: v.chunks_total as usize }
            },
            chunks_total: v.chunks_total,
            chunks_done: done,
            results: v.results.update(t, Some(r)),
        }
    }
}

/// What a result does to the table: it goes to the job it names, if any.
pub open spec fn collect(m: Map<Seq<char>, JobView>, r: TaskResult) -> Map<Seq<char>, JobView> {
    if m.contains_key(r.job_id@) {
        m.insert(r.job_id@, apply_result(m[r.job_id@], r))
    } else {
        m
    }
}

/// The table after the results `rs` arrived, in order.
pub open spec fn collect_all(m: Map<Seq<char>, JobView>, rs: Seq<TaskResult>) -> Map<Seq<char>, JobView>
    decreases rs.len(),
{
    if rs.len() == 0 {
        m
    } else {
        collect(collect_all(m, rs.drop_last()), rs.last())
    }
}

/// No two results of `rs` are for the same chunk of the same job.
pub open spec fn chunks_distinct(rs: Seq<TaskResult>) -> bool {
    forall|a: int, b: int|
        0 <= a < rs.len() && 0 <= b < rs.len() && a != b && (#[trigger] rs[a]).job_id@ == (
        #[trigger] rs[b]).job_id@ ==> rs[a].task_id != rs[b].task_id
}

/// `rs` holds a result for chunk `t` of job `id`.
pub open spec fn has_chunk(rs: Seq<TaskResult>, id: Seq<char>, t: int) -> bool {
    exists|k: int| 0 <= k < rs.len() && (#[trigger] rs[k]).job_id@ == id && rs[k].task_id == t
}

/// The result of `rs` for chunk `t` of job `id`.
pub open spec fn chunk_of(rs: Seq<TaskResult>, id: Seq<char>, t: int) -> TaskResult {
    rs[choose|k: int| 0 <= k < rs.len() && (#[trigger] rs[k]).job_id@ == id && rs[k].task_id == t]
}

/// The slots of job `id` once the results `rs` arrived, in whatever order.
pub open spec fn slots_after(v: JobView, id: Seq<char>, rs: Seq<TaskResult>) -> Seq<Option<TaskResult>> {
    Seq::new(
        v.results.len(),
        |t: int|
            if v.results[t] is Some {
                v.results[t]
            } else if has_chunk(rs, id, t) {
                Some(chunk_of(rs, id, t))
            } else {
                None
            },
    )
}

/// Job `id` once the results `rs` arrived, in whatever order: the slots
/// above, the done count raised by the number of chunks they added, and the
/// status that the last of those chunks left.
pub open spec fn job_after(v: JobView, id: Seq<char>, rs: Seq<TaskResult>) -> JobView {
    let slots = slots_after(v, id, rs);
    let k = count_received(slots) - count_received(v.results);
    let done = (v.chunks_done + k) as nat;
    JobView {
        config: v.config,
        status: if k == 0 {
            v.status
        } else if done == v.chunks_total {
            if k >= 2 {
                JobStatus::Running {
                    chunks_done: (v.chunks_total - 1) as usize,
                    chunks_total: v.chunks_total as usize,
                }
            } else {
                v.status
            }
        } else {
            JobStatus::Running { chunks_done: done as usize, chunks_total: v.chunks_total as usize }
        },
        chunks_total: v.chunks_total,
        chunks_done: done,
        results: slots,
    }
}

/// The table once the results `rs` arrived, in whatever order.
pub open spec fn table_after(m: Map<Seq<char>, JobView>, rs: Seq<TaskResult>) -> Map<Seq<char>, JobView> {
    Map::new(|id: Seq<char>| m.contains_key(id), |id: Seq<char>| job_after(m[id], id, rs))
}

/// Recording a result does to the table what `collect` says.
pub proof fn lemma_record_result_collects(old: AppState, new: AppState, r: TaskResult, c: Collected)
    requires
        old.wf(),
        new.wf(),
        result_fits(old.jobs(), r),
        result_recorded(old, new, r, c),
    ensures
        table_view(new.jobs()) == collect(table_view(old.jobs()), r),
{
    let m0 = table_view(old.jobs());
    let m1 = table_view(new.jobs());
    let id = r.job_id@;
    let p = job_pos(old.jobs(), id);
    if has_job(old.jobs(), id) {
        assert(old.jobs()[p].0@ == id);
    }
    let changed = has_job(old.jobs(), id) && old.jobs()[p].1.results@[r.task_id as int] is None;
    if !changed {
        assert(new.jobs() == old.jobs());
        if has_job(old.jobs(), id) {
            assert(old.jobs()[p].1.wf(old.jobs()[p].0@));
            assert(apply_result(m0[id], r) == m0[id]);
        }
        assert(m1 =~= collect(m0, r));
    } else {
        assert forall|x: Seq<char>| #[trigger] has_job(old.jobs(), x) == has_job(new.jobs(), x) by {
            if has_job(old.jobs(), x) {
                let q = job_pos(old.jobs(), x);
                assert(old.jobs()[q].0@ == x);
                assert(new.jobs()[q].0@ == x);
            }
            if has_job(new.jobs(), x) {
                let q = job_pos(new.jobs(), x);
                assert(new.jobs()[q].0@ == x);
                assert(old.jobs()[q].0@ == x);
            }
        }
        assert forall|x: Seq<char>| has_job(old.jobs(), x) implies #[trigger] m1[x] == collect(m0, r)[x] by {
            let q = job_pos(old.jobs(), x);
            assert(old.jobs()[q].0@ == x);
            assert(new.jobs()[q].0@ == x);
            assert(has_job(new.jobs(), x));
            let q1 = job_pos(new.jobs(), x);
            assert(new.jobs()[q1].0@ == x);
            assert(q1 == q);
            if x == id {
                assert(q == p);
                assert(old.jobs()[p].1.wf(old.jobs()[p].0@));
                assert(job_view(new.jobs()[p].1) =~= apply_result(m0[id], r));
            } else {
                assert(q != p);
            }
        }
        assert(m1 =~= collect(m0, r));
    }
}

/// With distinct chunks, a result present in `rs` is the result that
/// `chunk_of` picks for its chunk.
proof fn lemma_chunk_of_unique(rs: Seq<TaskResult>, k: int)
    requires
        chunks_distinct(rs),
        0 <= k < rs.len(),
    ensures
        has_chunk(rs, rs[k].job_id@, rs[k].task_id as int),
        chunk_of(rs, rs[k].job_id@, rs[k].task_id as int) == rs[k],
{
    let id = rs[k].job_id@;
    let t = rs[k].task_id as int;
    assert(has_chunk(rs, id, t));
    let c = choose|j: int| 0 <= j < rs.len() && (#[trigger] rs[j]).job_id@ == id && rs[j].task_id == t;
    assert(0 <= c < rs.len() && rs[c].job_id@ == id && rs[c].task_id == t);
    if c != k {
        assert(rs[c].task_id != rs[k].task_id);
    }
}

/// Adding one result `r` to `pre` leaves every other chunk's entry as it was.
proof fn lemma_chunks_after_push(pre: Seq<TaskResult>, r: TaskResult, id: Seq<char>, t: int)
    requires
        chunks_distinct(pre.push(r)),
        !(id == r.job_id@ && t == r.task_id),
    ensures
        has_chunk(pre.push(r), id, t) == has_chunk(pre, id, t),
        has_chunk(pre, id, t) ==> chunk_of(pre.push(r), id, t) == chunk_of(pre, id, t),
{
    let rs = pre.push(r);
    if has_chunk(rs, id, t) {
        let k = choose|j: int| 0 <= j < rs.len() && (#[trigger] rs[j]).job_id@ == id && rs[j].task_id == t;
        assert(k < pre.len());
        assert(pre[k] == rs[k]);
        assert(has_chunk(pre, id, t));
    }
    if has_chunk(pre, id, t) {
        let k = choose|j: int| 0 <= j < pre.len() && (#[trigger] pre[j]).job_id@ == id && pre[j].task_id == t;
        assert(rs[k] == pre[k]);
        assert(has_chunk(rs, id, t));
        lemma_chunk_of_unique(rs, k);
        assert forall|a: int, b: int|
            0 <= a < pre.len() && 0 <= b < pre.len() && a != b && (#[trigger] pre[a]).job_id@ == (
            #[trigger] pre[b]).job_id@ implies pre[a].task_id != pre[b].task_id by {
            assert(rs[a] == pre[a] && rs[b] == pre[b]);
        }
        lemma_chunk_of_unique(pre, k);
    }
}

/// Filling slots never lowers the count.
proof fn lemma_count_received_grows(a: Seq<Option<TaskResult>>, b: Seq<Option<TaskResult>>)
    requires
        a.len() == b.len(),
        forall|t: int| 0 <= t < a.len() && (#[trigger] a[t]) is Some ==> b[t] is Some,
    ensures
        count_received(a) <= count_received(b),
    decreases a.len(),
{
    if a.len() > 0 {
        assert forall|t: int| 0 <= t < a.drop_last().len() && (#[trigger] a.drop_last()[t]) is Some implies b.drop_last()[t] is Some by {
            assert(a.drop_last()[t] == a[t]);
            assert(b.drop_last()[t] == b[t]);
        }
        lemma_count_received_grows(a.drop_last(), b.drop_last());
    }
}

proof fn lemma_job_after_step(v: JobView, id: Seq<char>, pre: Seq<TaskResult>, r: TaskResult)
    requires
        chunks_distinct(pre.push(r)),
    ensures
        job_after(v, id, pre.push(r)) == if r.job_id@ == id {
            apply_result(job_after(v, id, pre), r)
        } else {
            job_after(v, id, pre)
        },
{
    let rs = pre.push(r);
    let s0 = slots_after(v, id, pre);
    let s1 = slots_after(v, id, rs);
    let t = r.task_id as int;
    assert forall|u: int| 0 <= u < v.results.len() && !(id == r.job_id@ && u == t) implies s1[u] == s0[u] by {
        lemma_chunks_after_push(pre, r, id, u);
    }
    let last = rs.len() - 1;
    assert(rs[last] == r);
    lemma_chunk_of_unique(rs, last);
    if r.job_id@ != id {
        assert(s1 =~= s0);
    } else if t >= v.results.len() || v.results[t] is Some {
        assert(s1 =~= s0);
        if t < v.results.len() {
            assert(s0[t] is Some);
        }
    } else {
        // chunk t of job id had not arrived, and `pre` holds no result for it
        assert(!has_chunk(pre, id, t)) by {
            if has_chunk(pre, id, t) {
                let k = choose|j: int| 0 <= j < pre.len() && (#[trigger] pre[j]).job_id@ == id && pre[j].task_id == t;
                assert(rs[k] == pre[k]);
                assert(k != last);
            }
        }
        assert(s0[t] is None);
        assert(s1 =~= s0.update(t, Some(r)));
        lemma_count_received_fill(s0, t, r);
        lemma_count_received_grows(v.results, s0);
        let k0 = count_received(s0) - count_received(v.results);
        let k1 = count_received(s1) - count_received(v.results);
        assert(k1 == k0 + 1);
        assert(k0 >= 0);
        let u = job_after(v, id, pre);
        assert(u.chunks_done == v.chunks_done + k0);
        assert(job_after(v, id, rs).chunks_done == u.chunks_done + 1);
        assert(job_after(v, id, rs) =~= apply_result(u, r));
    }
}

/// Collecting results one by one gives the table described by
/// `table_after`, whatever their order.
pub proof fn lemma_collect_all_closed_form(m: Map<Seq<char>, JobView>, rs: Seq<TaskResult>)
    requires
        chunks_distinct(rs),
    ensures
        collect_all(m, rs) == table_after(m, rs),
    decreases rs.len(),
{
    if rs.len() == 0 {
        assert forall|id: Seq<char>| #[trigger] m.contains_key(id) implies job_after(m[id], id, rs) == m[id] by {
            assert(slots_after(m[id], id, rs) =~= m[id].results);
        }
        assert(collect_all(m, rs) =~= table_after(m, rs));
    } else {
        let pre = rs.drop_last();
        let r = rs.last();
        assert(pre.push(r) =~= rs);
        assert forall|a: int, b: int|
            0 <= a < pre.len() && 0 <= b < pre.len() && a != b && (#[trigger] pre[a]).job_id@ == (
            #[trigger] pre[b]).job_id@ implies pre[a].task_id != pre[b].task_id by {
            assert(rs[a] == pre[a] && rs[b] == pre[b]);
        }
        lemma_collect_all_closed_form(m, pre);
        assert forall|id: Seq<char>| #[trigger] m.contains_key(id) implies collect(table_after(m, pre), r)[id]
            == job_after(m[id], id, rs) by {
            lemma_job_after_step(m[id], id, pre, r);
        }
        assert(collect(table_after(m, pre), r) =~= table_after(m, rs));
    }
}

/// Collecting the same results in two different orders, no two of them for
/// the same chunk of the same job, gives the same table.
pub proof fn lemma_collect_order_independent(
    m: Map<Seq<char>, JobView>,
    rs1: Seq<TaskResult>,
    rs2: Seq<TaskResult>,
)
    requires
        chunks_distinct(rs1),
        chunks_distinct(rs2),
        rs1.to_multiset() == rs2.to_multiset(),
    ensures
        collect_all(m, rs1) == collect_all(m, rs2),
{
    rs1.to_multiset_ensures();
    rs2.to_multiset_ensures();
    lemma_collect_all_closed_form(m, rs1);
    lemma_collect_all_closed_form(m, rs2);
    assert forall|id: Seq<char>, t: int|
        #![trigger has_chunk(rs1, id, t)]
        #![trigger has_chunk(rs2, id, t)]
        true implies has_chunk(rs1, id, t) == has_chunk(rs2, id, t) && (has_chunk(rs1, id, t)
            ==> chunk_of(rs1, id, t) == chunk_of(rs2, id, t)) by {
        if has_chunk(rs1, id, t) {
            let k = choose|j: int| 0 <= j < rs1.len() && (#[trigger] rs1[j]).job_id@ == id && rs1[j].task_id == t;
            lemma_chunk_of_unique(rs1, k);
            assert(rs1.contains(rs1[k]));
            assert(rs1.to_multiset().count(rs1[k]) > 0);
            assert(rs2.to_multiset().count(rs1[k]) > 0);
            assert(rs2.contains(rs1[k]));
            let k2 = choose|j: int| 0 <= j < rs2.len() && rs2[j] == rs1[k];
            assert(rs2[k2].job_id@ == id && rs2[k2].task_id == t);
            lemma_chunk_of_unique(rs2, k2);
        }
        if has_chunk(rs2, id, t) {
            let k = choose|j: int| 0 <= j < rs2.len() && (#[trigger] rs2[j]).job_id@ == id && rs2[j].task_id == t;
            assert(rs2.contains(rs2[k]));
            assert(rs2.to_multiset().count(rs2[k]) > 0);
            assert(rs1.to_multiset().count(rs2[k]) > 0);
            assert(rs1.contains(rs2[k]));
            let k1 = choose|j: int| 0 <= j < rs1.len() && rs1[j] == rs2[k];
            assert(rs1[k1].job_id@ == id && rs1[k1].task_id == t);
        }
    }
    assert forall|id: Seq<char>| #[trigger] m.contains_key(id) implies job_after(m[id], id, rs1) == job_after(
        m[id],
        id,
        rs2,
    ) by {
        assert(slots_after(m[id], id, rs1) =~= slots_after(m[id], id, rs2));
    }
    assert(table_after(m, rs1) =~= table_after(m, rs2));
}

/// A run of the collector: `states[i + 1]` is `states[i]` after result
/// `rs[i]` was recorded with outcome `cs[i]`.
pub open spec fn is_collector_run(states: Seq<AppState>, rs: Seq<TaskResult>, cs: Seq<Collected>) -> bool {
    &&& states.len() == rs.len() + 1
    &&& cs.len() == rs.len()
    &&& forall|i: int| 0 <= i < states.len() ==> (#[trigger] states[i]).wf()
    &&& forall|i: int|
        0 <= i < rs.len() ==> result_fits(states[i].jobs(), #[trigger] rs[i]) && result_recorded(
            states[i],
            states[i + 1],
            rs[i],
            cs[i],
        )
}

/// At the end of a collector run, the job table is what `collect_all` says
/// of its results.
pub proof fn lemma_collector_run(states: Seq<AppState>, rs: Seq<TaskResult>, cs: Seq<Collected>)
    requires
        is_collector_run(states, rs, cs),
    ensures
        table_view(states.last().jobs()) == collect_all(table_view(states[0].jobs()), rs),
    decreases rs.len(),
{
    if rs.len() > 0 {
        let n = rs.len() as int;
        let s0 = states.drop_last();
        assert(is_collector_run(s0, rs.drop_last(), cs.drop_last())) by {
            assert forall|i: int| 0 <= i < rs.drop_last().len() implies result_fits(
                s0[i].jobs(),
                #[trigger] rs.drop_last()[i],
            ) && result_recorded(s0[i], s0[i + 1], rs.drop_last()[i], cs.drop_last()[i]) by {
                assert(rs[i] == rs.drop_last()[i]);
            }
        }
        lemma_collector_run(s0, rs.drop_last(), cs.drop_last());
        assert(rs[n - 1] == rs.last());
        assert(states[n - 1].wf() && states[n].wf());
        lemma_record_result_collects(states[n - 1], states[n], rs[n - 1], cs[n - 1]);
    }
}

/// Two collector runs from the same table over the same results, no two
/// for the same chunk of the same job, in different orders, end with the
/// same job table.
pub proof fn lemma_collector_runs_agree(
    a: Seq<AppState>,
    rs1: Seq<TaskResult>,
    cs1: Seq<Collected>,
    b: Seq<AppState>,
    rs2: Seq<TaskResult>,
    cs2: Seq<Collected>,
)
    requires
        is_collector_run(a, rs1, cs1),
        is_collector_run(b, rs2, cs2),
        table_view(a[0].jobs()) == table_view(b[0].jobs()),
        chunks_distinct(rs1),
        chunks_distinct(rs2),
        rs1.to_multiset() == rs2.to_multiset(),
    ensures
        table_view(a.last().jobs()) == table_view(b.last().jobs()),
{
    lemma_collector_run(a, rs1, cs1);
    lemma_collector_run(b, rs2, cs2);
    lemma_collect_order_independent(table_view(a[0].jobs()), rs1, rs2);
}

} // verus!
