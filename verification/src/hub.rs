//! The hub's shared state: the queue of chunks waiting for a worker, the
//! table of jobs, and the set of connected workers; and what each request,
//! worker outcome and incoming result does to it.

use vstd::prelude::*;
use std::collections::VecDeque;
use crate::models::{
    JobConfig, JobState, JobStatus, MandelbrotTask, TaskResult, JobCreatedResponse,
    JobStatusResponse, JobSummary, ListJobsResponse,
    lemma_count_received_fill, lemma_count_received_full, lemma_count_received_not_full,
    lemma_count_received_empty, lemma_all_received_counts_all,
};
use crate::registry::{Registry, has_name, name_pos, names_distinct};
use crate::tasks::{divide_into_chunks, is_chunk_task};
use crate::ids::{random_uuid, uuid_text, uuid_text_of, uuid_nibble, lemma_uuid_text_injective};

verus! {

/// No two jobs of the table share an id.
pub open spec fn ids_distinct(t: Seq<(String, JobState)>) -> bool {
    forall|i: int, j: int|
        0 <= i < t.len() && 0 <= j < t.len() && i != j ==> (#[trigger] t[i]).0@ != (#[trigger] t[j]).0@
}

/// The table has a job with this id.
pub open spec fn has_job(t: Seq<(String, JobState)>, id: Seq<char>) -> bool {
    exists|i: int| 0 <= i < t.len() && (#[trigger] t[i]).0@ == id
}

/// Where the job with this id stands in the table.
pub open spec fn job_pos(t: Seq<(String, JobState)>, id: Seq<char>) -> int {
    choose|i: int| 0 <= i < t.len() && (#[trigger] t[i]).0@ == id
}

/// How many workers a job is planned for: the number the request asks for
/// when it is positive, else the number of connected workers, at least one.
pub open spec fn planned_workers(requested: Option<usize>, connected: nat) -> nat {
    if requested is Some && requested->0 > 0 {
        requested->0 as nat
    } else if connected == 0 {
        1
    } else {
        connected
    }
}

/// A job is cut into four chunks per planned worker.
pub open spec fn planned_chunks(requested: Option<usize>, connected: nat) -> nat {
    4 * planned_workers(requested, connected)
}

/// `s` is a job just created from `config` in `n` chunks, none received yet.
pub open spec fn is_fresh_job(s: JobState, config: JobConfig, n: nat) -> bool {
    &&& s.config == config
    &&& s.status == JobStatus::Running { chunks_done: 0, chunks_total: n as usize }
    &&& s.chunks_total == n
    &&& s.chunks_done == 0
    &&& s.results@.len() == n
    &&& forall|t: int| 0 <= t < n ==> (#[trigger] s.results@[t]) is None
}

/// `new` is `old` after job `id` was created from `config`: the job (which
/// replaces one with the same id) is fresh, and its chunks, in order, were
/// appended to the queue.
pub open spec fn job_created(old: AppState, new: AppState, id: Seq<char>, config: JobConfig) -> bool {
    let n = planned_chunks(config.num_workers, old.workers().len());
    let p = if has_job(old.jobs(), id) {
        job_pos(old.jobs(), id)
    } else {
        old.jobs().len() as int
    };
    &&& new.workers() == old.workers()
    &&& new.jobs().len() == if has_job(old.jobs(), id) {
        old.jobs().len()
    } else {
        old.jobs().len() + 1
    }
    &&& new.jobs()[p].0@ == id
    &&& is_fresh_job(new.jobs()[p].1, config, n)
    &&& forall|j: int| 0 <= j < old.jobs().len() && j != p ==> new.jobs()[j] == old.jobs()[j]
    &&& new.pending().len() == old.pending().len() + n
    &&& forall|k: int| 0 <= k < old.pending().len() ==> new.pending()[k] == old.pending()[k]
    &&& forall|i: int|
        0 <= i < n ==> is_chunk_task(
            #[trigger] new.pending()[old.pending().len() + i],
            id,
            config,
            n,
            i as nat,
        )
}

/// The file the finished image of job `id` is written to.
pub open spec fn output_path_of(id: Seq<char>) -> Seq<char> {
    "output/"@ + id + ".png"@
}

/// A result for a known job names one of that job's chunks.
pub open spec fn result_fits(t: Seq<(String, JobState)>, r: TaskResult) -> bool {
    has_job(t, r.job_id@) ==> (r.task_id as int) < t[job_pos(t, r.job_id@)].1.chunks_total
}

/// What the arrival of one result did.
pub enum Collected {
    /// No job has the result's job id; nothing changed.
    UnknownJob,
    /// That chunk had already arrived; nothing changed.
    Duplicate,
    /// The chunk was recorded; the job is still missing chunks.
    Progress { chunks_done: usize, chunks_total: usize },
    /// The chunk was the job's last one: everything needed to assemble and
    /// save the image.
    Complete {
        job_id: String,
        output_path: String,
        results: Vec<TaskResult>,
        img_width: usize,
        img_height: usize,
        max_iter: u32,
    },
}

/// `new` is `old` after result `r` arrived, and `c` says what happened.
pub open spec fn result_recorded(old: AppState, new: AppState, r: TaskResult, c: Collected) -> bool {
    let id = r.job_id@;
    let p = job_pos(old.jobs(), id);
    let job = old.jobs()[p].1;
    let t = r.task_id as int;
    &&& new.pending() == old.pending()
    &&& new.workers() == old.workers()
    &&& if !has_job(old.jobs(), id) {
        c is UnknownJob && new.jobs() == old.jobs()
    } else if job.results@[t] is Some {
        c is Duplicate && new.jobs() == old.jobs()
    } else {
        let nj = new.jobs()[p].1;
        &&& new.jobs().len() == old.jobs().len()
        &&& forall|j: int| 0 <= j < old.jobs().len() && j != p ==> new.jobs()[j] == old.jobs()[j]
        &&& new.jobs()[p].0 == old.jobs()[p].0
        &&& nj.config == job.config
        &&& nj.chunks_total == job.chunks_total
        &&& nj.chunks_done == job.chunks_done + 1
        &&& nj.results@ == job.results@.update(t, Some(r))
        &&& if job.chunks_done + 1 == job.chunks_total {
            &&& nj.status == job.status
            &&& c matches Collected::Complete {
                job_id,
                output_path,
                results,
                img_width,
                img_height,
                max_iter,
            }
            &&& job_id@ == id
            &&& output_path@ == output_path_of(id)
            &&& results@.len() == job.chunks_total
            &&& forall|k: int|
                0 <= k < results@.len() ==> (#[trigger] results@[k]).same_as(
                    &nj.results@[k]->0,
                )
            &&& img_width == job.config.img_width
            &&& img_height == job.config.img_height
            &&& max_iter == job.config.max_iter
        } else {
            &&& nj.status == JobStatus::Running {
                chunks_done: (job.chunks_done + 1) as usize,
                chunks_total: job.chunks_total,
            }
            &&& c == Collected::Progress {
                chunks_done: (job.chunks_done + 1) as usize,
                chunks_total: job.chunks_total,
            }
        }
    }
}

/// `rep` reports job `t[p]`.
pub open spec fn reports_job(rep: JobStatusResponse, e: (String, JobState)) -> bool {
    &&& rep.job_id@ == e.0@
    &&& rep.status == e.1.status
    &&& rep.chunks_done == e.1.chunks_done
    &&& rep.chunks_total == e.1.chunks_total
    &&& rep.img_width == e.1.config.img_width
    &&& rep.img_height == e.1.config.img_height
    &&& rep.max_iter == e.1.config.max_iter
}

/// `s` sums up the job `e`.
pub open spec fn summarizes(s: JobSummary, e: (String, JobState)) -> bool {
    &&& s.job_id@ == e.0@
    &&& s.status == e.1.status
    &&& s.img_width == e.1.config.img_width
    &&& s.img_height == e.1.config.img_height
    &&& s.max_iter == e.1.config.max_iter
}

/// The status a job takes once its image was saved, or failed to be.
pub open spec fn finished_status(status: JobStatus, id: Seq<char>, saved: Result<(), String>) -> bool {
    match saved {
        Ok(_) => status matches JobStatus::Done { output_path } && output_path@ == output_path_of(id),
        Err(reason) => status == JobStatus::Failed { reason },
    }
}

/// `new` is `old` after the image of job `id` was saved, or failed to be:
/// only that job's status changed.
pub open spec fn job_finished(old: AppState, new: AppState, id: Seq<char>, saved: Result<(), String>) -> bool {
    &&& !has_job(old.jobs(), id) ==> new.jobs() == old.jobs()
    &&& has_job(old.jobs(), id) ==> {
        let p = job_pos(old.jobs(), id);
        let job = old.jobs()[p].1;
        let nj = new.jobs()[p].1;
        &&& new.jobs().len() == old.jobs().len()
        &&& forall|j: int| 0 <= j < old.jobs().len() && j != p ==> new.jobs()[j] == old.jobs()[j]
        &&& new.jobs()[p].0 == old.jobs()[p].0
        &&& nj.config == job.config
        &&& nj.chunks_total == job.chunks_total
        &&& nj.chunks_done == job.chunks_done
        &&& nj.results == job.results
        &&& finished_status(nj.status, id, saved)
    }
}

/// How a worker's turn with one chunk ended.
pub enum DispatchOutcome {
    /// The chunk could not be encoded for the wire.
    SerializeFailed,
    /// The chunk could not be sent, or sending timed out.
    SendFailed,
    /// The worker answered with a result.
    Answered(TaskResult),
    /// The connection failed or closed while waiting for the answer.
    ReadFailed,
    /// No answer came within the chunk's time limit.
    TimedOut,
}

/// What the worker's connection does next.
pub enum NextStep {
    /// Pass the result on to the collector and ask for another chunk.
    Forward(TaskResult),
    /// Ask for another chunk.
    Continue,
    /// Close the connection.
    Disconnect,
}

/// The path the image of job `job_id` is saved to.
pub fn output_path(job_id: &String) -> (p: String)
    ensures
        p@ == output_path_of(job_id@),
{
    let mut p = "output/".to_string();
    p.append(job_id.as_str());
    p.append(".png");
    p
}

/// The hub's state.
pub struct AppState {
    pending_tasks: VecDeque<MandelbrotTask>,
    jobs: Vec<(String, JobState)>,
    workers: Registry,
}

impl AppState {
    /// Chunks waiting for a worker, the next one first.
    pub closed spec fn pending(&self) -> Seq<MandelbrotTask> {
        self.pending_tasks@
    }

    /// The jobs with their ids, oldest first.
    pub closed spec fn jobs(&self) -> Seq<(String, JobState)> {
        self.jobs@
    }

    /// Addresses of the connected workers, in order of arrival.
    pub closed spec fn workers(&self) -> Seq<String> {
        self.workers.names()
    }

    /// Job ids and worker addresses are unique, and every job is well formed.
    pub open spec fn wf(&self) -> bool {
        &&& ids_distinct(self.jobs())
        &&& forall|i: int|
            0 <= i < self.jobs().len() ==> (#[trigger] self.jobs()[i]).1.wf(self.jobs()[i].0@)
        &&& names_distinct(self.workers())
    }

    /// A hub with no job, no pending chunk and no worker.
    pub fn new() -> (s: AppState)
        ensures
            s.wf(),
            s.pending().len() == 0,
            s.jobs().len() == 0,
            s.workers().len() == 0,
    {
        AppState { pending_tasks: VecDeque::new(), jobs: Vec::new(), workers: Registry::new() }
    }

    fn find_job(&self, job_id: &String) -> (r: Option<usize>)
        requires
            self.wf(),
        ensures
            match r {
                Some(i) => i < self.jobs().len() && self.jobs()[i as int].0@ == job_id@ && i
                    == job_pos(self.jobs(), job_id@) && has_job(self.jobs(), job_id@),
                None => !has_job(self.jobs(), job_id@),
            },
    {
        let mut i: usize = 0;
        while i < self.jobs.len()
            invariant
                i <= self.jobs@.len(),
                self.wf(),
                forall|k: int| 0 <= k < i ==> (#[trigger] self.jobs@[k]).0@ != job_id@,
            decreases self.jobs@.len() - i,
        {
            if self.jobs[i].0 == *job_id {
                let ghost p = job_pos(self.jobs(), job_id@);
                assert(self.jobs()[i as int].0@ == job_id@);
                assert(has_job(self.jobs(), job_id@));
                assert(p == i as int);
                return Some(i);
            }
            i = i + 1;
        }
        None
    }

    /// Creates a job with the given id: plans its chunks, records it as
    /// running with no chunk received, and queues its chunks.
    pub fn create_job_with_id(&mut self, job_id: String, config: JobConfig) -> (resp:
        JobCreatedResponse)
        requires
            old(self).wf(),
            planned_chunks(config.num_workers, old(self).workers().len()) <= usize::MAX,
        ensures
            final(self).wf(),
            job_created(*old(self), *final(self), job_id@, config),
            resp.job_id@ == job_id@,
            resp.img_width == config.img_width,
            resp.img_height == config.img_height,
            resp.max_iter == config.max_iter,
    {
        let workers_count: usize = match config.num_workers {
            Some(n) if n > 0 => n,
            _ => if self.workers.len() == 0 {
                1
            } else {
                self.workers.len()
            },
        };
        let num_chunks = workers_count * 4;
        let tasks = divide_into_chunks(job_id.as_str(), &config, num_chunks);
        let mut results: Vec<Option<TaskResult>> = Vec::with_capacity(num_chunks);
        let mut t: usize = 0;
        while t < num_chunks
            invariant
                t <= num_chunks,
                results@.len() == t,
                forall|u: int| 0 <= u < t ==> (#[trigger] results@[u]) is None,
            decreases num_chunks - t,
        {
            results.push(None);
            t = t + 1;
        }
        proof {
            lemma_count_received_empty(results@);
        }
        let state = JobState {
            config,
            status: JobStatus::Running { chunks_done: 0, chunks_total: num_chunks },
            chunks_total: num_chunks,
            chunks_done: 0,
            results,
        };
        let ghost old_jobs = self.jobs@;
        match self.find_job(&job_id) {
            Some(i) => {
                self.jobs.set(i, (job_id.clone(), state));
            },
            None => {
                self.jobs.push((job_id.clone(), state));
            },
        }
        let ghost p = if has_job(old_jobs, job_id@) {
            job_pos(old_jobs, job_id@)
        } else {
            old_jobs.len() as int
        };
        assert(self.wf()) by {
            assert forall|i: int, j: int|
                0 <= i < self.jobs().len() && 0 <= j < self.jobs().len() && i != j implies (
            #[trigger] self.jobs()[i]).0@ != (#[trigger] self.jobs()[j]).0@ by {
                if i != p && j != p {
                    assert(self.jobs()[i] == old_jobs[i]);
                    assert(self.jobs()[j] == old_jobs[j]);
                } else if i == p {
                    assert(self.jobs()[j] == old_jobs[j]);
                } else {
                    assert(self.jobs()[i] == old_jobs[i]);
                }
            }
        }
        let ghost before = self.pending_tasks@;
        let ghost jobs_after = self.jobs@;
        assert(self.jobs()[p].0@ == job_id@);
        assert(is_fresh_job(self.jobs()[p].1, config, num_chunks as nat));
        let mut k: usize = 0;
        while k < tasks.len()
            invariant
                k <= tasks@.len(),
                tasks@.len() == num_chunks,
                num_chunks == planned_chunks(config.num_workers, old(self).workers().len()),
                self.wf(),
                self.jobs@ == jobs_after,
                self.workers.names() == old(self).workers.names(),
                self.workers.wf(),
                self.pending_tasks@.len() == before.len() + k,
                forall|q: int| 0 <= q < before.len() ==> self.pending_tasks@[q] == before[q],
                forall|q: int|
                    0 <= q < k ==> #[trigger] self.pending_tasks@[before.len() + q] == tasks@[q],
            decreases tasks@.len() - k,
        {
            self.pending_tasks.push_back(tasks[k].clone());
            k = k + 1;
        }
        assert forall|i: int| 0 <= i < num_chunks implies is_chunk_task(
            #[trigger] self.pending()[before.len() + i],
            job_id@,
            config,
            num_chunks as nat,
            i as nat,
        ) by {
            assert(self.pending()[before.len() + i] == tasks@[i]);
        }
        JobCreatedResponse {
            job_id,
            img_width: config.img_width,
            img_height: config.img_height,
            max_iter: config.max_iter,
        }
    }

    /// Whether `record_result` can take this result (see `result_fits`).
    pub fn result_in_range(&self, r: &TaskResult) -> (b: bool)
        requires
            self.wf(),
        ensures
            b == result_fits(self.jobs(), *r),
    {
        match self.find_job(&r.job_id) {
            Some(i) => (r.task_id as usize) < self.jobs[i].1.chunks_total,
            None => true,
        }
    }

    /// Records a chunk that a worker computed. A result for an unknown job
    /// or for a chunk that already arrived changes nothing. Otherwise the
    /// chunk is stored and counted; the job stays running with the new count,
    /// or, with its last chunk in, is handed over for assembly.
    pub fn record_result(&mut self, r: TaskResult) -> (c: Collected)
        requires
            old(self).wf(),
            result_fits(old(self).jobs(), r),
        ensures
            final(self).wf(),
            result_recorded(*old(self), *final(self), r, c),
    {
        let i = match self.find_job(&r.job_id) {
            Some(i) => i,
            None => {
                return Collected::UnknownJob;
            },
        };
        let t = r.task_id as usize;
        if self.jobs[i].1.results[t].is_some() {
            return Collected::Duplicate;
        }
        let ghost old_jobs = self.jobs@;
        let ghost job = old_jobs[i as int].1;
        let ghost id = r.job_id@;
        proof {
            lemma_count_received_fill(job.results@, t as int, r);
            lemma_count_received_not_full(job.results@, t as int);
        }
        let (job_id, mut state) = self.jobs.remove(i);
        state.results.set(t, Some(r));
        state.chunks_done = state.chunks_done + 1;
        let done = state.chunks_done;
        let total = state.chunks_total;
        if done == total {
            proof {
                lemma_count_received_full(state.results@);
            }
            let mut out: Vec<TaskResult> = Vec::with_capacity(total);
            let mut k: usize = 0;
            while k < total
                invariant
                    k <= total,
                    total == state.results@.len(),
                    forall|u: int| 0 <= u < total ==> (#[trigger] state.results@[u]) is Some,
                    out@.len() == k,
                    forall|u: int|
                        0 <= u < k ==> (#[trigger] out@[u]).same_as(&state.results@[u]->0),
                decreases total - k,
            {
                match &state.results[k] {
                    Some(res) => {
                        out.push(res.clone());
                    },
                    None => {},
                }
                k = k + 1;
            }
            let output_path = output_path(&job_id);
            let img_width = state.config.img_width;
            let img_height = state.config.img_height;
            let max_iter = state.config.max_iter;
            let id_copy = job_id.clone();
            self.jobs.insert(i, (job_id, state));
            proof {
                assert(self.jobs@ =~= old_jobs.update(i as int, self.jobs@[i as int]));
                self.lemma_replaced_job_wf(old_jobs, i as int);
            }
            Collected::Complete {
                job_id: id_copy,
                output_path,
                results: out,
                img_width,
                img_height,
                max_iter,
            }
        } else {
            state.status = JobStatus::Running { chunks_done: done, chunks_total: total };
            self.jobs.insert(i, (job_id, state));
            proof {
                assert(self.jobs@ =~= old_jobs.update(i as int, self.jobs@[i as int]));
                self.lemma_replaced_job_wf(old_jobs, i as int);
            }
            Collected::Progress { chunks_done: done, chunks_total: total }
        }
    }

    proof fn lemma_replaced_job_wf(&self, old_jobs: Seq<(String, JobState)>, i: int)
        requires
            ids_distinct(old_jobs),
            forall|j: int| 0 <= j < old_jobs.len() ==> (#[trigger] old_jobs[j]).1.wf(old_jobs[j].0@),
            self.workers.wf(),
            0 <= i < old_jobs.len(),
            self.jobs() == old_jobs.update(i, self.jobs()[i]),
            self.jobs()[i].0@ == old_jobs[i].0@,
            self.jobs()[i].1.wf(self.jobs()[i].0@),
        ensures
            self.wf(),
    {
        assert forall|a: int, b: int|
            0 <= a < self.jobs().len() && 0 <= b < self.jobs().len() && a != b implies (
        #[trigger] self.jobs()[a]).0@ != (#[trigger] self.jobs()[b]).0@ by {
            assert(old_jobs[a].0@ != old_jobs[b].0@);
        }
        assert forall|j: int| 0 <= j < self.jobs().len() implies (#[trigger] self.jobs()[j]).1.wf(
            self.jobs()[j].0@,
        ) by {
            if j != i {
                assert(self.jobs()[j] == old_jobs[j]);
            }
        }
    }

    /// Creates a job whose id is the hyphenated form of the UUID `id`.
    pub fn create_job_from_uuid(&mut self, id: u128, config: JobConfig) -> (resp: JobCreatedResponse)
        requires
            old(self).wf(),
            planned_chunks(config.num_workers, old(self).workers().len()) <= usize::MAX,
        ensures
            final(self).wf(),
            resp.job_id@ == uuid_text_of(id),
            job_created(*old(self), *final(self), uuid_text_of(id), config),
            resp.img_width == config.img_width,
            resp.img_height == config.img_height,
            resp.max_iter == config.max_iter,
    {
        let job_id = uuid_text(id);
        self.create_job_with_id(job_id, config)
    }

    /// Creates a job under a fresh random version-4 UUID.
    pub fn create_job(&mut self, config: JobConfig) -> (resp: JobCreatedResponse)
        requires
            old(self).wf(),
            planned_chunks(config.num_workers, old(self).workers().len()) <= usize::MAX,
        ensures
            final(self).wf(),
            exists|id: u128|
                uuid_nibble(id, 12) == 4 && 8 <= uuid_nibble(id, 16) <= 11 && resp.job_id@
                    == #[trigger] uuid_text_of(id),
            job_created(*old(self), *final(self), resp.job_id@, config),
            resp.img_width == config.img_width,
            resp.img_height == config.img_height,
            resp.max_iter == config.max_iter,
    {
        let id = random_uuid();
        self.create_job_from_uuid(id, config)
    }

    /// Whether `create_job` can plan the chunks of `config` without overflow.
    pub fn chunk_count_fits(&self, config: &JobConfig) -> (b: bool)
        ensures
            b == (planned_chunks(config.num_workers, self.workers().len()) <= usize::MAX),
    {
        let workers_count: usize = match config.num_workers {
            Some(n) if n > 0 => n,
            _ => if self.workers.len() == 0 {
                1
            } else {
                self.workers.len()
            },
        };
        workers_count <= usize::MAX / 4
    }

    /// Marks a job whose image was assembled: done, with the path of the
    /// image, when it was saved; failed, with the reason, when it was not.
    /// An unknown job id changes nothing.
    pub fn finish_job(&mut self, job_id: &String, saved: Result<(), String>)
        requires
            old(self).wf(),
        ensures
            final(self).wf(),
            final(self).pending() == old(self).pending(),
            final(self).workers() == old(self).workers(),
            job_finished(*old(self), *final(self), job_id@, saved),
    {
        let i = match self.find_job(job_id) {
            Some(i) => i,
            None => {
                return ;
            },
        };
        let ghost old_jobs = self.jobs@;
        let (id, mut state) = self.jobs.remove(i);
        state.status = match saved {
            Ok(()) => JobStatus::Done { output_path: output_path(job_id) },
            Err(reason) => JobStatus::Failed { reason },
        };
        self.jobs.insert(i, (id, state));
        proof {
            assert(self.jobs@ =~= old_jobs.update(i as int, self.jobs@[i as int]));
            self.lemma_replaced_job_wf(old_jobs, i as int);
        }
    }

    /// The status of one job, or `None` for an unknown id.
    pub fn get_job_status(&self, job_id: &String) -> (rep: Option<JobStatusResponse>)
        requires
            self.wf(),
        ensures
            rep is None <==> !has_job(self.jobs(), job_id@),
            rep is Some ==> reports_job(rep->0, self.jobs()[job_pos(self.jobs(), job_id@)]),
    {
        match self.find_job(job_id) {
            Some(i) => {
                let e = &self.jobs[i];
                Some(
                    JobStatusResponse {
                        job_id: e.0.clone(),
                        status: e.1.status.clone(),
                        chunks_done: e.1.chunks_done,
                        chunks_total: e.1.chunks_total,
                        img_width: e.1.config.img_width,
                        img_height: e.1.config.img_height,
                        max_iter: e.1.config.max_iter,
                    },
                )
            },
            None => None,
        }
    }

    /// A summary of every job, in the order they were created.
    pub fn list_jobs(&self) -> (list: ListJobsResponse)
        ensures
            list.jobs@.len() == self.jobs().len(),
            forall|i: int|
                0 <= i < self.jobs().len() ==> summarizes(#[trigger] list.jobs@[i], self.jobs()[i]),
    {
        let mut out: Vec<JobSummary> = Vec::with_capacity(self.jobs.len());
        let mut i: usize = 0;
        while i < self.jobs.len()
            invariant
                i <= self.jobs@.len(),
                out@.len() == i,
                forall|k: int| 0 <= k < i ==> summarizes(#[trigger] out@[k], self.jobs@[k]),
            decreases self.jobs@.len() - i,
        {
            let e = &self.jobs[i];
            out.push(
                JobSummary {
                    job_id: e.0.clone(),
                    status: e.1.status.clone(),
                    img_width: e.1.config.img_width,
                    img_height: e.1.config.img_height,
                    max_iter: e.1.config.max_iter,
                },
            );
            i = i + 1;
        }
        ListJobsResponse { jobs: out }
    }

    /// Records a connected worker; an address already listed stays once.
    pub fn register_worker(&mut self, addr: String)
        requires
            old(self).wf(),
        ensures
            final(self).wf(),
            final(self).pending() == old(self).pending(),
            final(self).jobs() == old(self).jobs(),
            final(self).workers() == if has_name(old(self).workers(), addr@) {
                old(self).workers()
            } else {
                old(self).workers().push(addr)
            },
    {
        self.workers.insert(addr);
    }

    /// Forgets a worker that disconnected.
    pub fn unregister_worker(&mut self, addr: &String)
        requires
            old(self).wf(),
        ensures
            final(self).wf(),
            final(self).pending() == old(self).pending(),
            final(self).jobs() == old(self).jobs(),
            final(self).workers() == if has_name(old(self).workers(), addr@) {
                old(self).workers().remove(name_pos(old(self).workers(), addr@))
            } else {
                old(self).workers()
            },
    {
        self.workers.remove(addr);
    }

    /// Number of connected workers.
    pub fn worker_count(&self) -> (n: usize)
        ensures
            n == self.workers().len(),
    {
        self.workers.len()
    }

    /// Hands out the chunk that has waited longest, if any.
    pub fn take_task(&mut self) -> (task: Option<MandelbrotTask>)
        requires
            old(self).wf(),
        ensures
            final(self).wf(),
            final(self).jobs() == old(self).jobs(),
            final(self).workers() == old(self).workers(),
            old(self).pending().len() == 0 ==> task is None && final(self).pending() == old(
                self,
            ).pending(),
            old(self).pending().len() > 0 ==> task == Some(old(self).pending()[0])
                && final(self).pending() == old(self).pending().drop_first(),
    {
        self.pending_tasks.pop_front()
    }

    /// Puts a chunk back at the end of the queue.
    pub fn requeue_task(&mut self, task: MandelbrotTask)
        requires
            old(self).wf(),
        ensures
            final(self).wf(),
            final(self).jobs() == old(self).jobs(),
            final(self).workers() == old(self).workers(),
            final(self).pending() == old(self).pending().push(task),
    {
        self.pending_tasks.push_back(task);
    }

    /// Settles a chunk that a worker took: an answer is passed on, any
    /// failure puts the chunk back in the queue. A failed send or read
    /// closes the connection; a serialization failure or a timeout does not.
    pub fn settle_dispatch(&mut self, task: MandelbrotTask, outcome: DispatchOutcome) -> (step:
        NextStep)
        requires
            old(self).wf(),
        ensures
            final(self).wf(),
            final(self).jobs() == old(self).jobs(),
            final(self).workers() == old(self).workers(),
            match outcome {
                DispatchOutcome::Answered(r) => step == NextStep::Forward(r) && final(self).pending()
                    == old(self).pending(),
                DispatchOutcome::SerializeFailed | DispatchOutcome::TimedOut => step
                    == NextStep::Continue && final(self).pending() == old(self).pending().push(task),
                DispatchOutcome::SendFailed | DispatchOutcome::ReadFailed => step
                    == NextStep::Disconnect && final(self).pending() == old(self).pending().push(task),
            },
    {
        match outcome {
            DispatchOutcome::Answered(r) => NextStep::Forward(r),
            DispatchOutcome::SerializeFailed | DispatchOutcome::TimedOut => {
                self.pending_tasks.push_back(task);
                NextStep::Continue
            },
            DispatchOutcome::SendFailed | DispatchOutcome::ReadFailed => {
                self.pending_tasks.push_back(task);
                NextStep::Disconnect
            },
        }
    }
}

/// A chunk that a worker took and then failed to answer goes back to the
/// queue: the queue holds the same chunks as before it was taken.
pub proof fn lemma_failed_dispatch_keeps_chunks(q: Seq<MandelbrotTask>)
    requires
        q.len() > 0,
    ensures
        q.drop_first().push(q[0]).to_multiset() == q.to_multiset(),
{
    let r = q.drop_first().push(q[0]);
    assert(q =~= seq![q[0]] + q.drop_first());
    vstd::seq_lib::lemma_multiset_commutative(seq![q[0]], q.drop_first());
    vstd::seq_lib::lemma_multiset_commutative(q.drop_first(), seq![q[0]]);
    assert(r =~= q.drop_first() + seq![q[0]]);
}

/// Right after a job is created, looking it up finds it running, with no
/// chunk received out of the chunks planned for it.
pub proof fn lemma_created_job_is_running(old: AppState, new: AppState, id: Seq<char>, config: JobConfig)
    requires
        old.wf(),
        new.wf(),
        job_created(old, new, id, config),
    ensures
        has_job(new.jobs(), id),
        ({
            let job = new.jobs()[job_pos(new.jobs(), id)].1;
            let n = planned_chunks(config.num_workers, old.workers().len());
            &&& job.status == JobStatus::Running { chunks_done: 0, chunks_total: n as usize }
            &&& job.chunks_done == 0
            &&& job.chunks_total == n
            &&& job.config == config
        }),
        forall|i: int|
            0 <= i < new.jobs().len() && (#[trigger] new.jobs()[i]).0@ == id ==> i == job_pos(
                new.jobs(),
                id,
            ),
{
    let p = if has_job(old.jobs(), id) {
        job_pos(old.jobs(), id)
    } else {
        old.jobs().len() as int
    };
    assert(new.jobs()[p].0@ == id);
    assert(has_job(new.jobs(), id));
    let q = job_pos(new.jobs(), id);
    assert(new.jobs()[q].0@ == id);
    assert(q == p);
}

/// A result completes its job exactly when, once it is stored, every chunk
/// of the job has arrived.
pub proof fn lemma_complete_iff_all_received(old: AppState, new: AppState, r: TaskResult, c: Collected)
    requires
        old.wf(),
        result_fits(old.jobs(), r),
        result_recorded(old, new, r, c),
        has_job(old.jobs(), r.job_id@),
        old.jobs()[job_pos(old.jobs(), r.job_id@)].1.results@[r.task_id as int] is None,
    ensures
        ({
            let rs = new.jobs()[job_pos(old.jobs(), r.job_id@)].1.results@;
            c is Complete <==> forall|t: int| 0 <= t < rs.len() ==> (#[trigger] rs[t]) is Some
        }),
{
    let p = job_pos(old.jobs(), r.job_id@);
    let job = old.jobs()[p].1;
    assert(job.wf(old.jobs()[p].0@));
    let rs = new.jobs()[p].1.results@;
    let t = r.task_id as int;
    lemma_count_received_fill(job.results@, t, r);
    if job.chunks_done + 1 == job.chunks_total {
        lemma_count_received_full(rs);
    } else {
        if forall|u: int| 0 <= u < rs.len() ==> (#[trigger] rs[u]) is Some {
            lemma_all_received_counts_all(rs);
        }
    }
}

/// Every job of the listing is the job that a lookup by its id finds, so
/// the listing and the status of one job agree.
pub proof fn lemma_listed_job_is_found(s: AppState, i: int)
    requires
        s.wf(),
        0 <= i < s.jobs().len(),
    ensures
        has_job(s.jobs(), s.jobs()[i].0@),
        job_pos(s.jobs(), s.jobs()[i].0@) == i,
{
    let id = s.jobs()[i].0@;
    assert(has_job(s.jobs(), id));
    let q = job_pos(s.jobs(), id);
    assert(s.jobs()[q].0@ == id);
}

/// The job with id `id`, if `old` has one, is still in `new` with the same
/// configuration and number of chunks.
pub open spec fn keeps_job(old: AppState, new: AppState, id: Seq<char>) -> bool {
    has_job(old.jobs(), id) ==> {
        let j0 = old.jobs()[job_pos(old.jobs(), id)].1;
        let j1 = new.jobs()[job_pos(new.jobs(), id)].1;
        &&& has_job(new.jobs(), id)
        &&& j1.config == j0.config
        &&& j1.chunks_total == j0.chunks_total
    }
}

/// In a well-formed table, the job at `i` is the one found by its id.
proof fn lemma_pos_of_index(t: Seq<(String, JobState)>, i: int)
    requires
        ids_distinct(t),
        0 <= i < t.len(),
    ensures
        has_job(t, t[i].0@),
        job_pos(t, t[i].0@) == i,
{
    assert(has_job(t, t[i].0@));
    let q = job_pos(t, t[i].0@);
    assert(t[q].0@ == t[i].0@);
}

/// Over a step that leaves the first `old.jobs().len()` entries as they
/// were, except perhaps entry `p` (whose id, configuration and chunk count
/// stay), every job is kept.
proof fn lemma_keeps_jobs_pointwise(old: AppState, new: AppState, p: int, id: Seq<char>)
    requires
        old.wf(),
        new.wf(),
        new.jobs().len() >= old.jobs().len(),
        forall|j: int| 0 <= j < old.jobs().len() && j != p ==> new.jobs()[j] == old.jobs()[j],
        0 <= p < old.jobs().len() ==> {
            &&& new.jobs()[p].0@ == old.jobs()[p].0@
            &&& new.jobs()[p].1.config == old.jobs()[p].1.config
            &&& new.jobs()[p].1.chunks_total == old.jobs()[p].1.chunks_total
        },
    ensures
        keeps_job(old, new, id),
{
    if has_job(old.jobs(), id) {
        let q = job_pos(old.jobs(), id);
        assert(old.jobs()[q].0@ == id);
        assert(new.jobs()[q].0@ == id);
        lemma_pos_of_index(new.jobs(), q);
    }
}

/// Recording a result keeps every job, with its configuration and number
/// of chunks.
pub proof fn lemma_record_keeps_jobs(old: AppState, new: AppState, r: TaskResult, c: Collected, id: Seq<char>)
    requires
        old.wf(),
        new.wf(),
        result_recorded(old, new, r, c),
    ensures
        keeps_job(old, new, id),
{
    let p = job_pos(old.jobs(), r.job_id@);
    if has_job(old.jobs(), r.job_id@) {
        assert(old.jobs()[p].0@ == r.job_id@);
    }
    lemma_keeps_jobs_pointwise(old, new, if has_job(old.jobs(), r.job_id@) { p } else { -1 }, id);
}

/// Finishing a job keeps every job, with its configuration and number of
/// chunks.
pub proof fn lemma_finish_keeps_jobs(old: AppState, new: AppState, fid: Seq<char>, saved: Result<(), String>, id: Seq<char>)
    requires
        old.wf(),
        new.wf(),
        job_finished(old, new, fid, saved),
    ensures
        keeps_job(old, new, id),
{
    let p = job_pos(old.jobs(), fid);
    if has_job(old.jobs(), fid) {
        assert(old.jobs()[p].0@ == fid);
    }
    lemma_keeps_jobs_pointwise(old, new, if has_job(old.jobs(), fid) { p } else { -1 }, id);
}

/// Creating a job keeps every job with another id, with its configuration
/// and number of chunks.
pub proof fn lemma_create_keeps_other_jobs(old: AppState, new: AppState, nid: Seq<char>, config: JobConfig, id: Seq<char>)
    requires
        old.wf(),
        new.wf(),
        job_created(old, new, nid, config),
        id != nid,
    ensures
        keeps_job(old, new, id),
{
    if has_job(old.jobs(), nid) {
        let p = job_pos(old.jobs(), nid);
        assert(old.jobs()[p].0@ == nid);
        if has_job(old.jobs(), id) {
            let q = job_pos(old.jobs(), id);
            assert(old.jobs()[q].0@ == id);
            assert(q != p);
            assert(new.jobs()[q] == old.jobs()[q]);
            lemma_pos_of_index(new.jobs(), q);
        }
    } else {
        lemma_keeps_jobs_pointwise(old, new, -1, id);
    }
}

/// Keeping a job carries over a sequence of steps.
pub proof fn lemma_keeps_job_trans(a: AppState, b: AppState, c: AppState, id: Seq<char>)
    requires
        keeps_job(a, b, id),
        keeps_job(b, c, id),
    ensures
        keeps_job(a, c, id),
{
}

/// A step that leaves the job table as it is keeps every job.
pub proof fn lemma_same_table_keeps_jobs(old: AppState, new: AppState, id: Seq<char>)
    requires
        new.jobs() == old.jobs(),
    ensures
        keeps_job(old, new, id),
{
}

/// Recording a result never lowers a job's done count, never changes a
/// chunk that had already arrived, and never adds or drops a job.
pub proof fn lemma_record_result_monotone(old: AppState, new: AppState, r: TaskResult, c: Collected)
    requires
        old.wf(),
        result_fits(old.jobs(), r),
        result_recorded(old, new, r, c),
    ensures
        new.jobs().len() == old.jobs().len(),
        forall|j: int|
            #![trigger new.jobs()[j]]
            0 <= j < old.jobs().len() ==> {
                &&& new.jobs()[j].0@ == old.jobs()[j].0@
                &&& new.jobs()[j].1.chunks_done >= old.jobs()[j].1.chunks_done
                &&& new.jobs()[j].1.chunks_total == old.jobs()[j].1.chunks_total
                &&& forall|t: int|
                    0 <= t < old.jobs()[j].1.results@.len() && (#[trigger] old.jobs()[j].1.results@[t]) is Some
                        ==> new.jobs()[j].1.results@[t] == old.jobs()[j].1.results@[t]
            },
{
    let p = job_pos(old.jobs(), r.job_id@);
    if has_job(old.jobs(), r.job_id@) {
        assert(old.jobs()[p].0@ == r.job_id@);
    }
}

/// The chunk plan: four chunks per worker asked for; when the request asks
/// for no positive number, four per connected worker; with no worker
/// connected either, four.
pub proof fn lemma_planned_chunks(requested: Option<usize>, connected: nat)
    ensures
        (requested is Some && requested->0 > 0) ==> planned_chunks(requested, connected) == 4 * requested->0,
        !(requested is Some && requested->0 > 0) && connected >= 1 ==> planned_chunks(requested, connected)
            == 4 * connected,
        !(requested is Some && requested->0 > 0) && connected == 0 ==> planned_chunks(requested, connected)
            == 4,
{
}

/// A created job has four chunks per requested worker, else four per
/// connected worker, else four; the queue grows by exactly that many chunks.
pub proof fn lemma_job_chunks_follow_workers(old: AppState, new: AppState, id: Seq<char>, config: JobConfig)
    requires
        old.wf(),
        new.wf(),
        job_created(old, new, id, config),
    ensures
        has_job(new.jobs(), id),
        ({
            let total = new.jobs()[job_pos(new.jobs(), id)].1.chunks_total;
            let k = old.workers().len();
            &&& (config.num_workers is Some && config.num_workers->0 > 0) ==> total == 4 * config.num_workers->0
            &&& (!(config.num_workers is Some && config.num_workers->0 > 0) && k >= 1) ==> total == 4 * k
            &&& (!(config.num_workers is Some && config.num_workers->0 > 0) && k == 0) ==> total == 4
            &&& new.pending().len() == old.pending().len() + total
        }),
{
    lemma_created_job_is_running(old, new, id, config);
    lemma_planned_chunks(config.num_workers, old.workers().len());
}

/// Two jobs created from two different UUIDs, neither of whose ids was in
/// the table, are both in the table afterwards, under different ids, each
/// with its own configuration and chunk count: the table grows by two.
pub proof fn lemma_distinct_uuids_make_distinct_jobs(
    s0: AppState,
    s1: AppState,
    s2: AppState,
    a: u128,
    ca: JobConfig,
    b: u128,
    cb: JobConfig,
)
    requires
        s0.wf(),
        s1.wf(),
        s2.wf(),
        job_created(s0, s1, uuid_text_of(a), ca),
        job_created(s1, s2, uuid_text_of(b), cb),
        a != b,
        !has_job(s0.jobs(), uuid_text_of(a)),
        !has_job(s0.jobs(), uuid_text_of(b)),
    ensures
        uuid_text_of(a) != uuid_text_of(b),
        s2.jobs().len() == s0.jobs().len() + 2,
        has_job(s2.jobs(), uuid_text_of(a)),
        has_job(s2.jobs(), uuid_text_of(b)),
        s2.jobs()[job_pos(s2.jobs(), uuid_text_of(a))].1.config == ca,
        s2.jobs()[job_pos(s2.jobs(), uuid_text_of(b))].1.config == cb,
{
    let ia = uuid_text_of(a);
    let ib = uuid_text_of(b);
    lemma_uuid_text_injective(a, b);
    lemma_created_job_is_running(s0, s1, ia, ca);
    assert(!has_job(s1.jobs(), ib)) by {
        if has_job(s1.jobs(), ib) {
            let q = job_pos(s1.jobs(), ib);
            assert(s1.jobs()[q].0@ == ib);
            if q < s0.jobs().len() {
                assert(s1.jobs()[q] == s0.jobs()[q]);
                assert(has_job(s0.jobs(), ib));
            } else {
                assert(s1.jobs()[s0.jobs().len() as int].0@ == ia);
            }
        }
    }
    lemma_created_job_is_running(s1, s2, ib, cb);
    lemma_create_keeps_other_jobs(s1, s2, ib, cb, ia);
}

} // verus!
