//! Plain data exchanged between the hub, its REST interface and the workers.
//! Fields that carry floating-point coordinates live in the application
//! layer; the library keeps the integer part that its logic reads.

use vstd::prelude::*;

verus! {

/// What a client asks for when it creates a job.
#[derive(Clone, Copy, Debug)]
pub struct JobConfig {
    pub num_workers: Option<usize>,
    pub img_width: usize,
    pub img_height: usize,
    pub max_iter: u32,
}

/// Where a job stands.
#[derive(Debug)]
pub enum JobStatus {
    Queued,
    Running { chunks_done: usize, chunks_total: usize },
    Done { output_path: String },
    Failed { reason: String },
}

impl Clone for JobStatus {
    fn clone(&self) -> (res: Self)
        ensures
            res == *self,
    {
        match self {
            JobStatus::Queued => JobStatus::Queued,
            JobStatus::Running { chunks_done, chunks_total } => JobStatus::Running {
                chunks_done: *chunks_done,
                chunks_total: *chunks_total,
            },
            JobStatus::Done { output_path } => JobStatus::Done { output_path: output_path.clone() },
            JobStatus::Failed { reason } => JobStatus::Failed { reason: reason.clone() },
        }
    }
}

/// One chunk of rows of a job, as handed to a worker.
#[derive(Debug)]
pub struct MandelbrotTask {
    pub id: u32,
    pub job_id: String,
    pub row_start: usize,
    pub row_end: usize,
    pub total_width: usize,
    pub total_height: usize,
    pub max_iter: u32,
}

impl Clone for MandelbrotTask {
    fn clone(&self) -> (res: Self)
        ensures
            res == *self,
    {
        MandelbrotTask {
            id: self.id,
            job_id: self.job_id.clone(),
            row_start: self.row_start,
            row_end: self.row_end,
            total_width: self.total_width,
            total_height: self.total_height,
            max_iter: self.max_iter,
        }
    }
}

/// The iteration counts that a worker computed for one chunk.
#[derive(Debug)]
pub struct TaskResult {
    pub task_id: u32,
    pub job_id: String,
    pub worker_id: String,
    pub row_start: usize,
    pub pixels: Vec<u32>,
}

impl TaskResult {
    /// The same result, field by field.
    pub open spec fn same_as(&self, other: &TaskResult) -> bool {
        &&& self.task_id == other.task_id
        &&& self.job_id@ == other.job_id@
        &&& self.worker_id@ == other.worker_id@
        &&& self.row_start == other.row_start
        &&& self.pixels@ == other.pixels@
    }
}

impl Clone for TaskResult {
    fn clone(&self) -> (res: Self)
        ensures
            res.same_as(self),
    {
        TaskResult {
            task_id: self.task_id,
            job_id: self.job_id.clone(),
            worker_id: self.worker_id.clone(),
            row_start: self.row_start,
            pixels: self.pixels.clone(),
        }
    }
}

/// Number of chunks of which a result has arrived.
pub open spec fn count_received(rs: Seq<Option<TaskResult>>) -> nat
    decreases rs.len(),
{
    if rs.len() == 0 {
        0
    } else {
        count_received(rs.drop_last()) + if rs.last() is Some {
            1nat
        } else {
            0nat
        }
    }
}

/// Everything the hub knows about one job.
#[derive(Debug)]
pub struct JobState {
    pub config: JobConfig,
    pub status: JobStatus,
    pub chunks_total: usize,
    pub chunks_done: usize,
    pub results: Vec<Option<TaskResult>>,
}

impl JobState {
    /// One slot per chunk; the done count is the number of filled slots,
    /// and the result in slot `t` is chunk `t` of this job.
    pub open spec fn wf(&self, job_id: Seq<char>) -> bool {
        &&& self.results@.len() == self.chunks_total
        &&& self.chunks_done == count_received(self.results@)
        &&& forall|t: int|
            0 <= t < self.results@.len() && (#[trigger] self.results@[t]) is Some ==> {
                &&& self.results@[t]->0.task_id == t
                &&& self.results@[t]->0.job_id@ == job_id
            }
    }
}

/// The answer to a job creation.
#[derive(Debug)]
pub struct JobCreatedResponse {
    pub job_id: String,
    pub img_width: usize,
    pub img_height: usize,
    pub max_iter: u32,
}

/// The answer to a status query for one job.
#[derive(Debug)]
pub struct JobStatusResponse {
    pub job_id: String,
    pub status: JobStatus,
    pub chunks_done: usize,
    pub chunks_total: usize,
    pub img_width: usize,
    pub img_height: usize,
    pub max_iter: u32,
}

/// One line of the job listing.
#[derive(Debug)]
pub struct JobSummary {
    pub job_id: String,
    pub status: JobStatus,
    pub img_width: usize,
    pub img_height: usize,
    pub max_iter: u32,
}

/// The answer to a job listing.
#[derive(Debug)]
pub struct ListJobsResponse {
    pub jobs: Vec<JobSummary>,
}

/// What travels over a worker connection.
#[derive(Debug)]
pub enum Message {
    AssignTask(MandelbrotTask),
    SubmmitResult(TaskResult),
    Error(String),
}

proof fn lemma_count_received_bounded(rs: Seq<Option<TaskResult>>)
    ensures
        count_received(rs) <= rs.len(),
    decreases rs.len(),
{
    if rs.len() > 0 {
        lemma_count_received_bounded(rs.drop_last());
    }
}

/// Filling an empty slot raises the count by one.
pub proof fn lemma_count_received_fill(rs: Seq<Option<TaskResult>>, t: int, r: TaskResult)
    requires
        0 <= t < rs.len(),
        rs[t] is None,
    ensures
        count_received(rs.update(t, Some(r))) == count_received(rs) + 1,
    decreases rs.len(),
{
    let us = rs.update(t, Some(r));
    if t == rs.len() - 1 {
        assert(us.drop_last() =~= rs.drop_last());
    } else {
        lemma_count_received_fill(rs.drop_last(), t, r);
        assert(us.drop_last() =~= rs.drop_last().update(t, Some(r)));
    }
}

/// A count equal to the length means every slot is filled.
pub proof fn lemma_count_received_full(rs: Seq<Option<TaskResult>>)
    requires
        count_received(rs) == rs.len(),
    ensures
        forall|t: int| 0 <= t < rs.len() ==> (#[trigger] rs[t]) is Some,
    decreases rs.len(),
{
    if rs.len() > 0 {
        lemma_count_received_bounded(rs.drop_last());
        lemma_count_received_full(rs.drop_last());
        assert forall|t: int| 0 <= t < rs.len() implies (#[trigger] rs[t]) is Some by {
            if t < rs.len() - 1 {
                assert(rs.drop_last()[t] == rs[t]);
            }
        }
    }
}

/// With one slot still empty, the count is below the length.
pub proof fn lemma_count_received_not_full(rs: Seq<Option<TaskResult>>, t: int)
    requires
        0 <= t < rs.len(),
        rs[t] is None,
    ensures
        count_received(rs) < rs.len(),
{
    lemma_count_received_bounded(rs);
    if count_received(rs) == rs.len() {
        lemma_count_received_full(rs);
    }
}

/// Slots that are all empty count zero.
pub proof fn lemma_count_received_empty(rs: Seq<Option<TaskResult>>)
    requires
        forall|t: int| 0 <= t < rs.len() ==> (#[trigger] rs[t]) is None,
    ensures
        count_received(rs) == 0,
    decreases rs.len(),
{
    if rs.len() > 0 {
        assert forall|t: int| 0 <= t < rs.drop_last().len() implies (#[trigger] rs.drop_last()[t]) is None by {
            assert(rs.drop_last()[t] == rs[t]);
        }
        lemma_count_received_empty(rs.drop_last());
    }
}

/// Slots that are all filled count their number.
pub proof fn lemma_all_received_counts_all(rs: Seq<Option<TaskResult>>)
    requires
        forall|t: int| 0 <= t < rs.len() ==> (#[trigger] rs[t]) is Some,
    ensures
        count_received(rs) == rs.len(),
    decreases rs.len(),
{
    if rs.len() > 0 {
        assert forall|t: int| 0 <= t < rs.drop_last().len() implies (#[trigger] rs.drop_last()[t]) is Some by {
            assert(rs.drop_last()[t] == rs[t]);
        }
        lemma_all_received_counts_all(rs.drop_last());
    }
}

} // verus!
