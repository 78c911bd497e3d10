//! Splitting a job into row chunks, and the time a chunk is allowed to take.

use vstd::prelude::*;
use crate::models::{JobConfig, MandelbrotTask, TaskResult};

verus! {

/// First row of chunk `i` when `height` rows are split into `n` chunks.
pub open spec fn chunk_row_start(height: nat, n: nat, i: nat) -> nat {
    i * (height / n)
}

/// One past the last row of chunk `i`: the last chunk takes every row that
/// the even split leaves over.
pub open spec fn chunk_row_end(height: nat, n: nat, i: nat) -> nat {
    if i + 1 == n {
        height
    } else {
        (i + 1) * (height / n)
    }
}

/// `t` is chunk `i` of `n` of job `job_id` made with `config`.
pub open spec fn is_chunk_task(
    t: MandelbrotTask,
    job_id: Seq<char>,
    config: JobConfig,
    n: nat,
    i: nat,
) -> bool {
    &&& t.id == i as u32
    &&& t.job_id@ == job_id
    &&& t.row_start == chunk_row_start(config.img_height as nat, n, i)
    &&& t.row_end == chunk_row_end(config.img_height as nat, n, i)
    &&& t.total_width == config.img_width
    &&& t.total_height == config.img_height
    &&& t.max_iter == config.max_iter
}

proof fn lemma_chunk_start_bounded(height: nat, n: nat, i: nat)
    requires
        n > 0,
        i <= n,
    ensures
        chunk_row_start(height, n, i) <= height,
{
    let q = height / n;
    assert(i * q <= n * q) by (nonlinear_arith)
        requires
            i <= n,
    ;
    assert(n * q <= height) by (nonlinear_arith)
        requires
            n > 0,
            q == height / n,
    ;
}

/// Splits the rows of an image into `num_chunks` tasks of the same job.
pub fn divide_into_chunks(job_id: &str, config: &JobConfig, num_chunks: usize) -> (tasks: Vec<
    MandelbrotTask,
>)
    requires
        num_chunks > 0,
    ensures
        tasks.len() == num_chunks,
        forall|i: int|
            0 <= i < num_chunks ==> is_chunk_task(
                #[trigger] tasks[i],
                job_id@,
                *config,
                num_chunks as nat,
                i as nat,
            ),
{
    let total_width = config.img_width;
    let rows_per_chunk = config.img_height / num_chunks;
    let mut tasks: Vec<MandelbrotTask> = Vec::with_capacity(num_chunks);
    let mut i: usize = 0;
    while i < num_chunks
        invariant
            i <= num_chunks,
            num_chunks > 0,
            rows_per_chunk == config.img_height / num_chunks,
            total_width == config.img_width,
            tasks.len() == i,
            forall|k: int|
                0 <= k < i ==> is_chunk_task(
                    #[trigger] tasks[k],
                    job_id@,
                    *config,
                    num_chunks as nat,
                    k as nat,
                ),
        decreases num_chunks - i,
    {
        proof {
            lemma_chunk_start_bounded(config.img_height as nat, num_chunks as nat, i as nat);
            lemma_chunk_start_bounded(config.img_height as nat, num_chunks as nat, (i + 1) as nat);
        }
        let row_start = i * rows_per_chunk;
        let row_end = if i == num_chunks - 1 {
            config.img_height
        } else {
            (i + 1) * rows_per_chunk
        };
        tasks.push(
            MandelbrotTask {
                id: i as u32,
                job_id: job_id.to_string(),
                row_start,
                row_end,
                total_width,
                total_height: config.img_height,
                max_iter: config.max_iter,
            },
        );
        i = i + 1;
    }
    tasks
}

/// Chunk boundaries tile the rows of the image: the first chunk starts at
/// row 0, each chunk ends where the next one starts, the last one ends at
/// the last row, and no chunk runs backwards.
pub proof fn lemma_chunks_tile_rows(height: nat, n: nat)
    requires
        n > 0,
    ensures
        chunk_row_start(height, n, 0) == 0,
        chunk_row_end(height, n, (n - 1) as nat) == height,
        forall|i: nat| i + 1 < n ==> chunk_row_end(height, n, i) == chunk_row_start(height, n, i + 1),
        forall|i: nat| i < n ==> chunk_row_start(height, n, i) <= chunk_row_end(height, n, i),
{
    assert forall|i: nat| i < n implies chunk_row_start(height, n, i) <= chunk_row_end(height, n, i) by {
        if i + 1 == n {
            lemma_chunk_start_bounded(height, n, i);
        } else {
            let q = height / n;
            assert(i * q <= (i + 1) * q) by (nonlinear_arith);
        }
    }
}

/// Every row of the image belongs to exactly one chunk.
pub proof fn lemma_each_row_in_one_chunk(height: nat, n: nat, row: nat)
    requires
        n > 0,
        row < height,
    ensures
        exists|i: nat|
            i < n && #[trigger] chunk_row_start(height, n, i) <= row < chunk_row_end(height, n, i),
        forall|i: nat, j: nat|
            #![trigger chunk_row_start(height, n, i), chunk_row_start(height, n, j)]
            i < n && j < n && chunk_row_start(height, n, i) <= row < chunk_row_end(height, n, i)
                && chunk_row_start(height, n, j) <= row < chunk_row_end(height, n, j) ==> i == j,
{
    let q = height / n;
    lemma_chunks_tile_rows(height, n);
    // the chunk that holds `row`
    let k: nat = if q == 0 { (n - 1) as nat } else if row / q >= n - 1 { (n - 1) as nat } else { row / q };
    assert(chunk_row_start(height, n, k) <= row < chunk_row_end(height, n, k)) by {
        if q == 0 {
            assert((n - 1) * q == 0) by (nonlinear_arith) requires q == 0;
        } else if row / q >= n - 1 {
            assert((n - 1) * q <= (row / q) * q) by (nonlinear_arith) requires row / q >= n - 1, q > 0;
            assert((row / q) * q <= row) by (nonlinear_arith) requires q > 0;
        } else {
            assert((row / q) * q <= row) by (nonlinear_arith) requires q > 0;
            assert(row < (row / q + 1) * q) by (nonlinear_arith) requires q > 0;
        }
    }
    assert forall|i: nat, j: nat|
        #![trigger chunk_row_start(height, n, i), chunk_row_start(height, n, j)]
        i < n && j < n && chunk_row_start(height, n, i) <= row < chunk_row_end(height, n, i)
            && chunk_row_start(height, n, j) <= row < chunk_row_end(height, n, j) implies i == j by {
        if i < j {
            // the end of chunk i is at most the start of chunk j
            assert(chunk_row_end(height, n, i) <= chunk_row_start(height, n, j)) by {
                assert(i + 1 < n);
                assert((i + 1) * q <= j * q) by (nonlinear_arith) requires i + 1 <= j;
            }
        } else if j < i {
            assert(chunk_row_end(height, n, j) <= chunk_row_start(height, n, i)) by {
                assert(j + 1 < n);
                assert((j + 1) * q <= i * q) by (nonlinear_arith) requires j + 1 <= i;
            }
        }
    }
}

/// Expected seconds of work for a chunk: pixels times iterations, at ten
/// million iterations per second.
pub open spec fn timeout_estimate(task: MandelbrotTask) -> int {
    ((task.row_end - task.row_start) * task.total_width * task.max_iter) / 10_000_000
}

/// `x` brought into `[lo, hi]`.
pub open spec fn clamp(x: int, lo: int, hi: int) -> int {
    if x < lo {
        lo
    } else if x > hi {
        hi
    } else {
        x
    }
}

/// How long the hub waits for a worker to answer a chunk: the estimate,
/// kept between 30 seconds and two hours.
pub fn calculate_timeout(task: &MandelbrotTask) -> (secs: u64)
    requires
        task.row_start <= task.row_end,
        (task.row_end - task.row_start) * task.total_width <= usize::MAX,
        (task.row_end - task.row_start) * task.total_width * task.max_iter <= u64::MAX,
    ensures
        secs == clamp(timeout_estimate(*task), 30, 7200),
        30 <= secs <= 7200,
{
    let pixels = (task.row_end - task.row_start) * task.total_width;
    let estimate = (pixels as u64 * task.max_iter as u64) / 10_000_000;
    if estimate < 30 {
        30
    } else if estimate > 7200 {
        7200
    } else {
        estimate
    }
}

/// `buf` after the pixels of `r` are written from row `r.row_start` on;
/// pixels that would fall past the end of `buf` are dropped.
pub open spec fn paint(buf: Seq<u32>, width: nat, r: TaskResult) -> Seq<u32> {
    let offset = r.row_start * width;
    Seq::new(
        buf.len(),
        |p: int|
            if offset <= p < offset + r.pixels@.len() {
                r.pixels@[p - offset]
            } else {
                buf[p]
            },
    )
}

/// `buf` after every result of `rs` is painted, in order.
pub open spec fn paint_all(buf: Seq<u32>, width: nat, rs: Seq<TaskResult>) -> Seq<u32>
    decreases rs.len(),
{
    if rs.len() == 0 {
        buf
    } else {
        paint(paint_all(buf, width, rs.drop_last()), width, rs.last())
    }
}

/// An image of `n` zero pixels.
pub open spec fn blank(n: nat) -> Seq<u32> {
    Seq::new(n, |p: int| 0u32)
}

/// Whether every result can be placed without overflowing a `usize`.
pub open spec fn results_fit(results: Seq<TaskResult>, width: nat) -> bool {
    forall|k: int|
        0 <= k < results.len() ==> #[trigger] results[k].row_start * width + results[k].pixels@.len()
            <= usize::MAX
}

/// Lays the pixels of every result into one `width * height` image, row by
/// row; a later result overwrites an earlier one where they overlap.
pub fn assemble_pixels(results: &[TaskResult], width: usize, height: usize) -> (pixels: Vec<u32>)
    requires
        width * height <= usize::MAX,
        results_fit(results@, width as nat),
    ensures
        pixels@ == paint_all(blank((width * height) as nat), width as nat, results@),
{
    let total = width * height;
    let mut data: Vec<u32> = Vec::with_capacity(total);
    let mut p: usize = 0;
    while p < total
        invariant
            p <= total,
            data@ == blank(p as nat),
        decreases total - p,
    {
        data.push(0);
        p = p + 1;
        assert(data@ =~= blank(p as nat));
    }
    let mut k: usize = 0;
    while k < results.len()
        invariant
            k <= results.len(),
            total == width * height,
            results_fit(results@, width as nat),
            data@ == paint_all(blank(total as nat), width as nat, results@.subrange(0, k as int)),
        decreases results.len() - k,
    {
        let r = &results[k];
        assert(r.row_start * width + r.pixels@.len() <= usize::MAX);
        let ghost before = data@;
        let offset = r.row_start * width;
        let mut i: usize = 0;
        while i < r.pixels.len()
            invariant
                i <= r.pixels@.len(),
                offset == r.row_start * width,
                offset + r.pixels@.len() <= usize::MAX,
                data@.len() == before.len(),
                forall|p: int|
                    0 <= p < before.len() ==> #[trigger] data@[p] == if offset <= p < offset + i {
                        r.pixels@[p - offset]
                    } else {
                        before[p]
                    },
            decreases r.pixels@.len() - i,
        {
            if offset + i < data.len() {
                data.set(offset + i, r.pixels[i]);
            }
            i = i + 1;
        }
        proof {
            let rs = results@.subrange(0, k as int + 1);
            assert(rs.drop_last() =~= results@.subrange(0, k as int));
            assert(data@ =~= paint(before, width as nat, *r));
        }
        k = k + 1;
    }
    assert(results@.subrange(0, results@.len() as int) =~= results@);
    data
}

/// `rs` are the results of the `rs.len()` chunks of a `width` by `height`
/// image, in chunk order, each holding one pixel for every pixel of its rows.
pub open spec fn are_chunk_results(rs: Seq<TaskResult>, width: nat, height: nat) -> bool {
    &&& rs.len() > 0
    &&& forall|k: int|
        0 <= k < rs.len() ==> {
            &&& (#[trigger] rs[k]).row_start == chunk_row_start(height, rs.len(), k as nat)
            &&& rs[k].pixels@.len() == (chunk_row_end(height, rs.len(), k as nat) - chunk_row_start(
                height,
                rs.len(),
                k as nat,
            )) * width
        }
}

proof fn lemma_paint_all_len(buf: Seq<u32>, width: nat, rs: Seq<TaskResult>)
    ensures
        paint_all(buf, width, rs).len() == buf.len(),
    decreases rs.len(),
{
    if rs.len() > 0 {
        lemma_paint_all_len(buf, width, rs.drop_last());
    }
}

proof fn lemma_chunk_end_bounded(height: nat, n: nat, i: nat)
    requires
        n > 0,
        i < n,
    ensures
        chunk_row_end(height, n, i) <= height,
{
    if i + 1 < n {
        lemma_chunk_start_bounded(height, n, i + 1);
    }
}

proof fn lemma_assembly_prefix(rs: Seq<TaskResult>, width: nat, height: nat, m: int, k: int, p: int)
    requires
        are_chunk_results(rs, width, height),
        0 <= k < m <= rs.len(),
        chunk_row_start(height, rs.len(), k as nat) * width <= p,
        p < chunk_row_end(height, rs.len(), k as nat) * width,
    ensures
        paint_all(blank(width * height), width, rs.subrange(0, m))[p] == rs[k].pixels@[p
            - chunk_row_start(height, rs.len(), k as nat) * width],
    decreases m,
{
    let n = rs.len();
    let pre = rs.subrange(0, m);
    let start_k = chunk_row_start(height, n, k as nat);
    let end_k = chunk_row_end(height, n, k as nat);
    assert(pre.drop_last() =~= rs.subrange(0, m - 1));
    assert(pre.last() == rs[m - 1]);
    lemma_paint_all_len(blank(width * height), width, rs.subrange(0, m - 1));
    lemma_chunk_end_bounded(height, n, k as nat);
    assert(end_k * width <= height * width) by (nonlinear_arith)
        requires
            end_k <= height,
    ;
    assert(rs[k].row_start == start_k);
    if k == m - 1 {
        assert(p - start_k * width < rs[k].pixels@.len()) by (nonlinear_arith)
            requires
                p < end_k * width,
                rs[k].pixels@.len() == (end_k - start_k) * width,
        ;
    } else {
        lemma_assembly_prefix(rs, width, height, m - 1, k, p);
        // chunk m - 1 starts at or after the end of chunk k
        let q = height / n;
        let start_m = chunk_row_start(height, n, (m - 1) as nat);
        assert(end_k == (k + 1) * q);
        assert((k + 1) * q <= (m - 1) * q) by (nonlinear_arith)
            requires
                k + 1 <= m - 1,
        ;
        assert(end_k * width <= start_m * width) by (nonlinear_arith)
            requires
                end_k <= start_m,
        ;
        assert(rs[m - 1].row_start == start_m);
    }
}

/// Assembling the results of all the chunks of an image puts back, at every
/// pixel, the value that the chunk holding that pixel's row computed.
pub proof fn lemma_assembly_restores_chunks(rs: Seq<TaskResult>, width: nat, height: nat, k: int, p: int)
    requires
        are_chunk_results(rs, width, height),
        0 <= k < rs.len(),
        chunk_row_start(height, rs.len(), k as nat) * width <= p,
        p < chunk_row_end(height, rs.len(), k as nat) * width,
    ensures
        paint_all(blank(width * height), width, rs)[p] == rs[k].pixels@[p - rs[k].row_start * width],
{
    lemma_assembly_prefix(rs, width, height, rs.len() as int, k, p);
    assert(rs.subrange(0, rs.len() as int) =~= rs);
}

} // verus!
