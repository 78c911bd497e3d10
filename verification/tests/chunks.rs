use mandelbrot_dist::models::{JobConfig, MandelbrotTask, TaskResult};
use mandelbrot_dist::tasks::{assemble_pixels, calculate_timeout, divide_into_chunks};

fn config(width: usize, height: usize, max_iter: u32) -> JobConfig {
    JobConfig { num_workers: None, img_width: width, img_height: height, max_iter }
}

fn task(row_start: usize, row_end: usize, width: usize, max_iter: u32) -> MandelbrotTask {
    MandelbrotTask {
        id: 0,
        job_id: "j".to_string(),
        row_start,
        row_end,
        total_width: width,
        total_height: row_end,
        max_iter,
    }
}

fn result(row_start: usize, pixels: Vec<u32>) -> TaskResult {
    TaskResult {
        task_id: 0,
        job_id: "j".to_string(),
        worker_id: "w".to_string(),
        row_start,
        pixels,
    }
}

#[test]
fn chunks_split_rows_and_last_takes_the_rest() {
    let tasks = divide_into_chunks("job-1", &config(8, 10, 100), 3);
    assert_eq!(tasks.len(), 3);
    let rows: Vec<(usize, usize)> = tasks.iter().map(|t| (t.row_start, t.row_end)).collect();
    assert_eq!(rows, vec![(0, 3), (3, 6), (6, 10)]);
    for (i, t) in tasks.iter().enumerate() {
        assert_eq!(t.id, i as u32);
        assert_eq!(t.job_id, "job-1");
        assert_eq!(t.total_width, 8);
        assert_eq!(t.total_height, 10);
        assert_eq!(t.max_iter, 100);
    }
}

#[test]
fn more_chunks_than_rows_leaves_all_rows_to_the_last() {
    let tasks = divide_into_chunks("j", &config(4, 3, 10), 5);
    let rows: Vec<(usize, usize)> = tasks.iter().map(|t| (t.row_start, t.row_end)).collect();
    assert_eq!(rows, vec![(0, 0), (0, 0), (0, 0), (0, 0), (0, 3)]);
}

#[test]
fn chunks_of_the_readme_job() {
    let tasks = divide_into_chunks("j", &config(1200, 1200, 8500), 4);
    let rows: Vec<(usize, usize)> = tasks.iter().map(|t| (t.row_start, t.row_end)).collect();
    assert_eq!(rows, vec![(0, 300), (300, 600), (600, 900), (900, 1200)]);
}

#[test]
fn timeout_is_the_estimate_between_bounds() {
    // 300 rows of 1200 pixels at 8500 iterations: 3.06e9 / 1e7 = 306 s
    assert_eq!(calculate_timeout(&task(0, 300, 1200, 8500)), 306);
}

#[test]
fn timeout_has_a_floor_of_thirty_seconds() {
    assert_eq!(calculate_timeout(&task(0, 10, 10, 10)), 30);
    assert_eq!(calculate_timeout(&task(5, 5, 1000, 1000)), 30);
}

#[test]
fn timeout_has_a_ceiling_of_two_hours() {
    assert_eq!(calculate_timeout(&task(0, 10_000, 10_000, 1_000_000)), 7200);
}

#[test]
fn assembly_places_each_result_at_its_rows() {
    let rs = vec![result(1, vec![5, 6]), result(0, vec![1, 2])];
    assert_eq!(assemble_pixels(&rs, 2, 3), vec![1, 2, 5, 6, 0, 0]);
}

#[test]
fn assembly_lets_a_later_result_overwrite() {
    let rs = vec![result(0, vec![1, 1, 1, 1]), result(1, vec![9, 9])];
    assert_eq!(assemble_pixels(&rs, 2, 2), vec![1, 1, 9, 9]);
}

#[test]
fn assembly_drops_pixels_past_the_image() {
    let rs = vec![result(1, vec![7, 8, 9, 10])];
    assert_eq!(assemble_pixels(&rs, 2, 2), vec![0, 0, 7, 8]);
}

#[test]
fn assembly_of_split_chunks_restores_every_pixel() {
    let tasks = divide_into_chunks("j", &config(3, 5, 10), 2);
    let rs: Vec<TaskResult> = tasks
        .iter()
        .map(|t| {
            let pixels = (t.row_start * 3..t.row_end * 3).map(|p| p as u32 + 100).collect();
            result(t.row_start, pixels)
        })
        .collect();
    let image = assemble_pixels(&rs, 3, 5);
    let expected: Vec<u32> = (0..15).map(|p| p + 100).collect();
    assert_eq!(image, expected);
}

#[test]
fn assembly_of_nothing_is_black() {
    assert_eq!(assemble_pixels(&[], 2, 2), vec![0, 0, 0, 0]);
}
