use mandelbrot_dist::hub::{output_path, AppState, Collected, DispatchOutcome, NextStep};
use mandelbrot_dist::models::{JobConfig, JobStatus, TaskResult};

fn config(workers: Option<usize>) -> JobConfig {
    JobConfig { num_workers: workers, img_width: 4, img_height: 8, max_iter: 50 }
}

fn result(job: &str, task_id: u32, row_start: usize) -> TaskResult {
    TaskResult {
        task_id,
        job_id: job.to_string(),
        worker_id: "10.0.0.2:4000".to_string(),
        row_start,
        pixels: vec![task_id; 4],
    }
}

fn drain(state: &mut AppState) -> Vec<(u32, String, usize, usize)> {
    let mut out = Vec::new();
    while let Some(t) = state.take_task() {
        out.push((t.id, t.job_id, t.row_start, t.row_end));
    }
    out
}

#[test]
fn a_new_hub_is_empty() {
    let mut s = AppState::new();
    assert_eq!(s.worker_count(), 0);
    assert!(s.take_task().is_none());
    assert!(s.list_jobs().jobs.is_empty());
}

#[test]
fn requested_workers_give_four_chunks_each() {
    let mut s = AppState::new();
    let resp = s.create_job_with_id("job-a".to_string(), config(Some(2)));
    assert_eq!(resp.job_id, "job-a");
    assert_eq!((resp.img_width, resp.img_height, resp.max_iter), (4, 8, 50));
    let queued = drain(&mut s);
    assert_eq!(queued.len(), 8);
    for (i, q) in queued.iter().enumerate() {
        assert_eq!(q.0, i as u32);
        assert_eq!(q.1, "job-a");
        assert_eq!((q.2, q.3), (i, i + 1));
    }
    let st = s.get_job_status(&"job-a".to_string()).unwrap();
    assert!(matches!(st.status, JobStatus::Running { chunks_done: 0, chunks_total: 8 }));
    assert_eq!((st.chunks_done, st.chunks_total), (0, 8));
}

#[test]
fn without_workers_a_job_is_planned_for_one() {
    let mut s = AppState::new();
    s.create_job_with_id("j".to_string(), config(None));
    assert_eq!(drain(&mut s).len(), 4);
}

#[test]
fn zero_requested_workers_falls_back_to_connected_ones() {
    let mut s = AppState::new();
    s.register_worker("a:1".to_string());
    s.register_worker("b:2".to_string());
    s.register_worker("c:3".to_string());
    s.create_job_with_id("j".to_string(), config(Some(0)));
    assert_eq!(drain(&mut s).len(), 12);
}

#[test]
fn chunk_count_overflow_is_detected() {
    let s = AppState::new();
    assert!(s.chunk_count_fits(&config(Some(10))));
    assert!(!s.chunk_count_fits(&config(Some(usize::MAX / 2))));
}

#[test]
fn a_random_job_id_is_a_version_four_uuid() {
    let mut s = AppState::new();
    let resp = s.create_job(config(Some(1)));
    let id: Vec<char> = resp.job_id.chars().collect();
    assert_eq!(id.len(), 36);
    for i in [8, 13, 18, 23] {
        assert_eq!(id[i], '-');
    }
    assert_eq!(id[14], '4');
    assert!(matches!(id[19], '8' | '9' | 'a' | 'b'));
    assert!(s.get_job_status(&resp.job_id).is_some());
}

#[test]
fn a_uuid_job_id_is_its_hyphenated_lowercase_text() {
    let mut s = AppState::new();
    let resp = s.create_job_from_uuid(0x0123_4567_89ab_cdef_0123_4567_89ab_cdef, config(Some(1)));
    assert_eq!(resp.job_id, "01234567-89ab-cdef-0123-456789abcdef");
    let resp = s.create_job_from_uuid(0, config(Some(1)));
    assert_eq!(resp.job_id, "00000000-0000-0000-0000-000000000000");
}

#[test]
fn results_are_counted_until_the_job_is_complete() {
    let mut s = AppState::new();
    s.create_job_with_id("job-b".to_string(), config(Some(1)));
    for k in 0..3u32 {
        let r = result("job-b", k, 2 * k as usize);
        assert!(s.result_in_range(&r));
        match s.record_result(r) {
            Collected::Progress { chunks_done, chunks_total } => {
                assert_eq!((chunks_done, chunks_total), (k as usize + 1, 4));
            }
            _ => panic!("expected progress"),
        }
        let st = s.get_job_status(&"job-b".to_string()).unwrap();
        assert!(matches!(st.status, JobStatus::Running { chunks_done, chunks_total: 4 } if chunks_done == k as usize + 1));
    }
    match s.record_result(result("job-b", 3, 6)) {
        Collected::Complete { job_id, output_path, results, img_width, img_height, max_iter } => {
            assert_eq!(job_id, "job-b");
            assert_eq!(output_path, "output/job-b.png");
            assert_eq!((img_width, img_height, max_iter), (4, 8, 50));
            let ids: Vec<u32> = results.iter().map(|r| r.task_id).collect();
            assert_eq!(ids, vec![0, 1, 2, 3]);
            assert_eq!(results[2].pixels, vec![2, 2, 2, 2]);
        }
        _ => panic!("expected completion"),
    }
    let st = s.get_job_status(&"job-b".to_string()).unwrap();
    assert_eq!(st.chunks_done, 4);
    assert!(matches!(st.status, JobStatus::Running { chunks_done: 3, chunks_total: 4 }));
}

#[test]
fn a_duplicate_result_is_ignored() {
    let mut s = AppState::new();
    s.create_job_with_id("j".to_string(), config(Some(1)));
    assert!(matches!(s.record_result(result("j", 1, 2)), Collected::Progress { chunks_done: 1, .. }));
    assert!(matches!(s.record_result(result("j", 1, 2)), Collected::Duplicate));
    assert_eq!(s.get_job_status(&"j".to_string()).unwrap().chunks_done, 1);
}

#[test]
fn a_result_for_an_unknown_job_is_ignored() {
    let mut s = AppState::new();
    s.create_job_with_id("j".to_string(), config(Some(1)));
    assert!(matches!(s.record_result(result("other", 0, 0)), Collected::UnknownJob));
    assert_eq!(s.get_job_status(&"j".to_string()).unwrap().chunks_done, 0);
}

#[test]
fn an_out_of_range_chunk_is_reported() {
    let mut s = AppState::new();
    s.create_job_with_id("j".to_string(), config(Some(1)));
    assert!(!s.result_in_range(&result("j", 4, 0)));
    assert!(s.result_in_range(&result("j", 3, 0)));
    assert!(s.result_in_range(&result("unknown", 99, 0)));
}

#[test]
fn a_saved_image_marks_the_job_done() {
    let mut s = AppState::new();
    s.create_job_with_id("j".to_string(), config(Some(1)));
    s.finish_job(&"j".to_string(), Ok(()));
    match s.get_job_status(&"j".to_string()).unwrap().status {
        JobStatus::Done { output_path } => assert_eq!(output_path, "output/j.png"),
        _ => panic!("expected done"),
    }
}

#[test]
fn a_failed_save_marks_the_job_failed() {
    let mut s = AppState::new();
    s.create_job_with_id("j".to_string(), config(Some(1)));
    s.finish_job(&"j".to_string(), Err("disk full".to_string()));
    match s.get_job_status(&"j".to_string()).unwrap().status {
        JobStatus::Failed { reason } => assert_eq!(reason, "disk full"),
        _ => panic!("expected failed"),
    }
}

#[test]
fn finishing_an_unknown_job_changes_nothing() {
    let mut s = AppState::new();
    s.create_job_with_id("j".to_string(), config(Some(1)));
    s.finish_job(&"x".to_string(), Ok(()));
    assert!(matches!(s.get_job_status(&"j".to_string()).unwrap().status, JobStatus::Running { .. }));
}

#[test]
fn an_unknown_job_has_no_status() {
    let s = AppState::new();
    assert!(s.get_job_status(&"nope".to_string()).is_none());
}

#[test]
fn jobs_are_listed_in_creation_order() {
    let mut s = AppState::new();
    s.create_job_with_id("first".to_string(), config(Some(1)));
    s.create_job_with_id("second".to_string(), JobConfig {
        num_workers: Some(1),
        img_width: 10,
        img_height: 20,
        max_iter: 7,
    });
    let list = s.list_jobs().jobs;
    assert_eq!(list.len(), 2);
    assert_eq!(list[0].job_id, "first");
    assert_eq!(list[1].job_id, "second");
    assert_eq!((list[1].img_width, list[1].img_height, list[1].max_iter), (10, 20, 7));
    assert!(matches!(list[1].status, JobStatus::Running { chunks_done: 0, chunks_total: 4 }));
}

#[test]
fn recreating_a_job_id_replaces_the_job() {
    let mut s = AppState::new();
    s.create_job_with_id("j".to_string(), config(Some(1)));
    s.record_result(result("j", 0, 0));
    s.create_job_with_id("j".to_string(), config(Some(2)));
    let list = s.list_jobs().jobs;
    assert_eq!(list.len(), 1);
    let st = s.get_job_status(&"j".to_string()).unwrap();
    assert_eq!((st.chunks_done, st.chunks_total), (0, 8));
}

#[test]
fn chunks_are_handed_out_first_in_first_out() {
    let mut s = AppState::new();
    s.create_job_with_id("j".to_string(), config(Some(1)));
    let first = s.take_task().unwrap();
    assert_eq!(first.id, 0);
    s.requeue_task(first);
    let order: Vec<u32> = drain(&mut s).iter().map(|t| t.0).collect();
    assert_eq!(order, vec![1, 2, 3, 0]);
}

#[test]
fn failed_dispatches_put_the_chunk_back() {
    let cases = [
        (DispatchOutcome::SerializeFailed, false),
        (DispatchOutcome::TimedOut, false),
        (DispatchOutcome::SendFailed, true),
        (DispatchOutcome::ReadFailed, true),
    ];
    for (outcome, disconnects) in cases {
        let mut s = AppState::new();
        s.create_job_with_id("j".to_string(), config(Some(1)));
        let t = s.take_task().unwrap();
        let step = s.settle_dispatch(t, outcome);
        if disconnects {
            assert!(matches!(step, NextStep::Disconnect));
        } else {
            assert!(matches!(step, NextStep::Continue));
        }
        let order: Vec<u32> = drain(&mut s).iter().map(|t| t.0).collect();
        assert_eq!(order, vec![1, 2, 3, 0]);
    }
}

#[test]
fn an_answered_dispatch_forwards_the_result() {
    let mut s = AppState::new();
    s.create_job_with_id("j".to_string(), config(Some(1)));
    let t = s.take_task().unwrap();
    match s.settle_dispatch(t, DispatchOutcome::Answered(result("j", 0, 0))) {
        NextStep::Forward(r) => assert_eq!((r.task_id, r.job_id.as_str()), (0, "j")),
        _ => panic!("expected forward"),
    }
    assert_eq!(drain(&mut s).len(), 3);
}

#[test]
fn workers_are_counted_once_each() {
    let mut s = AppState::new();
    s.register_worker("10.0.0.2:1".to_string());
    s.register_worker("10.0.0.3:1".to_string());
    s.register_worker("10.0.0.2:1".to_string());
    assert_eq!(s.worker_count(), 2);
    s.unregister_worker(&"10.0.0.2:1".to_string());
    assert_eq!(s.worker_count(), 1);
    s.unregister_worker(&"10.0.0.9:1".to_string());
    assert_eq!(s.worker_count(), 1);
}

#[test]
fn output_path_is_under_output() {
    assert_eq!(output_path(&"abc".to_string()), "output/abc.png");
}

#[test]
fn the_listing_agrees_with_each_lookup() {
    let mut s = AppState::new();
    s.create_job_with_id("a".to_string(), config(Some(1)));
    s.create_job_with_id("b".to_string(), config(Some(2)));
    s.record_result(result("b", 0, 0));
    for summary in s.list_jobs().jobs {
        let st = s.get_job_status(&summary.job_id).unwrap();
        assert_eq!(st.job_id, summary.job_id);
        match (summary.status, st.status) {
            (
                JobStatus::Running { chunks_done: a, chunks_total: b },
                JobStatus::Running { chunks_done: c, chunks_total: d },
            ) => assert_eq!((a, b), (c, d)),
            _ => panic!("expected running jobs"),
        }
    }
}

fn snapshot(s: &AppState, id: &str) -> (usize, usize, String) {
    let st = s.get_job_status(&id.to_string()).unwrap();
    (st.chunks_done, st.chunks_total, format!("{:?}", st.status))
}

#[test]
fn results_collected_in_any_order_give_the_same_jobs() {
    let orders: [[u32; 4]; 3] = [[0, 1, 2, 3], [3, 1, 0, 2], [2, 3, 1, 0]];
    let mut seen = Vec::new();
    for order in orders {
        let mut s = AppState::new();
        s.create_job_with_id("j".to_string(), config(Some(1)));
        s.create_job_with_id("k".to_string(), config(Some(1)));
        for &t in order.iter().take(3) {
            s.record_result(result("j", t, 0));
            s.record_result(result("k", t, 0));
        }
        seen.push((snapshot(&s, "j"), snapshot(&s, "k")));
        s.record_result(result("j", order[3], 0));
        seen.push((snapshot(&s, "j"), snapshot(&s, "k")));
    }
    assert_eq!(seen[0].0 .0, 3);
    assert_eq!(seen[1].0, (4, 4, "Running { chunks_done: 3, chunks_total: 4 }".to_string()));
    for k in [2, 4] {
        assert_eq!(seen[k - 2].1 .2, seen[k].1 .2);
        assert_eq!(seen[k - 1], seen[k + 1]);
    }
}

#[test]
fn a_job_keeps_its_shape_through_later_operations() {
    let mut s = AppState::new();
    s.create_job_with_id("j".to_string(), JobConfig { num_workers: Some(2), img_width: 9, img_height: 16, max_iter: 77 });
    s.record_result(result("j", 5, 0));
    s.create_job_with_id("other".to_string(), config(Some(1)));
    s.finish_job(&"other".to_string(), Ok(()));
    s.finish_job(&"j".to_string(), Err("x".to_string()));
    let st = s.get_job_status(&"j".to_string()).unwrap();
    assert_eq!((st.img_width, st.img_height, st.max_iter, st.chunks_total), (9, 16, 77, 8));
    let listed: Vec<_> = s.list_jobs().jobs.into_iter().filter(|j| j.job_id == "j").collect();
    assert_eq!(listed.len(), 1);
    assert_eq!((listed[0].img_width, listed[0].img_height, listed[0].max_iter), (9, 16, 77));
}
