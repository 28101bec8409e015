use raytracer::queue::{JobQueue, Next, SubmitError};

#[test]
fn equal_priorities_run_in_submission_order() {
    let mut q = JobQueue::new();
    let a = q.submit(0).unwrap();
    let b = q.submit(0).unwrap();
    let c = q.submit(0).unwrap();
    assert_eq!(a, u64::MAX);
    assert_eq!(b, u64::MAX - 1);
    assert_eq!(c, u64::MAX - 2);
    assert_eq!(q.next(), Next::Run { priority: 0, id: a });
    assert_eq!(q.next(), Next::Run { priority: 0, id: b });
    assert_eq!(q.next(), Next::Run { priority: 0, id: c });
    assert_eq!(q.next(), Next::Wait);
}

#[test]
fn higher_priority_runs_first() {
    let mut q = JobQueue::new();
    let low = q.submit(1).unwrap();
    let high = q.submit(5).unwrap();
    let mid = q.submit(3).unwrap();
    assert_eq!(q.next(), Next::Run { priority: 5, id: high });
    assert_eq!(q.next(), Next::Run { priority: 3, id: mid });
    assert_eq!(q.next(), Next::Run { priority: 1, id: low });
}

#[test]
fn empty_open_queue_waits() {
    let mut q = JobQueue::new();
    assert_eq!(q.next(), Next::Wait);
}

#[test]
fn closed_queue_drains_then_exits() {
    let mut q = JobQueue::new();
    let a = q.submit(2).unwrap();
    q.close();
    assert_eq!(q.submit(9), Err(SubmitError::Closed));
    assert_eq!(q.next(), Next::Run { priority: 2, id: a });
    assert_eq!(q.next(), Next::Exit);
    assert_eq!(q.next(), Next::Exit);
}

#[test]
fn every_submitted_job_is_handed_out_exactly_once() {
    let mut q = JobQueue::new();
    let mut ids = Vec::new();
    for p in [3u64, 1, 4, 1, 5, 9, 2, 6] {
        ids.push(q.submit(p).unwrap());
    }
    let mut seen = Vec::new();
    while let Next::Run { id, .. } = q.next() {
        seen.push(id);
    }
    seen.sort();
    ids.sort();
    assert_eq!(seen, ids);
}
