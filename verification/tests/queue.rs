use mpv_stt_server::jobs::JobQueue;
use mpv_stt_server::protocol::TranscriptionJob;

fn job(request_id: u64, byte: u8) -> TranscriptionJob {
    TranscriptionJob { request_id, audio_data: vec![byte], duration_ms: 10 }
}

fn drain(queue: &mut JobQueue) -> Vec<(u64, u8)> {
    let mut taken = Vec::new();
    while let Some(job) = queue.next_job() {
        taken.push((job.request_id, job.audio_data[0]));
    }
    taken
}

#[test]
fn jobs_are_taken_in_order() {
    let mut queue = JobQueue::new();
    assert!(queue.next_job().is_none());
    queue.submit_job(job(3, 1));
    queue.submit_job(job(1, 2));
    assert_eq!(queue.next_job().map(|j| j.request_id), Some(3));
    queue.submit_job(job(2, 3));
    assert_eq!(drain(&mut queue), vec![(1, 2), (2, 3)]);
}

#[test]
fn cancelled_jobs_are_skipped() {
    let mut queue = JobQueue::new();
    for (id, byte) in [(1, 1), (2, 2), (1, 3), (3, 4), (2, 5)] {
        queue.submit_job(job(id, byte));
    }
    queue.cancel_request(1);
    queue.cancel_request(9);
    assert_eq!(drain(&mut queue), vec![(2, 2), (3, 4), (2, 5)]);
}

#[test]
fn a_job_submitted_after_a_cancellation_is_done() {
    let mut queue = JobQueue::new();
    queue.submit_job(job(1, 1));
    queue.cancel_request(1);
    queue.submit_job(job(1, 2));
    assert_eq!(drain(&mut queue), vec![(1, 2)]);
}
