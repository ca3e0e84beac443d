//! Jobs on their way to the workers: first come, first served, unless the client gives up.

use crate::protocol::TranscriptionJob;
use std::collections::VecDeque;
use vstd::prelude::*;

verus! {

/// The jobs of all requests but one, in order.
pub open spec fn without(jobs: Seq<TranscriptionJob>, request_id: u64) -> Seq<TranscriptionJob> {
    jobs.filter(|job: TranscriptionJob| job.request_id != request_id)
}

/// The jobs of one request, in order.
pub open spec fn of_request(jobs: Seq<TranscriptionJob>, request_id: u64) -> Seq<TranscriptionJob> {
    jobs.filter(|job: TranscriptionJob| job.request_id == request_id)
}

/// The jobs that no worker has begun with.
#[derive(Debug)]
pub struct JobQueue {
    jobs: VecDeque<TranscriptionJob>,
}

impl View for JobQueue {
    type V = Seq<TranscriptionJob>;

    closed spec fn view(&self) -> Seq<TranscriptionJob> {
        self.jobs@
    }
}

impl JobQueue {
    /// A queue without jobs.
    pub fn new() -> (queue: JobQueue)
        ensures
            queue@ == Seq::<TranscriptionJob>::empty(),
    {
        JobQueue { jobs: VecDeque::new() }
    }

    /// Puts a job behind the others.
    pub fn submit_job(&mut self, job: TranscriptionJob)
        ensures
            final(self)@ == old(self)@.push(job),
    {
        self.jobs.push_back(job);
    }

    /// Skips the jobs of a request.
    pub fn cancel_request(&mut self, request_id: u64)
        ensures
            final(self)@ == without(old(self)@, request_id),
    {
        let ghost all = self@;
        let ghost other = |job: TranscriptionJob| job.request_id != request_id;
        let mut kept: VecDeque<TranscriptionJob> = VecDeque::new();
        let mut seen: Ghost<int> = Ghost(0);
        proof {
            reveal(Seq::filter);
            assert(all.take(0).filter(other) =~= Seq::<TranscriptionJob>::empty());
            assert(all.skip(0) =~= all);
        }
        while self.jobs.len() > 0
            invariant
                other == (|job: TranscriptionJob| job.request_id != request_id),
                0 <= seen@ <= all.len(),
                self.jobs@ == all.skip(seen@),
                kept@ == all.take(seen@).filter(other),
            decreases self.jobs@.len(),
        {
            if let Some(job) = self.jobs.pop_front() {
                proof {
                    reveal(Seq::filter);
                    let more = all.take(seen@ + 1);
                    assert(more.drop_last() =~= all.take(seen@));
                    assert(more.last() == job);
                    assert(self.jobs@ =~= all.skip(seen@ + 1));
                    seen@ = seen@ + 1;
                }
                if job.request_id != request_id {
                    kept.push_back(job);
                }
            }
        }
        assert(all.take(seen@) =~= all);
        self.jobs = kept;
    }

    /// Takes the job that has waited longest.
    pub fn next_job(&mut self) -> (job: Option<TranscriptionJob>)
        ensures
            match job {
                Some(job) => old(self)@.len() > 0 && old(self)@ == seq![job] + final(self)@,
                None => old(self)@.len() == 0 && final(self)@ == old(self)@,
            },
    {
        let job = self.jobs.pop_front();
        assert(job is Some ==> old(self)@ =~= seq![job->0] + self@);
        job
    }
}

/// Giving up a request skips all its jobs that wait, and touches no job of another request.
pub proof fn law_cancel_skips_waiting_jobs(
    jobs: Seq<TranscriptionJob>,
    request_id: u64,
    other: u64,
)
    ensures
        of_request(without(jobs, request_id), request_id) == Seq::<TranscriptionJob>::empty(),
        other != request_id ==> of_request(without(jobs, request_id), other) == of_request(
            jobs,
            other,
        ),
    decreases jobs.len(),
{
    reveal(Seq::filter);
    if jobs.len() > 0 {
        let fewer = jobs.drop_last();
        law_cancel_skips_waiting_jobs(fewer, request_id, other);
        if jobs.last().request_id != request_id {
            let kept = without(fewer, request_id);
            assert(kept.push(jobs.last()).drop_last() =~= kept);
        }
    }
}

/// A job is skipped for its request's sake alone: skipping goes through the queue job by job, and
/// keeps the order of those that stay.
pub proof fn law_skipping_goes_job_by_job(
    first: Seq<TranscriptionJob>,
    second: Seq<TranscriptionJob>,
    job: TranscriptionJob,
    request_id: u64,
)
    ensures
        without(first + second, request_id) == without(first, request_id) + without(
            second,
            request_id,
        ),
        without(seq![job], request_id) == if job.request_id == request_id {
            Seq::empty()
        } else {
            seq![job]
        },
{
    Seq::filter_distributes_over_add(
        first,
        second,
        |job: TranscriptionJob| job.request_id != request_id,
    );
    reveal(Seq::filter);
    assert(seq![job].drop_last() =~= Seq::<TranscriptionJob>::empty());
    assert(seq![job].last() == job);
    assert(without(seq![job].drop_last(), request_id) =~= Seq::<TranscriptionJob>::empty());
    assert(Seq::<TranscriptionJob>::empty().push(job) =~= seq![job]);
}

} // verus!
