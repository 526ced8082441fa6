use vstd::prelude::*;
use std::collections::VecDeque;

verus! {

/// What a worker receives: a job to run, or the signal to stop.
pub enum Message<J> {
    NewJob(J),
    Terminate,
}

/// The single queue that all workers of a pool take messages from.
/// Messages leave in the order in which they arrived.
pub struct JobQueue<J> {
    messages: VecDeque<Message<J>>,
}

impl<J> View for JobQueue<J> {
    type V = Seq<Message<J>>;

    closed spec fn view(&self) -> Seq<Message<J>> {
        self.messages@
    }
}

impl<J> JobQueue<J> {
    pub fn new() -> (r: JobQueue<J>)
        ensures
            r@ == Seq::<Message<J>>::empty(),
    {
        JobQueue { messages: VecDeque::new() }
    }

    /// Enqueues a job behind all pending messages.
    pub fn execute(&mut self, job: J)
        ensures
            final(self)@ == old(self)@.push(Message::NewJob(job)),
    {
        self.messages.push_back(Message::NewJob(job));
    }

    /// Enqueues one terminate message per worker, behind all pending jobs.
    pub fn terminate_all(&mut self, workers: usize)
        ensures
            final(self)@ == old(self)@ + terminations(workers as nat),
    {
        let mut i: usize = 0;
        while i < workers
            invariant
                i <= workers,
                self@ == old(self)@ + terminations(i as nat),
            decreases workers - i,
        {
            self.messages.push_back(Message::Terminate);
            assert(terminations::<J>((i + 1) as nat) =~= terminations::<J>(i as nat).push(Message::Terminate));
            i += 1;
        }
    }

    /// Takes the oldest message, if there is one.
    pub fn receive(&mut self) -> (r: Option<Message<J>>)
        ensures
            old(self)@.len() == 0 ==> r is None && final(self)@ == old(self)@,
            old(self)@.len() > 0 ==> r == Some(old(self)@[0]) && final(self)@ == old(self)@.drop_first(),
    {
        self.messages.pop_front()
    }

    pub fn len(&self) -> (r: usize)
        ensures
            r == self@.len(),
    {
        self.messages.len()
    }
}

/// `n` terminate messages.
pub open spec fn terminations<J>(n: nat) -> Seq<Message<J>> {
    Seq::new(n, |i: int| Message::Terminate)
}

/// The messages that submitting `jobs` in order gives.
pub open spec fn job_messages<J>(jobs: Seq<J>) -> Seq<Message<J>> {
    jobs.map_values(|j: J| Message::NewJob(j))
}

/// The state of a pool after its workers have taken the messages `q` in turn,
/// starting with `alive` running workers and the jobs `done` already run:
/// the workers still running and the jobs run, in order.
pub open spec fn drain<J>(q: Seq<Message<J>>, alive: nat, done: Seq<J>) -> (nat, Seq<J>)
    decreases q.len(),
{
    if q.len() == 0 {
        (alive, done)
    } else {
        match q[0] {
            Message::NewJob(j) => drain(q.drop_first(), alive, done.push(j)),
            Message::Terminate => drain(
                q.drop_first(),
                if alive > 0 { (alive - 1) as nat } else { 0 },
                done,
            ),
        }
    }
}

proof fn lemma_drain_terminations<J>(n: nat, k: nat, alive: nat, done: Seq<J>)
    requires
        k <= n,
        alive >= k,
    ensures
        drain(terminations::<J>(n).take(k as int), alive, done) == ((alive - k) as nat, done),
    decreases k,
{
    if k > 0 {
        let q = terminations::<J>(n).take(k as int);
        assert(q.drop_first() =~= terminations::<J>(n).take(k - 1).subrange(0, k - 1));
        assert(q.drop_first() =~= terminations::<J>((n - 1) as nat).take(k - 1));
        lemma_drain_terminations::<J>((n - 1) as nat, (k - 1) as nat, (alive - 1) as nat, done);
    } else {
        assert(terminations::<J>(n).take(0) =~= Seq::<Message<J>>::empty());
    }
}

proof fn lemma_drain_jobs_then<J>(jobs: Seq<J>, rest: Seq<Message<J>>, alive: nat, done: Seq<J>)
    ensures
        drain(job_messages(jobs) + rest, alive, done) == drain(rest, alive, done + jobs),
    decreases jobs.len(),
{
    if jobs.len() == 0 {
        assert(job_messages(jobs) + rest =~= rest);
        assert(done + jobs =~= done);
    } else {
        let q = job_messages(jobs) + rest;
        assert(q[0] == Message::NewJob(jobs[0]));
        assert(q.drop_first() =~= job_messages(jobs.drop_first()) + rest);
        lemma_drain_jobs_then(jobs.drop_first(), rest, alive, done.push(jobs[0]));
        assert(done.push(jobs[0]) + jobs.drop_first() =~= done + jobs);
    }
}

/// A pool of `n` workers that is sent `jobs` and then shut down runs every job
/// exactly once, in the order submitted; all `n` workers have stopped once every
/// message is taken, and while any terminate message is still queued at least
/// one worker is running.
pub proof fn law_pool_runs_each_job_once<J>(jobs: Seq<J>, n: nat)
    ensures
        drain(job_messages(jobs) + terminations::<J>(n), n, Seq::empty()) == (0nat, jobs),
        forall|k: nat|
            k < n ==> (#[trigger] drain(job_messages(jobs) + terminations::<J>(n).take(k as int), n, Seq::empty())).0 > 0,
{
    lemma_drain_jobs_then(jobs, terminations::<J>(n), n, Seq::empty());
    assert(Seq::<J>::empty() + jobs =~= jobs);
    assert(terminations::<J>(n).take(n as int) =~= terminations::<J>(n));
    lemma_drain_terminations::<J>(n, n, n, jobs);
    assert forall|k: nat| k < n implies (#[trigger] drain(
        job_messages(jobs) + terminations::<J>(n).take(k as int),
        n,
        Seq::empty(),
    )).0 > 0 by {
        lemma_drain_jobs_then(jobs, terminations::<J>(n).take(k as int), n, Seq::empty());
        lemma_drain_terminations::<J>(n, k, n, jobs);
    }
}

} // verus!
