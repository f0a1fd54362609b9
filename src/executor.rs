//! Cooperative background work: resumable jobs advanced a bounded number
//! of steps per tick, so that the frame loop stays responsive. The job
//! kind here orders catalog entries by their cell index.
use vstd::prelude::*;
use vstd::seq_lib::to_multiset_update;

verus! {

broadcast use {vstd::multiset::group_multiset_axioms, vstd::seq_lib::group_to_multiset_ensures};

pub open spec fn sorted(s: Seq<u64>) -> bool {
    forall|a: int, b: int| 0 <= a < b < s.len() ==> s[a] <= s[b]
}

/// A resumable sort: at each step the smallest remaining key moves to the
/// end of the sorted prefix.
pub struct SortJob {
    data: Vec<u64>,
    done: usize,
    input: Ghost<Seq<u64>>,
}

impl SortJob {
    pub closed spec fn input(&self) -> Seq<u64> {
        self.input@
    }

    pub closed spec fn data(&self) -> Seq<u64> {
        self.data@
    }

    pub closed spec fn progress(&self) -> nat {
        self.done as nat
    }

    pub closed spec fn wf(&self) -> bool {
        &&& self.done <= self.data@.len()
        &&& self.data@.to_multiset() == self.input@.to_multiset()
        &&& self.data@.len() == self.input@.len()
        &&& sorted(self.data@.subrange(0, self.done as int))
        &&& forall|a: int, b: int| 0 <= a < self.done <= b < self.data@.len() ==> self.data@[a] <= self.data@[b]
    }

    pub closed spec fn finished(&self) -> bool {
        self.done == self.data@.len()
    }

    pub fn new(keys: Vec<u64>) -> (r: SortJob)
        ensures
            r.wf(),
            r.input() == keys@,
            r.progress() == 0,
            r.finished() == (keys@.len() == 0),
    {
        let ghost input = keys@;
        SortJob { data: keys, done: 0, input: Ghost(input) }
    }

    pub fn is_finished(&self) -> (r: bool)
        ensures
            r == self.finished(),
    {
        self.done == self.data.len()
    }

    /// One step of work; a finished job is left as it is.
    pub fn step(&mut self)
        requires
            old(self).wf(),
        ensures
            final(self).wf(),
            final(self).input() == old(self).input(),
            !old(self).finished() ==> final(self).progress() == old(self).progress() + 1,
            old(self).finished() ==> final(self).progress() == old(self).progress() && final(self).finished(),
    {
        let n = self.data.len();
        if self.done >= n {
            return;
        }
        let i = self.done;
        let mut m = i;
        let mut j = i + 1;
        while j < n
            invariant
                n == self.data@.len(),
                i < n,
                i <= m < j <= n,
                forall|k: int| i <= k < j ==> self.data@[m as int] <= #[trigger] self.data@[k],
            decreases n - j,
        {
            if self.data[j] < self.data[m] {
                m = j;
            }
            j = j + 1;
        }
        let ghost s = self.data@;
        let a = self.data[i];
        let b = self.data[m];
        self.data.set(i, b);
        self.data.set(m, a);
        proof {
            to_multiset_update(s, i as int, b);
            to_multiset_update(s.update(i as int, b), m as int, a);
            assert(self.data@ == s.update(i as int, b).update(m as int, a));
            assert(self.data@.to_multiset() =~= s.to_multiset());
            assert(sorted(self.data@.subrange(0, i + 1))) by {
                assert forall|x: int, y: int| 0 <= x < y < i + 1 implies #[trigger] self.data@.subrange(0, i + 1)[x] <= #[trigger] self.data@.subrange(0, i + 1)[y] by {
                    if y < i {
                        assert(s.subrange(0, i as int)[x] <= s.subrange(0, i as int)[y]);
                    }
                }
            }
        }
        self.done = i + 1;
    }

    /// Hands the sorted keys out of a finished job.
    pub fn into_result(self) -> (r: Vec<u64>)
        requires
            self.wf(),
            self.finished(),
        ensures
            sorted(r@),
            r@.to_multiset() == self.input().to_multiset(),
    {
        proof {
            assert(self.data@.subrange(0, self.data@.len() as int) =~= self.data@);
        }
        self.data
    }
}

/// Identity of a spawned job.
pub type JobId = u64;

/// What the executor shows of a job.
pub struct JobView {
    pub id: JobId,
    pub input: Seq<u64>,
    pub finished: bool,
    pub progress: nat,
}

pub open spec fn job_view(id: JobId, j: SortJob) -> JobView {
    JobView { id, input: j.input(), finished: j.finished(), progress: j.progress() }
}

/// Steps run so far, over all the jobs.
pub open spec fn total_progress(s: Seq<JobView>) -> nat
    decreases s.len(),
{
    if s.len() == 0 {
        0
    } else {
        total_progress(s.drop_last()) + s.last().progress
    }
}

/// The finished jobs of `s`, in order.
pub open spec fn finished_of(s: Seq<JobView>) -> Seq<JobView>
    decreases s.len(),
{
    if s.len() == 0 {
        s
    } else if s.last().finished {
        finished_of(s.drop_last()).push(s.last())
    } else {
        finished_of(s.drop_last())
    }
}

/// The unfinished jobs of `s`, in order.
pub open spec fn unfinished_of(s: Seq<JobView>) -> Seq<JobView>
    decreases s.len(),
{
    if s.len() == 0 {
        s
    } else if !s.last().finished {
        unfinished_of(s.drop_last()).push(s.last())
    } else {
        unfinished_of(s.drop_last())
    }
}

pub open spec fn unique_job_ids(s: Seq<JobView>) -> bool {
    forall|i: int, j: int| 0 <= i < s.len() && 0 <= j < s.len() && i != j ==> (#[trigger] s[i]).id != (#[trigger] s[j]).id
}

/// `e` is the outcome of job `v`: its identity with its input keys in order.
pub open spec fn is_result_of(v: JobView, e: (JobId, Vec<u64>)) -> bool {
    &&& e.0 == v.id
    &&& sorted(e.1@)
    &&& e.1@.to_multiset() == v.input.to_multiset()
}

pub proof fn lemma_total_update(s: Seq<JobView>, k: int, v: JobView)
    requires
        0 <= k < s.len(),
    ensures
        total_progress(s.update(k, v)) + s[k].progress == total_progress(s) + v.progress,
    decreases s.len(),
{
    let t = s.update(k, v);
    if k == s.len() - 1 {
        assert(t.drop_last() =~= s.drop_last());
    } else {
        assert(t.drop_last() =~= s.drop_last().update(k, v));
        lemma_total_update(s.drop_last(), k, v);
    }
}

/// The unfinished jobs are jobs of `s`, and keep their identities unique.
pub proof fn lemma_unfinished_of(s: Seq<JobView>)
    requires
        unique_job_ids(s),
    ensures
        unique_job_ids(unfinished_of(s)),
        forall|k: int| 0 <= k < unfinished_of(s).len() ==> s.contains(#[trigger] unfinished_of(s)[k]),
    decreases s.len(),
{
    if s.len() > 0 {
        let d = s.drop_last();
        assert(unique_job_ids(d)) by {
            assert forall|i: int, j: int| 0 <= i < d.len() && 0 <= j < d.len() && i != j implies (#[trigger] d[i]).id != (#[trigger] d[j]).id by {
                assert(d[i] == s[i] && d[j] == s[j]);
            }
        }
        lemma_unfinished_of(d);
        let u = unfinished_of(d);
        assert forall|k: int| 0 <= k < u.len() implies s.contains(#[trigger] u[k]) by {
            let j = choose|j: int| 0 <= j < d.len() && d[j] == u[k];
            assert(s[j] == u[k]);
        }
        if !s.last().finished {
            let w = u.push(s.last());
            assert(s[s.len() - 1] == s.last());
            assert forall|a: int, b: int| 0 <= a < w.len() && 0 <= b < w.len() && a != b implies (#[trigger] w[a]).id != (#[trigger] w[b]).id by {
                if a < u.len() && b < u.len() {
                    assert(w[a] == u[a] && w[b] == u[b]);
                } else if a < u.len() {
                    let j = choose|j: int| 0 <= j < d.len() && d[j] == u[a];
                    assert(s[j] == d[j]);
                } else {
                    let j = choose|j: int| 0 <= j < d.len() && d[j] == u[b];
                    assert(s[j] == d[j]);
                }
            }
            assert forall|k: int| 0 <= k < w.len() implies s.contains(#[trigger] w[k]) by {
                if k < u.len() {
                    assert(w[k] == u[k]);
                }
            }
        }
    }
}

/// Runs spawned jobs a bounded number of steps per tick.
pub struct Executor {
    jobs: Vec<(JobId, SortJob)>,
    next_id: JobId,
}

impl Executor {
    /// Every job keeps its own invariant.
    pub closed spec fn jobs_ok(&self) -> bool {
        forall|k: int| 0 <= k < self.jobs@.len() ==> (#[trigger] self.jobs@[k]).1.wf()
    }

    /// Identities are unique and below the next one to hand out.
    pub open spec fn wf(&self) -> bool {
        &&& self.jobs_ok()
        &&& unique_job_ids(self.jobs_view())
        &&& forall|k: int| 0 <= k < self.jobs_view().len() ==> (#[trigger] self.jobs_view()[k]).id < self.next_id_spec()
    }

    /// The jobs not yet collected, in spawn order.
    pub closed spec fn jobs_view(&self) -> Seq<JobView> {
        self.jobs@.map_values(|e: (JobId, SortJob)| job_view(e.0, e.1))
    }

    pub closed spec fn next_id_spec(&self) -> JobId {
        self.next_id
    }

    pub fn new() -> (r: Executor)
        ensures
            r.wf(),
            r.jobs_view().len() == 0,
            r.next_id_spec() == 0,
    {
        Executor { jobs: Vec::new(), next_id: 0 }
    }

    /// Queues a job sorting `keys`; answers its identity.
    pub fn spawn(&mut self, keys: Vec<u64>) -> (id: JobId)
        requires
            old(self).wf(),
            old(self).next_id_spec() < u64::MAX,
        ensures
            final(self).wf(),
            id == old(self).next_id_spec(),
            final(self).next_id_spec() == id + 1,
            final(self).jobs_view() == old(self).jobs_view().push(
                JobView { id, input: keys@, finished: keys@.len() == 0, progress: 0 },
            ),
    {
        let id = self.next_id;
        let ghost input = keys@;
        let ghost v0 = self.jobs_view();
        let job = SortJob::new(keys);
        self.jobs.push((id, job));
        self.next_id = id + 1;
        proof {
            assert forall|k: int| 0 <= k < self.jobs@.len() implies (#[trigger] self.jobs@[k]).1.wf() by {
                if k < old(self).jobs@.len() {
                    assert(self.jobs@[k] == old(self).jobs@[k]);
                }
            }
            let v = self.jobs_view();
            assert(v =~= v0.push(JobView { id, input, finished: input.len() == 0, progress: 0 }));
            assert forall|a: int, b: int| 0 <= a < v.len() && 0 <= b < v.len() && a != b implies (#[trigger] v[a]).id != (#[trigger] v[b]).id by {
                if a < v0.len() && b < v0.len() {
                    assert(v[a] == v0[a] && v[b] == v0[b]);
                } else if a < v0.len() {
                    assert(v[a] == v0[a]);
                } else {
                    assert(v[b] == v0[b]);
                }
            }
            assert forall|k: int| 0 <= k < v.len() implies (#[trigger] v[k]).id < self.next_id by {
                if k < v0.len() {
                    assert(v[k] == v0[k]);
                }
            }
        }
        id
    }

    /// Runs at most `budget` steps, taking the jobs in turn; answers the
    /// number of steps run, which is the progress made. A job keeps its
    /// progress between ticks, and a tick stops early only when every job
    /// is finished.
    pub fn tick(&mut self, budget: u64) -> (steps: u64)
        requires
            old(self).wf(),
        ensures
            final(self).wf(),
            steps <= budget,
            final(self).next_id_spec() == old(self).next_id_spec(),
            final(self).jobs_view().len() == old(self).jobs_view().len(),
            total_progress(final(self).jobs_view()) == total_progress(old(self).jobs_view()) + steps,
            forall|k: int|
                0 <= k < old(self).jobs_view().len() ==> {
                    let a = #[trigger] old(self).jobs_view()[k];
                    let b = final(self).jobs_view()[k];
                    &&& b.id == a.id
                    &&& b.input == a.input
                    &&& b.progress >= a.progress
                    &&& (a.finished ==> b.finished)
                },
            steps < budget ==> forall|k: int| 0 <= k < final(self).jobs_view().len() ==> (#[trigger] final(self).jobs_view()[k]).finished,
    {
        let ghost v0 = self.jobs_view();
        let mut steps: u64 = 0;
        let mut idle_round = false;
        while steps < budget && !idle_round
            invariant
                self.jobs_ok(),
                steps <= budget,
                self.jobs_view().len() == v0.len(),
                self.next_id == old(self).next_id,
                total_progress(self.jobs_view()) == total_progress(v0) + steps,
                forall|k: int|
                    0 <= k < v0.len() ==> {
                        let a = #[trigger] v0[k];
                        let b = self.jobs_view()[k];
                        &&& b.id == a.id
                        &&& b.input == a.input
                        &&& b.progress >= a.progress
                        &&& (a.finished ==> b.finished)
                    },
                idle_round ==> forall|k: int| 0 <= k < self.jobs_view().len() ==> (#[trigger] self.jobs_view()[k]).finished,
            decreases budget - steps + if idle_round { 0int } else { 1int },
        {
            let ghost start = steps;
            idle_round = true;
            let mut k: usize = 0;
            let n = self.jobs.len();
            while k < n && steps < budget
                invariant
                    self.jobs_ok(),
                    steps <= budget,
                    n == self.jobs@.len(),
                    self.jobs_view().len() == v0.len(),
                    self.next_id == old(self).next_id,
                    k <= n,
                    steps >= start,
                    start < budget,
                    !idle_round ==> steps > start,
                    idle_round ==> steps == start,
                    total_progress(self.jobs_view()) == total_progress(v0) + steps,
                    idle_round ==> forall|j: int| 0 <= j < k ==> (#[trigger] self.jobs_view()[j]).finished,
                    forall|j: int|
                        0 <= j < v0.len() ==> {
                            let a = #[trigger] v0[j];
                            let b = self.jobs_view()[j];
                            &&& b.id == a.id
                            &&& b.input == a.input
                            &&& b.progress >= a.progress
                            &&& (a.finished ==> b.finished)
                        },
                decreases n - k,
            {
                let ghost before = self.jobs@;
                let ghost vb = self.jobs_view();
                let (id, mut job) = self.jobs.remove(k);
                proof {
                    assert(job.wf());
                    assert((id, job) == before[k as int]);
                    assert(vb[k as int] == job_view(id, job));
                }
                let ghost jb = job;
                if !job.is_finished() {
                    job.step();
                    steps = steps + 1;
                    idle_round = false;
                }
                self.jobs.insert(k, (id, job));
                proof {
                    assert(self.jobs@ == before.update(k as int, (id, job)));
                    assert(self.jobs_view() =~= vb.update(k as int, job_view(id, job)));
                    lemma_total_update(vb, k as int, job_view(id, job));
                    assert forall|j: int| 0 <= j < self.jobs@.len() implies (#[trigger] self.jobs@[j]).1.wf() by {}
                    assert forall|j: int|
                        0 <= j < v0.len() implies {
                            let a = #[trigger] v0[j];
                            let b = self.jobs_view()[j];
                            &&& b.id == a.id
                            &&& b.input == a.input
                            &&& b.progress >= a.progress
                            &&& (a.finished ==> b.finished)
                        } by {
                        assert(vb[j].id == v0[j].id);
                    }
                    if idle_round {
                        assert forall|j: int| 0 <= j < k + 1 implies (#[trigger] self.jobs_view()[j]).finished by {
                            if j < k {
                                assert(self.jobs_view()[j] == vb[j]);
                            }
                        }
                    }
                }
                k = k + 1;
            }
        }
        proof {
            let v = self.jobs_view();
            assert forall|a: int, b: int| 0 <= a < v.len() && 0 <= b < v.len() && a != b implies (#[trigger] v[a]).id != (#[trigger] v[b]).id by {
                assert(v0[a].id == v[a].id && v0[b].id == v[b].id);
            }
            assert forall|k: int| 0 <= k < v.len() implies (#[trigger] v[k]).id < self.next_id by {
                assert(v0[k].id == v[k].id);
            }
        }
        steps
    }

    /// Removes the finished jobs and hands out their sorted keys, in spawn
    /// order; unfinished jobs stay, in order.
    pub fn take_finished(&mut self) -> (r: Vec<(JobId, Vec<u64>)>)
        requires
            old(self).wf(),
        ensures
            final(self).wf(),
            final(self).next_id_spec() == old(self).next_id_spec(),
            final(self).jobs_view() == unfinished_of(old(self).jobs_view()),
            r@.len() == finished_of(old(self).jobs_view()).len(),
            forall|k: int| 0 <= k < r@.len() ==> is_result_of(finished_of(old(self).jobs_view())[k], #[trigger] r@[k]),
    {
        let ghost j0 = self.jobs@;
        let ghost v0 = self.jobs_view();
        let mut out: Vec<(JobId, Vec<u64>)> = Vec::new();
        let mut keep: Vec<(JobId, SortJob)> = Vec::new();
        let mut i: usize = 0;
        let n = self.jobs.len();
        while self.jobs.len() > 0
            invariant
                forall|k: int| 0 <= k < self.jobs@.len() ==> (#[trigger] self.jobs@[k]).1.wf(),
                self.next_id == old(self).next_id,
                self.jobs@ == j0.subrange(i as int, n as int),
                i <= n,
                n == j0.len(),
                v0 == j0.map_values(|e: (JobId, SortJob)| job_view(e.0, e.1)),
                forall|k: int| 0 <= k < keep@.len() ==> (#[trigger] keep@[k]).1.wf(),
                keep@.map_values(|e: (JobId, SortJob)| job_view(e.0, e.1)) == unfinished_of(v0.subrange(0, i as int)),
                out@.len() == finished_of(v0.subrange(0, i as int)).len(),
                forall|k: int| 0 <= k < out@.len() ==> is_result_of(finished_of(v0.subrange(0, i as int))[k], #[trigger] out@[k]),
            decreases self.jobs@.len(),
        {
            let (id, job) = self.jobs.remove(0);
            let ghost pre = v0.subrange(0, i as int);
            let ghost cur = v0.subrange(0, i + 1);
            proof {
                assert(job.wf());
                assert((id, job) == j0[i as int]);
                assert(v0[i as int] == job_view(id, job));
                assert(self.jobs@ =~= j0.subrange(i + 1, n as int));
                assert(cur.drop_last() =~= pre);
                assert(cur.last() == job_view(id, job));
            }
            let ghost kv = keep@.map_values(|e: (JobId, SortJob)| job_view(e.0, e.1));
            let ghost prev = out@;
            if job.is_finished() {
                let res = job.into_result();
                out.push((id, res));
                proof {
                    assert(keep@.map_values(|e: (JobId, SortJob)| job_view(e.0, e.1)) == unfinished_of(cur));
                    assert forall|k: int| 0 <= k < out@.len() implies is_result_of(finished_of(cur)[k], #[trigger] out@[k]) by {
                        if k < prev.len() {
                            assert(out@[k] == prev[k]);
                        }
                    }
                }
            } else {
                keep.push((id, job));
                proof {
                    assert(keep@.map_values(|e: (JobId, SortJob)| job_view(e.0, e.1)) =~= kv.push(job_view(id, job)));
                }
            }
            i = i + 1;
        }
        proof {
            assert(v0.subrange(0, n as int) =~= v0);
            lemma_unfinished_of(v0);
        }
        self.jobs = keep;
        proof {
            let v = self.jobs_view();
            assert(v == unfinished_of(v0));
            assert forall|k: int| 0 <= k < v.len() implies (#[trigger] v[k]).id < self.next_id by {
                let j = choose|j: int| 0 <= j < v0.len() && v0[j] == v[k];
            }
        }
        out
    }
}

} // verus!
