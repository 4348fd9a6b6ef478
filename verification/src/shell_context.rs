//! The state that commands read and change.
use vstd::prelude::*;

use crate::completion_registry::CompletionRegistry;
use crate::strmap::StrMap;
use crate::text::push_str;

verus! {

/// Shell variables, by name.
pub type Variables = StrMap<String>;

/// The variables as a map of character sequences.
pub open spec fn vars_view(v: &Variables) -> Map<Seq<char>, Seq<char>> {
    v.map().map_values(|s: String| s@)
}

/// A command started in the background: its job number, its text and its process id.
pub struct BackgroundJob {
    pub job_id: usize,
    pub command: String,
    pub pid: u32,
}

/// What `jobs` reports about a background job.
pub enum BackgroundJobStatus {
    Running(usize, String),
    Done(usize, String),
}

impl BackgroundJobStatus {
    /// The job number of the status.
    pub open spec fn id(&self) -> usize {
        match self {
            BackgroundJobStatus::Running(id, _) => *id,
            BackgroundJobStatus::Done(id, _) => *id,
        }
    }

    /// The job number of the status.
    pub fn job_id(&self) -> (r: usize)
        ensures
            r == self.id(),
    {
        match self {
            BackgroundJobStatus::Running(id, _) => *id,
            BackgroundJobStatus::Done(id, _) => *id,
        }
    }
}

/// The status as (done, job number, command).
pub open spec fn status_view(s: BackgroundJobStatus) -> (bool, usize, Seq<char>) {
    match s {
        BackgroundJobStatus::Running(id, c) => (false, id, c@),
        BackgroundJobStatus::Done(id, c) => (true, id, c@),
    }
}

/// The largest job number, or 0 when there are no jobs.
pub open spec fn max_job_id(jobs: Seq<BackgroundJob>) -> nat
    decreases jobs.len(),
{
    if jobs.len() == 0 {
        0
    } else {
        let m = max_job_id(jobs.drop_last());
        if jobs.last().job_id > m { jobs.last().job_id as nat } else { m }
    }
}

/// `p` taken relative to `dir` unless it is absolute.
pub open spec fn spec_resolve_path(dir: Seq<char>, p: Seq<char>) -> Seq<char> {
    if p.len() > 0 && p[0] == '/' {
        p
    } else if dir.len() == 0 {
        p
    } else if dir.last() == '/' {
        dir + p
    } else {
        dir + seq!['/'] + p
    }
}

/// Law: the number given to a new background job is used by no existing job.
pub proof fn law_new_job_id_is_fresh(jobs: Seq<BackgroundJob>)
    ensures
        forall|i: int| 0 <= i < jobs.len() ==> (#[trigger] jobs[i]).job_id != max_job_id(jobs) + 1,
{
    lemma_max_job_id(jobs);
}

/// Statuses ordered by job number.
pub open spec fn sorted_by_id(s: Seq<BackgroundJobStatus>) -> bool {
    forall|i: int, j: int| 0 <= i < j < s.len() ==> (#[trigger] s[i]).id() <= (#[trigger] s[j]).id()
}

/// The mutable state of one shell session.
pub struct ShellContext {
    pub current_dir: String,
    pub previous_exit_code: i32,
    pub completions: CompletionRegistry,
    pub background_jobs: Vec<BackgroundJob>,
    pub history: Vec<String>,
    pub last_saved_history_index: usize,
    pub variables: Variables,
    pub should_exit: bool,
    pub requested_exit_code: i32,
    pub previous_dir: Option<String>,
}

proof fn lemma_max_job_id(jobs: Seq<BackgroundJob>)
    ensures
        forall|i: int| 0 <= i < jobs.len() ==> (#[trigger] jobs[i]).job_id <= max_job_id(jobs),
        jobs.len() > 0 ==> exists|i: int| 0 <= i < jobs.len() && (#[trigger] jobs[i]).job_id == max_job_id(jobs),
    decreases jobs.len(),
{
    if jobs.len() > 0 {
        lemma_max_job_id(jobs.drop_last());
        assert forall|i: int| 0 <= i < jobs.len() implies (#[trigger] jobs[i]).job_id <= max_job_id(jobs) by {
            if i < jobs.len() - 1 {
                assert(jobs[i] == jobs.drop_last()[i]);
            }
        }
        if jobs.last().job_id > max_job_id(jobs.drop_last()) || jobs.len() == 1 {
            assert(jobs[jobs.len() - 1].job_id == max_job_id(jobs));
        } else {
            let i = choose|i: int| 0 <= i < jobs.drop_last().len() && (#[trigger] jobs.drop_last()[i]).job_id == max_job_id(jobs.drop_last());
            assert(jobs[i] == jobs.drop_last()[i]);
        }
    }
}

impl ShellContext {
    /// A fresh session in `current_dir`.
    pub fn new(completions: CompletionRegistry, current_dir: String) -> (r: Self)
        ensures
            r.current_dir@ == current_dir@,
            r.previous_exit_code == 0,
            r.completions == completions,
            r.background_jobs@.len() == 0,
            r.history@.len() == 0,
            r.last_saved_history_index == 0,
            vars_view(&r.variables) == Map::<Seq<char>, Seq<char>>::empty(),
            !r.should_exit,
            r.requested_exit_code == 0,
            r.previous_dir is None,
    {
        let r = ShellContext {
            current_dir,
            previous_exit_code: 0,
            completions,
            background_jobs: Vec::new(),
            history: Vec::new(),
            last_saved_history_index: 0,
            variables: StrMap::new(),
            should_exit: false,
            requested_exit_code: 0,
            previous_dir: None,
        };
        assert(vars_view(&r.variables) =~= Map::<Seq<char>, Seq<char>>::empty());
        r
    }

    /// Sets the working directory.
    pub fn set_current_dir(&mut self, path: String)
        ensures
            final(self).current_dir@ == path@,
            *final(self) == (ShellContext { current_dir: final(self).current_dir, ..*old(self) }),
    {
        self.current_dir = path;
    }

    /// `path` taken relative to the working directory unless it is absolute.
    pub fn resolve_path(&self, path: &str) -> (r: String)
        ensures
            r@ == spec_resolve_path(self.current_dir@, path@),
    {
        let p = crate::text::to_chars(path);
        if p.len() > 0 && p[0] == '/' {
            return path.to_string();
        }
        let d = crate::text::to_chars(self.current_dir.as_str());
        if d.len() == 0 {
            return path.to_string();
        }
        let mut r = self.current_dir.clone();
        if d[d.len() - 1] != '/' {
            r.push('/');
        }
        push_str(&mut r, path);
        r
    }

    /// One more than the largest job number in use, or 1.
    pub fn next_job_id(&self) -> (r: usize)
        requires
            max_job_id(self.background_jobs@) < usize::MAX,
        ensures
            r == max_job_id(self.background_jobs@) + 1,
    {
        let mut m: usize = 0;
        let mut i: usize = 0;
        assert(self.background_jobs@.take(0) =~= Seq::<BackgroundJob>::empty());
        while i < self.background_jobs.len()
            invariant
                i <= self.background_jobs.len(),
                m == max_job_id(self.background_jobs@.take(i as int)),
            decreases self.background_jobs.len() - i,
        {
            assert(self.background_jobs@.take(i + 1).drop_last() =~= self.background_jobs@.take(i as int));
            if self.background_jobs[i].job_id > m {
                m = self.background_jobs[i].job_id;
            }
            i = i + 1;
        }
        assert(self.background_jobs@.take(i as int) =~= self.background_jobs@);
        m + 1
    }

    /// Records a new background job and returns its job number.
    pub fn add_background_job(&mut self, pid: u32, command: String) -> (job_id: usize)
        requires
            max_job_id(old(self).background_jobs@) < usize::MAX,
        ensures
            job_id == max_job_id(old(self).background_jobs@) + 1,
            final(self).background_jobs@.len() == old(self).background_jobs@.len() + 1,
            final(self).background_jobs@.drop_last() == old(self).background_jobs@,
            final(self).background_jobs@.last().job_id == job_id,
            final(self).background_jobs@.last().command@ == command@,
            final(self).background_jobs@.last().pid == pid,
            *final(self) == (ShellContext { background_jobs: final(self).background_jobs, ..*old(self) }),
    {
        let job_id = self.next_job_id();
        self.background_jobs.push(BackgroundJob { job_id, command, pid });
        assert(self.background_jobs@.drop_last() =~= old(self).background_jobs@);
        job_id
    }

    /// Reports every job, `finished[i]` telling whether job `i` has exited; finished
    /// jobs are dropped, running ones kept in order. The report is ordered by job
    /// number, jobs with equal numbers in the order they had.
    pub fn collect_job_statuses(&mut self, finished: &Vec<bool>) -> (statuses: Vec<BackgroundJobStatus>)
        requires
            finished.len() == old(self).background_jobs.len(),
        ensures
            statuses_view(statuses@) == sort_by_id(job_statuses(old(self).background_jobs@, finished@)),
            sorted_by_id(statuses@),
            final(self).background_jobs@ == running_jobs(old(self).background_jobs@, finished@),
            *final(self) == (ShellContext { background_jobs: final(self).background_jobs, ..*old(self) }),
    {
        let mut jobs: Vec<BackgroundJob> = Vec::new();
        std::mem::swap(&mut jobs, &mut self.background_jobs);
        let ghost all = jobs@;
        let mut statuses: Vec<BackgroundJobStatus> = Vec::new();
        let mut remaining: Vec<BackgroundJob> = Vec::new();
        let n = jobs.len();
        let mut i: usize = 0;
        assert(all.take(0) =~= Seq::<BackgroundJob>::empty());
        assert(finished@.take(0) =~= Seq::<bool>::empty());
        assert(job_statuses(all.take(0), finished@.take(0)) =~= Seq::<(bool, usize, Seq<char>)>::empty());
        assert(statuses_view(statuses@) =~= Seq::<(bool, usize, Seq<char>)>::empty());
        assert(remaining@ =~= running_jobs(all.take(0), finished@.take(0)));
        while i < n
            invariant
                n == all.len(),
                n == finished.len(),
                i <= n,
                jobs@ == all.skip(i as int),
                statuses_view(statuses@) == sort_by_id(job_statuses(all.take(i as int), finished@.take(i as int))),
                sorted_by_id(statuses@),
                remaining@ == running_jobs(all.take(i as int), finished@.take(i as int)),
            decreases n - i,
        {
            let job = jobs.remove(0);
            assert(job == all[i as int]);
            let done = finished[i];
            let ghost prev = job_statuses(all.take(i as int), finished@.take(i as int));
            proof {
                assert(all.take(i + 1).drop_last() =~= all.take(i as int));
                assert(finished@.take(i + 1).drop_last() =~= finished@.take(i as int));
                assert(job_statuses(all.take(i + 1), finished@.take(i + 1))
                    =~= prev.push((done, job.job_id, job.command@)));
            }
            let status = if done {
                BackgroundJobStatus::Done(job.job_id, job.command.clone())
            } else {
                BackgroundJobStatus::Running(job.job_id, job.command.clone())
            };
            assert(status_view(status) == (done, job.job_id, job.command@));
            proof {
                let s2 = prev.push((done, job.job_id, job.command@));
                assert(s2.drop_last() =~= prev);
                assert(s2.last() == (done, job.job_id, job.command@));
            }
            insert_by_id(&mut statuses, status);
            if !done {
                remaining.push(job);
            }
            proof {
                assert(jobs@ =~= all.skip(i + 1));
            }
            i = i + 1;
        }
        assert(all.take(n as int) =~= all);
        assert(finished@.take(n as int) =~= finished@);
        self.background_jobs = remaining;
        statuses
    }
}

/// The status of each job, in job order.
pub open spec fn job_statuses(jobs: Seq<BackgroundJob>, finished: Seq<bool>) -> Seq<(bool, usize, Seq<char>)>
    decreases jobs.len(),
{
    if jobs.len() == 0 {
        seq![]
    } else {
        job_statuses(jobs.drop_last(), finished.drop_last()).push(
            (finished.last(), jobs.last().job_id, jobs.last().command@),
        )
    }
}

/// The jobs whose process has not finished, in order.
pub open spec fn running_jobs(jobs: Seq<BackgroundJob>, finished: Seq<bool>) -> Seq<BackgroundJob>
    decreases jobs.len(),
{
    if jobs.len() == 0 {
        seq![]
    } else {
        let r = running_jobs(jobs.drop_last(), finished.drop_last());
        if finished.last() { r } else { r.push(jobs.last()) }
    }
}

/// `x` placed after every entry whose job number is not greater than its own.
pub open spec fn insert_by_id_spec(s: Seq<(bool, usize, Seq<char>)>, x: (bool, usize, Seq<char>)) -> Seq<(bool, usize, Seq<char>)>
    decreases s.len(),
{
    if s.len() == 0 {
        seq![x]
    } else if s.last().1 > x.1 {
        insert_by_id_spec(s.drop_last(), x).push(s.last())
    } else {
        s.push(x)
    }
}

/// The statuses ordered by job number, keeping the order of equal numbers.
pub open spec fn sort_by_id(s: Seq<(bool, usize, Seq<char>)>) -> Seq<(bool, usize, Seq<char>)>
    decreases s.len(),
{
    if s.len() == 0 { seq![] } else { insert_by_id_spec(sort_by_id(s.drop_last()), s.last()) }
}

/// The statuses as (done, job number, command).
pub open spec fn statuses_view(s: Seq<BackgroundJobStatus>) -> Seq<(bool, usize, Seq<char>)> {
    s.map_values(|x: BackgroundJobStatus| status_view(x))
}

proof fn lemma_insert_by_id_split(s: Seq<(bool, usize, Seq<char>)>, x: (bool, usize, Seq<char>), p: int)
    requires
        0 <= p <= s.len(),
        forall|j: int| p <= j < s.len() ==> (#[trigger] s[j]).1 > x.1,
        p > 0 ==> s[p - 1].1 <= x.1,
    ensures
        insert_by_id_spec(s, x) == s.take(p).push(x) + s.skip(p),
    decreases s.len(),
{
    if s.len() == 0 {
        assert(s.take(p).push(x) + s.skip(p) =~= seq![x]);
    } else if p == s.len() {
        assert(s.take(p) =~= s);
        assert(s.take(p).push(x) + s.skip(p) =~= s.push(x));
    } else {
        lemma_insert_by_id_split(s.drop_last(), x, p);
        assert(s.drop_last().take(p) =~= s.take(p));
        assert(s.take(p).push(x) + s.skip(p) =~= (s.drop_last().take(p).push(x) + s.drop_last().skip(p)).push(s.last()));
    }
}

fn insert_by_id(statuses: &mut Vec<BackgroundJobStatus>, x: BackgroundJobStatus)
    requires
        sorted_by_id(old(statuses)@),
    ensures
        statuses_view(final(statuses)@) == insert_by_id_spec(statuses_view(old(statuses)@), status_view(x)),
        sorted_by_id(final(statuses)@),
{
    let id = x.job_id();
    let mut p = statuses.len();
    while p > 0 && statuses[p - 1].job_id() > id
        invariant
            p <= statuses.len(),
            forall|j: int| p <= j < statuses.len() ==> (#[trigger] statuses@[j]).id() > id,
        decreases p,
    {
        p = p - 1;
    }
    let ghost s = statuses_view(statuses@);
    proof {
        assert forall|j: int| p <= j < s.len() implies (#[trigger] s[j]).1 > status_view(x).1 by {
            assert(s[j] == status_view(statuses@[j]));
        }
        if p > 0 {
            assert(s[p - 1] == status_view(statuses@[p - 1]));
        }
        lemma_insert_by_id_split(s, status_view(x), p as int);
    }
    let ghost old_s = statuses@;
    statuses.insert(p, x);
    proof {
        assert(statuses_view(statuses@) =~= s.take(p as int).push(status_view(x)) + s.skip(p as int));
        assert forall|a: int, b: int| 0 <= a < b < statuses@.len() implies (#[trigger] statuses@[a]).id() <= (#[trigger] statuses@[b]).id() by {
            if b < p {
                assert(statuses@[a] == old_s[a] && statuses@[b] == old_s[b]);
            } else if b == p {
                assert(statuses@[a] == old_s[a]);
            } else if a < p {
                assert(statuses@[a] == old_s[a] && statuses@[b] == old_s[b - 1]);
                if a < p - 1 {
                    assert(old_s[a].id() <= old_s[p - 1].id());
                }
            } else if a == p {
                assert(statuses@[b] == old_s[b - 1]);
            } else {
                assert(statuses@[a] == old_s[a - 1] && statuses@[b] == old_s[b - 1]);
            }
        }
    }
}

} // verus!
