//! Jobs and job IDs.
use vstd::prelude::*;
use crate::arith::{all_digits, digits_number};
use crate::text::chars_of;

verus! {

/// Process (group) ID.
#[derive(Clone, Copy, Debug, PartialEq, Eq, Hash, Structural)]
pub struct Pid(pub i32);

/// Job: a process (group) the shell started.
#[derive(Clone, Debug, PartialEq, Eq)]
pub struct Job {
    /// Process (group) ID of the job.
    pub pid: Pid,
    /// Whether the job runs in a process group of its own.
    pub job_controlled: bool,
    /// Command line of the job.
    pub name: String,
}

impl Job {
    /// Creates a job of the given process, not job-controlled, with an empty
    /// name.
    pub fn new(pid: Pid) -> (r: Job)
        ensures
            r.pid == pid,
            !r.job_controlled,
            r.name@ == Seq::<char>::empty(),
    {
        Job { pid, job_controlled: false, name: String::new() }
    }
}

/// Collection of jobs, each known by its index.
///
/// The job added last is the current job, the one before it the previous
/// job.
#[derive(Clone, Debug, Default)]
pub struct JobSet {
    jobs: Vec<Job>,
}

/// Whether the process ID of every job can be negated.
pub open spec fn negatable(jobs: Seq<Job>) -> bool {
    forall|i: int| 0 <= i < jobs.len() ==> (#[trigger] jobs[i]).pid.0 > i32::MIN
}

impl JobSet {
    /// The jobs, by index.
    pub closed spec fn view(&self) -> Seq<Job> {
        self.jobs@
    }

    /// Creates an empty job set.
    pub fn new() -> (r: JobSet)
        ensures
            r@ == Seq::<Job>::empty(),
    {
        JobSet { jobs: Vec::new() }
    }

    /// Adds a job and returns its index.
    pub fn add(&mut self, job: Job) -> (r: usize)
        ensures
            final(self)@ == old(self)@.push(job),
            r == old(self)@.len(),
    {
        let r = self.jobs.len();
        self.jobs.push(job);
        r
    }

    /// Number of jobs.
    pub fn len(&self) -> (r: usize)
        ensures
            r == self@.len(),
    {
        self.jobs.len()
    }

    /// The job at `index`.
    pub fn get(&self, index: usize) -> (r: &Job)
        requires
            index < self@.len(),
        ensures
            *r == self@[index as int],
    {
        &self.jobs[index]
    }
}

/// Job ID: how a job is named after `%`.
#[derive(Clone, Debug, PartialEq, Eq)]
pub enum JobId {
    /// `%`, `%%` or `%+`: the current job.
    CurrentJob,
    /// `%-`: the previous job.
    PreviousJob,
    /// `%n`: the job numbered `n`, counting from 1.
    JobNumber(usize),
    /// `%name`: the job whose name starts with the text.
    JobNamePrefix(String),
    /// `%?name`: the job whose name contains the text.
    JobNameSubstring(String),
}

/// Error in finding a job.
#[derive(Clone, Copy, Debug, PartialEq, Eq, Structural)]
pub enum FindError {
    /// No job matches the job ID.
    NotFound,
    /// More than one job matches the job ID.
    Ambiguous,
}

/// Positive number that `s` denotes: an optional `+` sign and decimal
/// digits, with a value that fits in a `usize`.
pub open spec fn parse_job_number(s: Seq<char>) -> Option<usize> {
    let body = if s.len() > 0 && s[0] == '+' { s.drop_first() } else { s };
    if all_digits(body, 10) && 0 < digits_number(body, 10) <= usize::MAX {
        Some(digits_number(body, 10) as usize)
    } else {
        None
    }
}

/// Relies on `str::parse::<NonZeroUsize>`: an optional `+` sign followed by
/// decimal digits, denoting a positive value that fits in a `usize`.
#[verifier::external_body]
fn parse_nonzero(s: &str) -> (r: Option<usize>)
    ensures
        r == parse_job_number(s@),
{
    s.parse::<std::num::NonZeroUsize>().ok().map(|n| n.get())
}

/// Whether `s` starts with `p`.
pub open spec fn has_prefix(s: Seq<char>, p: Seq<char>) -> bool {
    p.len() <= s.len() && s.take(p.len() as int) == p
}

/// Whether `s` contains `p`.
pub open spec fn has_substring(s: Seq<char>, p: Seq<char>) -> bool {
    exists|i: int| 0 <= i && i + p.len() <= s.len() && #[trigger] s.subrange(i, i + p.len()) == p
}

/// Whether the job ID names the job at `i` of `jobs`, regardless of
/// ambiguity.
pub open spec fn names_job(id: JobId, jobs: Seq<Job>, i: int) -> bool {
    0 <= i < jobs.len() && match id {
        JobId::CurrentJob => i == jobs.len() - 1,
        JobId::PreviousJob => i == jobs.len() - 2,
        JobId::JobNumber(n) => i == n - 1,
        JobId::JobNamePrefix(p) => has_prefix(jobs[i].name@, p@),
        JobId::JobNameSubstring(p) => has_substring(jobs[i].name@, p@),
    }
}

/// Whether the job ID whose part after `%` is `t` names the job at `i` of
/// `jobs`, regardless of ambiguity.
pub open spec fn tail_names_job(t: Seq<char>, jobs: Seq<Job>, i: int) -> bool {
    0 <= i < jobs.len() && if t == Seq::<char>::empty() || t == seq!['%'] || t == seq!['+'] {
        i == jobs.len() - 1
    } else if t == seq!['-'] {
        i == jobs.len() - 2
    } else if t[0] == '?' {
        has_substring(jobs[i].name@, t.drop_first())
    } else if parse_job_number(t) is Some {
        i == parse_job_number(t).unwrap() - 1
    } else {
        has_prefix(jobs[i].name@, t)
    }
}

/// Parses the part of a job ID after `%`.
pub fn parse_tail(tail: &str) -> (r: JobId)
    ensures
        forall|jobs: Seq<Job>, i: int| #[trigger] names_job(r, jobs, i) == tail_names_job(tail@, jobs, i),
        ({
            let t = tail@;
            if t == Seq::<char>::empty() || t == seq!['%'] || t == seq!['+'] {
                r == JobId::CurrentJob
            } else if t == seq!['-'] {
                r == JobId::PreviousJob
            } else if t[0] == '?' {
                r matches JobId::JobNameSubstring(p) && p@ == t.drop_first()
            } else if parse_job_number(t) is Some {
                r == JobId::JobNumber(parse_job_number(t).unwrap())
            } else {
                r matches JobId::JobNamePrefix(p) && p@ == t
            }
        }),
{
    let t = chars_of(tail);
    if t.len() == 0 {
        assert(tail@ =~= Seq::<char>::empty());
        return JobId::CurrentJob;
    }
    if t.len() == 1 && (t[0] == '%' || t[0] == '+') {
        assert(tail@ =~= seq!['%'] || tail@ =~= seq!['+']);
        return JobId::CurrentJob;
    }
    if t.len() == 1 && t[0] == '-' {
        assert(tail@ =~= seq!['-']);
        return JobId::PreviousJob;
    }
    proof {
        if tail@ == seq!['%'] || tail@ == seq!['+'] || tail@ == seq!['-'] {
            assert(tail@.len() == 1);
        }
    }
    if t[0] == '?' {
        let mut rest: Vec<char> = Vec::new();
        let mut i: usize = 1;
        while i < t.len()
            invariant
                1 <= i <= t@.len(),
                rest@ == t@.subrange(1, i as int),
            decreases t@.len() - i,
        {
            rest.push(t[i]);
            assert(t@.subrange(1, i as int).push(t@[i as int]) =~= t@.subrange(1, i as int + 1));
            i = i + 1;
        }
        assert(rest@ =~= tail@.drop_first());
        return JobId::JobNameSubstring(crate::text::string_of(&rest));
    }
    match parse_nonzero(tail) {
        Some(n) => JobId::JobNumber(n),
        None => JobId::JobNamePrefix(crate::text::string_of(&t)),
    }
}

/// Whether `p` is a prefix of `s`.
fn prefix_of(s: &Vec<char>, p: &Vec<char>) -> (r: bool)
    ensures
        r == has_prefix(s@, p@),
{
    if p.len() > s.len() {
        return false;
    }
    let mut i: usize = 0;
    while i < p.len()
        invariant
            p@.len() <= s@.len(),
            i <= p@.len(),
            forall|k: int| 0 <= k < i ==> s@[k] == p@[k],
        decreases p@.len() - i,
    {
        if s[i] != p[i] {
            assert(s@.take(p@.len() as int)[i as int] != p@[i as int]);
            return false;
        }
        i = i + 1;
    }
    assert(s@.take(p@.len() as int) =~= p@);
    true
}

/// Whether `p` occurs in `s`.
fn substring_of(s: &Vec<char>, p: &Vec<char>) -> (r: bool)
    ensures
        r == has_substring(s@, p@),
{
    if p.len() > s.len() {
        return false;
    }
    if p.len() == 0 {
        assert(s@.subrange(0int, 0int + p@.len()) =~= p@);
        assert(has_substring(s@, p@));
        return true;
    }
    let n = s.len();
    let last = n - p.len();
    let mut i: usize = 0;
    while i <= last
        invariant
            n == s@.len(),
            last == s@.len() - p@.len(),
            0 < p@.len() <= s@.len(),
            i <= s@.len() - p@.len() + 1,
            forall|k: int| 0 <= k < i ==> #[trigger] s@.subrange(k, k + p@.len()) != p@,
        decreases s@.len() - i,
    {
        let mut j: usize = 0;
        let mut same = true;
        while j < p.len()
            invariant
                n == s@.len(),
                i + p@.len() <= s@.len(),
                j <= p@.len(),
                same == forall|k: int| 0 <= k < j ==> s@[i + k] == p@[k],
            decreases p@.len() - j,
        {
            if s[i + j] != p[j] {
                same = false;
            }
            j = j + 1;
        }
        if same {
            assert(s@.subrange(i as int, i + p@.len()) =~= p@);
            return true;
        }
        proof {
            let k = choose|k: int| 0 <= k < p@.len() && s@[i + k] != p@[k];
            assert(s@.subrange(i as int, i + p@.len())[k] != p@[k]);
        }
        i = i + 1;
    }
    false
}

impl JobId {
    /// Whether the job at `index` answers to this ID.
    fn matches_job(&self, jobs: &JobSet, index: usize) -> (r: bool)
        requires
            index < jobs@.len(),
        ensures
            r == names_job(*self, jobs@, index as int),
    {
        let n = jobs.len();
        match self {
            JobId::CurrentJob => index == n - 1,
            JobId::PreviousJob => n >= 2 && index == n - 2,
            JobId::JobNumber(k) => *k >= 1 && index == *k - 1,
            JobId::JobNamePrefix(p) => prefix_of(&chars_of(jobs.get(index).name.as_str()), &chars_of(p.as_str())),
            JobId::JobNameSubstring(p) => substring_of(&chars_of(jobs.get(index).name.as_str()), &chars_of(p.as_str())),
        }
    }

    /// Finds the only job that answers to this ID and returns its index.
    pub fn find(&self, jobs: &JobSet) -> (r: Result<usize, FindError>)
        ensures
            r matches Ok(i) ==> names_job(*self, jobs@, i as int)
                && forall|j: int| #[trigger] names_job(*self, jobs@, j) ==> j == i,
            r == Err::<usize, FindError>(FindError::NotFound) ==> forall|j: int| !#[trigger] names_job(*self, jobs@, j),
            r == Err::<usize, FindError>(FindError::Ambiguous) ==> exists|a: int, b: int|
                a != b && #[trigger] names_job(*self, jobs@, a) && #[trigger] names_job(*self, jobs@, b),
    {
        let mut found: Option<usize> = None;
        let mut i: usize = 0;
        while i < jobs.len()
            invariant
                i <= jobs@.len(),
                found matches Some(f) ==> f < i && names_job(*self, jobs@, f as int),
                forall|j: int| 0 <= j < i && #[trigger] names_job(*self, jobs@, j) ==> found == Some(j as usize),
            decreases jobs@.len() - i,
        {
            if self.matches_job(jobs, i) {
                if let Some(f) = found {
                    assert(names_job(*self, jobs@, f as int) && names_job(*self, jobs@, i as int));
                    return Err(FindError::Ambiguous);
                }
                found = Some(i);
            }
            i = i + 1;
        }
        match found {
            Some(f) => Ok(f),
            None => Err(FindError::NotFound),
        }
    }
}

} // verus!
