use yash::job::{FindError, Job, JobId, JobSet, Pid, parse_tail};
use yash::kill::{resolve_target, Error};

#[test]
fn resolve_target_process_ids() {
    let jobs = JobSet::new();

    let result = resolve_target(&jobs, "123");
    assert_eq!(result, Ok(Pid(123)));

    let result = resolve_target(&jobs, "-456");
    assert_eq!(result, Ok(Pid(-456)));
}

#[test]
fn resolve_target_job_id() {
    let mut jobs = JobSet::new();
    let mut job = Job::new(Pid(123));
    job.job_controlled = true;
    job.name = "my job".into();
    jobs.add(job);

    let result = resolve_target(&jobs, "%my");
    assert_eq!(result, Ok(Pid(-123)));
}

#[test]
fn resolve_target_job_find_error() {
    let jobs = JobSet::new();
    let result = resolve_target(&jobs, "%my");
    assert_eq!(result, Err(Error::JobId(FindError::NotFound)));
}

#[test]
fn resolve_target_unmonitored() {
    let mut jobs = JobSet::new();
    let mut job = Job::new(Pid(123));
    job.job_controlled = false;
    job.name = "my job".into();
    jobs.add(job);

    let result = resolve_target(&jobs, "%my");
    assert_eq!(result, Err(Error::Unmonitored));
}

#[test]
fn resolve_target_invalid_string() {
    let jobs = JobSet::new();
    let result = resolve_target(&jobs, "abc");
    assert!(matches!(result, Err(Error::ProcessId(_))));
}

#[test]
fn resolve_target_ambiguous_job() {
    let mut jobs = JobSet::new();
    let mut job = Job::new(Pid(10));
    job.name = "make all".into();
    jobs.add(job);
    let mut job = Job::new(Pid(20));
    job.name = "make test".into();
    jobs.add(job);
    assert_eq!(
        resolve_target(&jobs, "%make"),
        Err(Error::JobId(FindError::Ambiguous))
    );
    let mut controlled = Job::new(Pid(30));
    controlled.job_controlled = true;
    controlled.name = "sleep 9".into();
    jobs.add(controlled);
    assert_eq!(resolve_target(&jobs, "%?eep"), Ok(Pid(-30)));
    assert_eq!(resolve_target(&jobs, "%%"), Ok(Pid(-30)));
    assert_eq!(resolve_target(&jobs, "%3"), Ok(Pid(-30)));
    assert_eq!(resolve_target(&jobs, "%-"), Err(Error::Unmonitored));
}

#[test]
fn job_id_forms() {
    assert_eq!(parse_tail(""), JobId::CurrentJob);
    assert_eq!(parse_tail("%"), JobId::CurrentJob);
    assert_eq!(parse_tail("+"), JobId::CurrentJob);
    assert_eq!(parse_tail("-"), JobId::PreviousJob);
    assert_eq!(parse_tail("12"), JobId::JobNumber(12));
    assert_eq!(parse_tail("0"), JobId::JobNamePrefix("0".to_string()));
    assert_eq!(parse_tail("?ab"), JobId::JobNameSubstring("ab".to_string()));
    assert_eq!(parse_tail("ab"), JobId::JobNamePrefix("ab".to_string()));
}
