//! Resolution of the targets of the `kill` built-in.
use vstd::prelude::*;
use std::num::ParseIntError;
use crate::arith::parse_number;
use crate::job::{FindError, JobSet, Pid, names_job, negatable, parse_tail, tail_names_job};

verus! {

#[verifier::external_type_specification]
#[verifier::external_body]
pub struct ExParseIntError(std::num::ParseIntError);

/// Error that may occur while resolving a target.
#[derive(Debug, PartialEq, Eq)]
pub enum Error {
    /// The process (group) ID is not a valid integer.
    ProcessId(ParseIntError),
    /// The job ID does not name exactly one job.
    JobId(FindError),
    /// The job ID names a job that is not job-controlled.
    Unmonitored,
}

/// Integer that `s` denotes in decimal, if it fits in an `i32`.
pub open spec fn parse_pid(s: Seq<char>) -> Option<i32> {
    match parse_number(s, 10) {
        Some(v) => if i32::MIN <= v <= i32::MAX { Some(v as i32) } else { None },
        None => None,
    }
}

/// Relies on `str::parse::<i32>`: an optional sign followed by decimal
/// digits, whose value fits in an `i32`; the error otherwise.
#[verifier::external_body]
fn parse_i32(s: &str) -> (r: Result<i32, ParseIntError>)
    ensures
        r is Ok <==> parse_pid(s@) is Some,
        r is Ok ==> parse_pid(s@) == Some(r->Ok_0),
{
    s.parse::<i32>()
}

/// Resolves a target into a process (group) ID.
///
/// A target that starts with `%` is a job ID, which resolves to the negated
/// process group ID of the only job it names, where that job is
/// job-controlled. Any other target is a decimal process ID, negative for a
/// process group.
pub fn resolve_target(jobs: &JobSet, target: &str) -> (r: Result<Pid, Error>)
    requires
        negatable(jobs@),
    ensures
        ({
            let t = target@;
            if t.len() > 0 && t[0] == '%' {
                match r {
                    Ok(pid) => exists|i: int| #[trigger] tail_names_job(t.drop_first(), jobs@, i)
                        && (forall|j: int| #[trigger] tail_names_job(t.drop_first(), jobs@, j) ==> j == i)
                        && jobs@[i].job_controlled && pid.0 == -jobs@[i].pid.0,
                    Err(Error::Unmonitored) => exists|i: int| #[trigger] tail_names_job(t.drop_first(), jobs@, i)
                        && (forall|j: int| #[trigger] tail_names_job(t.drop_first(), jobs@, j) ==> j == i)
                        && !jobs@[i].job_controlled,
                    Err(Error::JobId(FindError::NotFound)) => forall|j: int| !#[trigger] tail_names_job(t.drop_first(), jobs@, j),
                    Err(Error::JobId(FindError::Ambiguous)) => exists|a: int, b: int| a != b
                        && #[trigger] tail_names_job(t.drop_first(), jobs@, a)
                        && #[trigger] tail_names_job(t.drop_first(), jobs@, b),
                    Err(Error::ProcessId(_)) => false,
                }
            } else {
                match r {
                    Ok(pid) => parse_pid(t) == Some(pid.0),
                    Err(Error::ProcessId(_)) => parse_pid(t) is None,
                    _ => false,
                }
            }
        }),
{
    let cs = crate::text::chars_of(target);
    if cs.len() > 0 && cs[0] == '%' {
        let tail = target.substring_char(1, cs.len());
        assert(tail@ =~= target@.drop_first());
        let job_id = parse_tail(tail);
        proof {
            assert forall|j: int| #[trigger] tail_names_job(tail@, jobs@, j) == names_job(job_id, jobs@, j) by {
                assert(names_job(job_id, jobs@, j) == tail_names_job(tail@, jobs@, j));
            }
        }
        match job_id.find(jobs) {
            Ok(index) => {
                assert(tail_names_job(tail@, jobs@, index as int));
                let job = jobs.get(index);
                if job.job_controlled {
                    assert(jobs@[index as int].pid.0 > i32::MIN);
                    Ok(Pid(-job.pid.0))
                } else {
                    Err(Error::Unmonitored)
                }
            },
            Err(e) => {
                proof {
                    if e == FindError::Ambiguous {
                        let (a, b) = choose|a: int, b: int| a != b && #[trigger] names_job(job_id, jobs@, a)
                            && #[trigger] names_job(job_id, jobs@, b);
                        assert(tail_names_job(tail@, jobs@, a) && tail_names_job(tail@, jobs@, b));
                    }
                }
                Err(Error::JobId(e))
            },
        }
    } else {
        match parse_i32(target) {
            Ok(v) => Ok(Pid(v)),
            Err(e) => Err(Error::ProcessId(e)),
        }
    }
}

} // verus!
