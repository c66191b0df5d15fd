//! Jobs and their results: the producer's admission rules (ids, blank
//! lines, the job cap), the shaping of a worker's result for one job, and
//! the routing of a finished result to the output or error channel.

use vstd::prelude::*;
use vstd::string::*;
use crate::text::{dec_digits, is_blank, trimmed_end};

verus! {

/// One unit of work: one input line and its sequence id.
#[derive(Debug)]
pub struct Job {
    /// Assigned by the producer in strictly increasing order from 0.
    pub id: usize,
    /// The raw input line, line ending already stripped.
    pub line: String,
}

/// What one worker produced for one job.
#[derive(Debug)]
pub struct JobResult {
    /// The id of the originating job.
    pub id: usize,
    /// Combined trimmed output; may be non-empty even on failure.
    pub output: String,
    /// Set when the command could not be launched or exited non-zero.
    pub error: Option<String>,
}

/// The producer's counters: how many jobs have been emitted and the
/// optional cap (0 means unbounded).
pub struct Producer {
    /// Jobs emitted so far; doubles as the next job's id.
    pub produced: usize,
    /// Maximum number of jobs to emit, 0 for no limit.
    pub max_jobs: usize,
}

impl Producer {
    /// A fresh producer that has emitted nothing.
    pub fn new(max_jobs: usize) -> (p: Producer)
        ensures
            p.produced == 0,
            p.max_jobs == max_jobs,
    {
        Producer { produced: 0, max_jobs }
    }

    /// Whether the cap still admits another job.
    pub fn wants_more(&self) -> (r: bool)
        ensures
            r == (self.max_jobs == 0 || self.produced < self.max_jobs),
    {
        self.max_jobs == 0 || self.produced < self.max_jobs
    }

    /// Offers one input line. A line that is blank is skipped and consumes
    /// no id; once the cap is reached nothing is produced; otherwise the
    /// line becomes the next job, with the next sequence id.
    pub fn offer_line(&mut self, line: String) -> (j: Option<Job>)
        requires
            old(self).produced < usize::MAX,
        ensures
            final(self).max_jobs == old(self).max_jobs,
            match j {
                Some(job) => (old(self).max_jobs == 0 || old(self).produced < old(self).max_jobs)
                    && !is_blank(job.line@)
                    && job.id == old(self).produced
                    && final(self).produced == old(self).produced + 1,
                None => ((old(self).max_jobs != 0 && old(self).produced >= old(self).max_jobs)
                    || is_blank(line@)) && final(self).produced == old(self).produced,
            },
            j matches Some(job) ==> job.line@ == line@,
    {
        if self.max_jobs != 0 && self.produced >= self.max_jobs {
            return None;
        }
        if crate::text::line_is_blank(line.as_str()) {
            return None;
        }
        let id = self.produced;
        self.produced = self.produced + 1;
        Some(Job { id, line })
    }
}

/// The lines that become jobs when the raw `lines` are offered in order
/// with `count` jobs already emitted: blank lines are dropped and
/// production stops at the cap.
pub open spec fn produce_from(lines: Seq<Seq<char>>, max_jobs: nat, count: nat) -> Seq<Seq<char>>
    decreases lines.len(),
{
    if lines.len() == 0 {
        Seq::empty()
    } else if max_jobs > 0 && count >= max_jobs {
        Seq::empty()
    } else if is_blank(lines[0]) {
        produce_from(lines.drop_first(), max_jobs, count)
    } else {
        seq![lines[0]] + produce_from(lines.drop_first(), max_jobs, count + 1)
    }
}

/// The lines a whole run of the producer turns into jobs.
pub open spec fn produced_lines(lines: Seq<Seq<char>>, max_jobs: nat) -> Seq<Seq<char>> {
    produce_from(lines, max_jobs, 0)
}

/// How many non-blank lines a raw line sequence holds.
pub open spec fn nonblank_count(lines: Seq<Seq<char>>) -> nat
    decreases lines.len(),
{
    if lines.len() == 0 {
        0
    } else if is_blank(lines[0]) {
        nonblank_count(lines.drop_first())
    } else {
        1 + nonblank_count(lines.drop_first())
    }
}

/// A producer run emits every non-blank line while below the cap: the
/// number of jobs is the smaller of the number of non-blank lines and the
/// remaining allowance.
pub proof fn lemma_produce_from_len(lines: Seq<Seq<char>>, max_jobs: nat, count: nat)
    requires
        max_jobs == 0 || count <= max_jobs,
    ensures
        max_jobs == 0 ==> produce_from(lines, max_jobs, count).len() == nonblank_count(lines),
        max_jobs > 0 ==> produce_from(lines, max_jobs, count).len()
            == vstd::math::min(nonblank_count(lines) as int, max_jobs - count),
    decreases lines.len(),
{
    if lines.len() != 0 {
        if max_jobs > 0 && count >= max_jobs {
        } else if is_blank(lines[0]) {
            lemma_produce_from_len(lines.drop_first(), max_jobs, count);
        } else {
            lemma_produce_from_len(lines.drop_first(), max_jobs, count + 1);
        }
    }
}

/// A positive cap `K` with at least `K` non-blank lines available yields
/// exactly `K` jobs.
pub proof fn lemma_job_cap(lines: Seq<Seq<char>>, max_jobs: nat)
    requires
        max_jobs > 0,
        nonblank_count(lines) >= max_jobs,
    ensures
        produced_lines(lines, max_jobs).len() == max_jobs,
{
    lemma_produce_from_len(lines, max_jobs, 0);
}

/// Runs the producer over a whole batch of raw lines: the jobs carry the
/// produced lines in order, with ids counting up from 0.
pub fn produce_jobs(lines: Vec<String>, max_jobs: usize) -> (jobs: Vec<Job>)
    requires
        lines@.len() < usize::MAX,
    ensures
        jobs@.len() == produced_lines(lines.deep_view(), max_jobs as nat).len(),
        forall|i: int| 0 <= i < jobs@.len() ==> (#[trigger] jobs@[i]).id == i
            && jobs@[i].line@ == produced_lines(lines.deep_view(), max_jobs as nat)[i],
{
    let ghost all = lines.deep_view();
    let ghost total = produce_from(all, max_jobs as nat, 0);
    let mut jobs: Vec<Job> = Vec::new();
    let mut producer = Producer::new(max_jobs);
    let mut rest = lines;
    while rest.len() > 0
        invariant
            producer.max_jobs == max_jobs,
            producer.produced == jobs@.len(),
            jobs@.len() <= total.len(),
            jobs@.len() + rest@.len() <= usize::MAX,
            total == produce_from(all, max_jobs as nat, 0),
            forall|i: int| 0 <= i < jobs@.len() ==> (#[trigger] jobs@[i]).id == i
                && jobs@[i].line@ == total[i],
            produce_from(rest.deep_view(), max_jobs as nat, jobs@.len() as nat)
                == total.skip(jobs@.len() as int),
        decreases rest@.len(),
    {
        let ghost prev_rest_dv = rest.deep_view();
        let ghost k = jobs@.len();
        let line = rest.remove(0);
        proof {
            assert(rest.deep_view() =~~= prev_rest_dv.drop_first());
            assert(line@ == prev_rest_dv[0]);
        }
        match producer.offer_line(line) {
            Some(job) => {
                proof {
                    let tail = produce_from(prev_rest_dv.drop_first(), max_jobs as nat, (k + 1) as nat);
                    assert(produce_from(prev_rest_dv, max_jobs as nat, k as nat)
                        == seq![prev_rest_dv[0]] + tail);
                    assert(total.skip(k as int) == seq![prev_rest_dv[0]] + tail);
                    assert(total.skip(k as int).len() == 1 + tail.len());
                    assert(total.len() == k + 1 + tail.len());
                    assert(total[k as int] == total.skip(k as int)[0]);
                    assert(total[k as int] == prev_rest_dv[0]);
                    assert(tail =~= total.skip(k as int).drop_first());
                    assert(total.skip(k as int).drop_first() =~= total.skip(k as int + 1));
                }
                jobs.push(job);
            },
            None => {
                proof {
                    assert(produce_from(prev_rest_dv, max_jobs as nat, k as nat)
                        == produce_from(prev_rest_dv.drop_first(), max_jobs as nat, k as nat));
                }
            },
        }
    }
    proof {
        assert(rest.deep_view() =~~= Seq::<Seq<char>>::empty());
        assert(produce_from(rest.deep_view(), max_jobs as nat, jobs@.len() as nat)
            == Seq::<Seq<char>>::empty());
        assert(total.skip(jobs@.len() as int).len() == 0);
        assert(jobs@.len() == total.len());
    }
    jobs
}

/// The combined text of a finished command: trimmed standard output first,
/// then trimmed standard error, whichever of the two is present.
pub open spec fn combined_output(stdout: Seq<char>, stderr: Seq<char>) -> Seq<char> {
    if stderr.len() == 0 {
        trimmed_end(stdout)
    } else if stdout.len() == 0 {
        trimmed_end(stderr)
    } else {
        trimmed_end(stdout) + trimmed_end(stderr)
    }
}

/// The result of a dry run: the expanded command is previewed, nothing is
/// executed and no error is recorded.
pub fn dry_run_result(id: usize, command: &str) -> (r: JobResult)
    ensures
        r.id == id,
        r.output@ == seq!['[', '+', ']', ' '] + command@,
        r.error is None,
{
    proof {
        reveal_strlit("[+] ");
        assert(("[+] ")@ =~= seq!['[', '+', ']', ' ']);
    }
    let mut out = String::from_str("[+] ");
    out.append(command);
    JobResult { id, output: out, error: None }
}

/// The result of a command that ran to completion: output combined as
/// [`combined_output`], and on a non-zero exit an error naming the exit
/// status.
pub fn completed_result(id: usize, stdout: &str, stderr: &str, success: bool, status_text: &str) -> (r: JobResult)
    ensures
        r.id == id,
        r.output@ == combined_output(stdout@, stderr@),
        success ==> r.error is None,
        !success ==> (r.error matches Some(e)
            && e@ == ("Command failed with exit code: ")@ + status_text@),
{
    let output = if stderr.unicode_len() == 0 {
        crate::text::trim_end_str(stdout)
    } else if stdout.unicode_len() == 0 {
        crate::text::trim_end_str(stderr)
    } else {
        let mut o = crate::text::trim_end_str(stdout);
        let e = crate::text::trim_end_str(stderr);
        o.append(e.as_str());
        o
    };
    let error = if success {
        None
    } else {
        let mut e = String::from_str("Command failed with exit code: ");
        e.append(status_text);
        Some(e)
    };
    JobResult { id, output, error }
}

/// The result of a command that could not even be launched: no output, an
/// error naming the launch failure.
pub fn launch_failure_result(id: usize, reason: &str) -> (r: JobResult)
    ensures
        r.id == id,
        r.output@.len() == 0,
        r.error matches Some(e) && e@ == ("Failed to execute command: ")@ + reason@,
{
    let mut e = String::from_str("Failed to execute command: ");
    e.append(reason);
    JobResult { id, output: String::new(), error: Some(e) }
}

/// The error channel's first line for a failed job.
pub open spec fn error_header(id: nat, err: Seq<char>) -> Seq<char> {
    ("Error in job ")@ + dec_digits(id) + (": ")@ + err
}

/// The output line for a successful job when verbose mode tags it with
/// the originating job id.
pub open spec fn verbose_header(id: nat, out: Seq<char>) -> Seq<char> {
    ("[Job ")@ + dec_digits(id) + ("] ")@ + out
}

/// Where a finished result goes and what is printed there.
pub enum Emission {
    /// Lines for the error channel: the error tagged with the job id,
    /// then any captured output.
    Errors {
        /// The lines, in print order.
        lines: Vec<String>,
    },
    /// One line for the normal output channel.
    Output {
        /// The line to print.
        line: String,
    },
    /// Empty, error-free output: print nothing.
    Silent,
}

/// Routes one finished result: an error goes to the error channel with
/// any non-empty output after it; otherwise non-empty output goes to the
/// output channel, tagged with the job id in verbose mode; empty
/// error-free output prints nothing.
pub fn format_result(result: &JobResult, verbose: bool) -> (e: Emission)
    ensures
        match result.error {
            Some(err) => (e matches Emission::Errors { lines } && (if result.output@.len() == 0 {
                lines.deep_view() == seq![error_header(result.id as nat, err@)]
            } else {
                lines.deep_view() == seq![
                    error_header(result.id as nat, err@),
                    ("Output: ")@ + result.output@,
                ]
            })),
            None => (if result.output@.len() == 0 {
                e is Silent
            } else if verbose {
                e matches Emission::Output { line }
                    && line@ == verbose_header(result.id as nat, result.output@)
            } else {
                e matches Emission::Output { line } && line@ == result.output@
            }),
        },
{
    match &result.error {
        Some(err) => {
            let mut l1 = String::from_str("Error in job ");
            let ids = crate::text::usize_to_string(result.id);
            l1.append(ids.as_str());
            l1.append(": ");
            l1.append(err.as_str());
            proof {
                assert(l1@ == error_header(result.id as nat, err@));
            }
            let mut lines: Vec<String> = Vec::new();
            lines.push(l1);
            if result.output.as_str().unicode_len() != 0 {
                let mut l2 = String::from_str("Output: ");
                l2.append(result.output.as_str());
                lines.push(l2);
                proof {
                    assert(lines.deep_view() =~~= seq![
                        error_header(result.id as nat, err@),
                        ("Output: ")@ + result.output@,
                    ]);
                }
            } else {
                proof {
                    assert(lines.deep_view() =~~= seq![error_header(result.id as nat, err@)]);
                }
            }
            Emission::Errors { lines }
        },
        None => {
            if result.output.as_str().unicode_len() == 0 {
                Emission::Silent
            } else if verbose {
                let mut l = String::from_str("[Job ");
                let ids = crate::text::usize_to_string(result.id);
                l.append(ids.as_str());
                l.append("] ");
                l.append(result.output.as_str());
                proof {
                    assert(l@ == verbose_header(result.id as nat, result.output@));
                }
                Emission::Output { line: l }
            } else {
                Emission::Output { line: String::from_str(result.output.as_str()) }
            }
        },
    }
}

} // verus!
