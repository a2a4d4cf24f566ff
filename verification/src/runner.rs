//! PHPT results, run summaries and the decisions that turn execution
//! outcomes into PASS, FAIL, SKIP or BORK.

use vstd::prelude::*;
use crate::compare::{compare, compare_spec, display_spec, mismatch_spec, normalize, normalize_spec, skip_reason, skip_reason_spec, ComparisonError, Verdict};
use crate::fixture::ExpectationKind;
use crate::text::{push_chars, push_str, string_of};

verus! {

/// `std::path::PathBuf`, carried through results unchanged.
#[verifier::external_type_specification]
#[verifier::external_body]
pub struct ExPathBuf(std::path::PathBuf);

/// The outcome class of one fixture.
#[derive(Clone, Copy, Debug, PartialEq, Eq, Structural)]
pub enum Status {
    Pass,
    Fail,
    Skip,
    Bork,
}

/// The report label of a status.
pub open spec fn status_label(status: Status) -> Seq<char> {
    match status {
        Status::Pass => "PASS"@,
        Status::Fail => "FAIL"@,
        Status::Skip => "SKIP"@,
        Status::Bork => "BORK"@,
    }
}

impl Status {
    pub fn label(self) -> (label: &'static str)
        ensures
            label@ == status_label(self),
    {
        match self {
            Status::Pass => "PASS",
            Status::Fail => "FAIL",
            Status::Skip => "SKIP",
            Status::Bork => "BORK",
        }
    }
}

/// Options of a fixture run.
#[derive(Clone, Debug, PartialEq, Eq)]
pub struct RunnerOptions {
    pub max_instructions: Option<u64>,
}

impl RunnerOptions {
    /// No instruction limit.
    pub fn new() -> (options: RunnerOptions)
        ensures
            options.max_instructions is None,
    {
        RunnerOptions { max_instructions: None }
    }
}

/// The result of one fixture.
pub struct TestResult {
    pub path: std::path::PathBuf,
    pub name: String,
    pub status: Status,
    pub details: Option<String>,
}

/// A result carrying an explanation.
pub fn result(path: std::path::PathBuf, name: &str, status: Status, details: String) -> (r: TestResult)
    ensures
        r.path == path,
        r.name@ == name@,
        r.status == status,
        r.details is Some && r.details->0@ == details@,
{
    TestResult { path, name: name.to_owned(), status, details: Some(details) }
}

/// How many results have the given status.
pub open spec fn status_count(results: Seq<TestResult>, status: Status) -> nat
    decreases results.len(),
{
    if results.len() == 0 {
        0
    } else {
        status_count(results.drop_last(), status) + if results.last().status == status {
            1nat
        } else {
            0nat
        }
    }
}

/// Totals over a run, and every result in run order.
pub struct Summary {
    pub tests: usize,
    pub passed: usize,
    pub failed: usize,
    pub skipped: usize,
    pub borked: usize,
    pub results: Vec<TestResult>,
}

impl Summary {
    /// The totals count the results.
    pub open spec fn wf(&self) -> bool {
        &&& self.tests == self.results@.len()
        &&& self.passed == status_count(self.results@, Status::Pass)
        &&& self.failed == status_count(self.results@, Status::Fail)
        &&& self.skipped == status_count(self.results@, Status::Skip)
        &&& self.borked == status_count(self.results@, Status::Bork)
    }

    /// An empty summary.
    pub fn new() -> (summary: Summary)
        ensures
            summary.wf(),
            summary.results@.len() == 0,
    {
        Summary { tests: 0, passed: 0, failed: 0, skipped: 0, borked: 0, results: Vec::new() }
    }

    /// A run succeeds when nothing failed or borked.
    pub fn is_success(&self) -> (success: bool)
        ensures
            success == (self.failed == 0 && self.borked == 0),
    {
        self.failed == 0 && self.borked == 0
    }

    /// Records one more result.
    pub fn push(&mut self, result: TestResult)
        requires
            old(self).wf(),
            old(self).tests < usize::MAX,
        ensures
            final(self).wf(),
            final(self).results@ == old(self).results@.push(result),
    {
        proof {
            lemma_counts_partition(self.results@);
        }
        let status = result.status;
        let ghost before = self.results@;
        self.tests = self.tests + 1;
        match status {
            Status::Pass => self.passed = self.passed + 1,
            Status::Fail => self.failed = self.failed + 1,
            Status::Skip => self.skipped = self.skipped + 1,
            Status::Bork => self.borked = self.borked + 1,
        }
        self.results.push(result);
        assert(self.results@.drop_last() =~= before);
    }
}

/// Every result has exactly one status, so the status counts add up to
/// the number of results.
pub proof fn lemma_counts_partition(results: Seq<TestResult>)
    ensures
        status_count(results, Status::Pass) + status_count(results, Status::Fail) + status_count(
            results,
            Status::Skip,
        ) + status_count(results, Status::Bork) == results.len(),
    decreases results.len(),
{
    if results.len() > 0 {
        lemma_counts_partition(results.drop_last());
    }
}

/// In a well-formed summary the four totals add up to the number of tests.
pub proof fn lemma_summary_totals(summary: &Summary)
    requires
        summary.wf(),
    ensures
        summary.passed + summary.failed + summary.skipped + summary.borked == summary.tests,
{
    lemma_counts_partition(summary.results@);
}

/// A run-level failure (no fixture could be run).
#[derive(Clone, Debug, PartialEq, Eq)]
pub struct RunnerError {
    message: String,
}

impl RunnerError {
    pub closed spec fn spec_message(&self) -> Seq<char> {
        self.message@
    }

    pub fn new(message: String) -> (error: RunnerError)
        ensures
            error.spec_message() == message@,
    {
        RunnerError { message }
    }

    pub fn message(&self) -> (message: &str)
        ensures
            message@ == self.spec_message(),
    {
        self.message.as_str()
    }
}

/// Runs fixtures with fixed options.
#[derive(Clone, Debug)]
pub struct Runner {
    options: RunnerOptions,
}

impl Runner {
    pub closed spec fn spec_options(&self) -> RunnerOptions {
        self.options
    }

    pub fn new(options: RunnerOptions) -> (runner: Runner)
        ensures
            runner.spec_options() == options,
    {
        Runner { options }
    }

    pub fn options(&self) -> (options: &RunnerOptions)
        ensures
            *options == self.spec_options(),
    {
        &self.options
    }
}

/// Standard output followed by standard error.
pub open spec fn combined(output: Seq<u8>, error: Seq<u8>) -> Seq<u8> {
    output + error
}

pub fn combined_output(output: &[u8], error: &[u8]) -> (all: Vec<u8>)
    ensures
        all@ == combined(output@, error@),
{
    let mut all = crate::text::copy_range(output, 0, output.len());
    assert(output@.subrange(0, output@.len() as int) =~= output@);
    crate::text::push_bytes(&mut all, error);
    all
}

/// What a SKIPIF run decides: keep going (`None`), skip, or bork.
pub open spec fn skipif_spec(succeeded: bool, output: Seq<u8>, error: Seq<u8>) -> Option<(Status, Seq<char>)> {
    if !succeeded {
        Some((Status::Bork, "SKIPIF execution failed:\n"@ + display_spec(combined(output, error))))
    } else if normalize_spec(output).len() == 0 {
        None
    } else {
        match skip_reason_spec(normalize_spec(output)) {
            Some(reason) => Some((Status::Skip, reason)),
            None => Some((Status::Bork, "invalid SKIPIF output: "@ + display_spec(normalize_spec(output)))),
        }
    }
}

/// Interprets the run of a fixture's SKIPIF program.
pub fn skipif_verdict(succeeded: bool, output: &[u8], error: &[u8]) -> (verdict: Option<(Status, String)>)
    ensures
        match skipif_spec(succeeded, output@, error@) {
            Some((status, details)) => match verdict {
                Some((s, d)) => s == status && d@ == details,
                None => false,
            },
            None => verdict is None,
        },
{
    if !succeeded {
        let all = combined_output(output, error);
        let shown = crate::compare::display_bytes(all.as_slice());
        let mut message: Vec<char> = Vec::new();
        push_str(&mut message, "SKIPIF execution failed:\n");
        push_str(&mut message, shown.as_str());
        return Some((Status::Bork, string_of(message.as_slice())));
    }
    let normalized = normalize(output);
    if normalized.len() == 0 {
        return None;
    }
    match skip_reason(normalized.as_slice()) {
        Some(reason) => Some((Status::Skip, reason)),
        None => {
            let shown = crate::compare::display_bytes(normalized.as_slice());
            let mut message: Vec<char> = Vec::new();
            push_str(&mut message, "invalid SKIPIF output: ");
            push_str(&mut message, shown.as_str());
            Some((Status::Bork, string_of(message.as_slice())))
        },
    }
}

/// What a CLEAN run reports: nothing when it succeeded silently.
pub open spec fn cleanup_spec(succeeded: bool, output: Seq<u8>, error: Seq<u8>) -> Option<Seq<char>> {
    let shown = normalize_spec(combined(output, error));
    if !succeeded {
        Some("CLEAN execution failed: "@ + display_spec(shown))
    } else if shown.len() != 0 {
        Some("CLEAN produced output: "@ + display_spec(shown))
    } else {
        None
    }
}

/// Interprets the run of a fixture's CLEAN program.
pub fn cleanup_verdict(succeeded: bool, output: &[u8], error: &[u8]) -> (failure: Option<String>)
    ensures
        match cleanup_spec(succeeded, output@, error@) {
            Some(m) => failure is Some && failure->0@ == m,
            None => failure is None,
        },
{
    let all = combined_output(output, error);
    let shown = normalize(all.as_slice());
    let display = crate::compare::display_bytes(shown.as_slice());
    let mut message: Vec<char> = Vec::new();
    if !succeeded {
        push_str(&mut message, "CLEAN execution failed: ");
    } else if shown.len() != 0 {
        push_str(&mut message, "CLEAN produced output: ");
    } else {
        return None;
    }
    push_str(&mut message, display.as_str());
    Some(string_of(message.as_slice()))
}

/// The status and details of the main program's run, before cleanup.
pub open spec fn main_spec(
    separator: char,
    kind: ExpectationKind,
    expected: Seq<u8>,
    host_failure: bool,
    output: Seq<u8>,
    error: Seq<u8>,
) -> (Status, Option<Seq<char>>) {
    let actual = normalize_spec(combined(output, error));
    if host_failure {
        (Status::Bork, Some("host failed while executing the main program"@))
    } else {
        match compare_spec(separator, kind, normalize_spec(expected), actual) {
            Verdict::Pass => (Status::Pass, None),
            Verdict::Mismatch => (Status::Fail, Some(mismatch_spec(kind, normalize_spec(expected), actual))),
            Verdict::Bork(m) => (Status::Bork, Some(m)),
        }
    }
}

/// A cleanup failure turns anything but FAIL into BORK and is appended
/// to the details.
pub open spec fn with_cleanup(outcome: (Status, Option<Seq<char>>), cleanup: Option<Seq<char>>) -> (Status, Option<Seq<char>>) {
    match cleanup {
        None => outcome,
        Some(c) => (
            if outcome.0 != Status::Fail { Status::Bork } else { outcome.0 },
            Some(match outcome.1 {
                Some(d) => d + "\n"@ + c,
                None => c,
            }),
        ),
    }
}

/// Decides a fixture's status from the main run and the cleanup report.
pub fn main_verdict(
    separator: char,
    kind: ExpectationKind,
    expected: &[u8],
    host_failure: bool,
    output: &[u8],
    error: &[u8],
    cleanup: Option<String>,
) -> (verdict: (Status, Option<String>))
    ensures
        ({
            let want = with_cleanup(main_spec(separator, kind, expected@, host_failure, output@, error@),
                match cleanup { Some(c) => Some(c@), None => None });
            &&& verdict.0 == want.0
            &&& match want.1 {
                Some(d) => verdict.1 is Some && verdict.1->0@ == d,
                None => verdict.1 is None,
            }
        }),
{
    let all = combined_output(output, error);
    let actual = normalize(all.as_slice());
    let expected_normalized = normalize(expected);
    let (mut status, mut details): (Status, Option<String>) = if host_failure {
        (Status::Bork, Some("host failed while executing the main program".to_owned()))
    } else {
        match compare(separator, kind, expected_normalized.as_slice(), actual.as_slice()) {
            Ok(()) => (Status::Pass, None),
            Err(ComparisonError::Mismatch) => (
                Status::Fail,
                Some(crate::compare::mismatch_details(kind, expected_normalized.as_slice(), actual.as_slice())),
            ),
            Err(ComparisonError::Bork(message)) => (Status::Bork, Some(message)),
        }
    };
    match cleanup {
        None => {},
        Some(c) => {
            if status != Status::Fail {
                status = Status::Bork;
            }
            details = match details {
                Some(d) => {
                    let mut text: Vec<char> = Vec::new();
                    push_str(&mut text, d.as_str());
                    push_str(&mut text, "\n");
                    push_str(&mut text, c.as_str());
                    Some(string_of(text.as_slice()))
                },
                None => Some(c),
            };
        },
    }
    (status, details)
}

} // verus!
