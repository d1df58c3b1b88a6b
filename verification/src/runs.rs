//! Runs: what was measured when one benchmark ran on one runner.

use vstd::prelude::*;
use vstd::std_specs::cmp::PartialEqSpecImpl;
use vstd::std_specs::convert::{FromSpec, FromSpecImpl};
use vstd::string::StringExecFns;
use crate::benchmarks::{BenchmarkMetadataCost, Identifier as BenchmarkIdentifier};
use crate::runners::Identifier as RunnerIdentifier;
use crate::text::{chars_of, text_precedes, precedes};
use crate::time::{mean, mean_nanos, Duration};

verus! {

/// The text that identifies the run of the benchmark `benchmark` on the
/// runner `runner`.
pub open spec fn pair_text(runner: Seq<char>, benchmark: Seq<char>) -> Seq<char> {
    runner.push('_') + benchmark
}

/// Unique identifier for a run: the identifier of its runner, an underscore,
/// and the identifier of its benchmark. Its view is the text of the identifier.
#[derive(Debug)]
pub struct Identifier(String);

impl View for Identifier {
    type V = Seq<char>;

    closed spec fn view(&self) -> Seq<char> {
        self.0@
    }
}

impl Identifier {
    /// The identifier that reads `text`.
    pub fn new(text: &str) -> (id: Identifier)
        ensures
            id@ == text@,
    {
        Identifier(text.to_owned())
    }

    /// The identifier of the run of `benchmark` on `runner`.
    pub fn for_pair(runner: &RunnerIdentifier, benchmark: &BenchmarkIdentifier) -> (id: Identifier)
        ensures
            id@ == pair_text(runner@, benchmark@),
    {
        let mut text = runner.to_string();
        text.push('_');
        text.append(benchmark.as_str());
        Identifier(text)
    }

    /// The text of the identifier.
    pub fn to_string(&self) -> (text: String)
        ensures
            text@ == self@,
    {
        self.0.clone()
    }

    /// The text of the identifier, borrowed.
    pub fn as_str(&self) -> (text: &str)
        ensures
            text@ == self@,
    {
        self.0.as_str()
    }

    /// Whether this identifier comes before `other` in dictionary order.
    pub fn precedes(&self, other: &Identifier) -> (b: bool)
        ensures
            b == precedes(self@, other@),
    {
        let a = chars_of(self.0.as_str());
        let b = chars_of(other.0.as_str());
        text_precedes(&a, &b)
    }
}

impl Clone for Identifier {
    fn clone(&self) -> (id: Identifier)
        ensures
            id@ == self@,
    {
        Identifier(self.0.clone())
    }
}

impl PartialEq for Identifier {
    fn eq(&self, other: &Identifier) -> (b: bool) {
        self.0 == other.0
    }
}

impl Eq for Identifier {

}

impl PartialEqSpecImpl for Identifier {
    open spec fn obeys_eq_spec() -> bool {
        true
    }

    open spec fn eq_spec(&self, other: &Identifier) -> bool {
        self@ == other@
    }
}

impl From<String> for Identifier {
    fn from(text: String) -> (id: Identifier) {
        Identifier(text)
    }
}

impl FromSpecImpl<String> for Identifier {
    open spec fn obeys_from_spec() -> bool {
        true
    }

    closed spec fn from_spec(text: String) -> Identifier {
        Identifier(text)
    }
}

impl<'a> From<&'a str> for Identifier {
    fn from(text: &'a str) -> (id: Identifier) {
        Identifier::new(text)
    }
}

/// Nothing is stated of the conversion from a borrowed text: in contracts,
/// use [`Identifier::new`].
impl<'a> FromSpecImpl<&'a str> for Identifier {
    open spec fn obeys_from_spec() -> bool {
        false
    }

    open spec fn from_spec(text: &'a str) -> Identifier {
        arbitrary()
    }
}

/// An identifier made from a string reads as that string.
pub proof fn lemma_identifier_from(text: String)
    ensures
        <Identifier as FromSpec<String>>::from_spec(text)@ == text@,
{
}

/// Total representation of a run: the timings of every repetition of one
/// benchmark on one runner, and their mean.
#[derive(Debug)]
pub struct Run {
    /// Unique identifier for this run.
    pub identifier: Identifier,
    /// Unique identifier for the runner used in this run.
    pub runner_identifier: RunnerIdentifier,
    /// Unique identifier for the benchmark used in this run.
    pub benchmark_identifier: BenchmarkIdentifier,
    /// Durations of each pass of the benchmark.
    pub durations: Vec<Duration>,
    /// Average run time of the benchmark.
    pub average_duration: Duration,
}

/// Whether two runs say the same: the same identifiers, the same durations
/// in the same order, the same average.
pub open spec fn same_run(a: Run, b: Run) -> bool {
    &&& a.identifier@ == b.identifier@
    &&& a.runner_identifier@ == b.runner_identifier@
    &&& a.benchmark_identifier@ == b.benchmark_identifier@
    &&& a.durations@ == b.durations@
    &&& a.average_duration == b.average_duration
}

/// Whether `run` is the record of the run of `benchmark` on `runner` that
/// took `durations`: it names the pair, holds the durations, and its average
/// is their arithmetic mean (zero where there are none).
pub open spec fn is_record(
    run: Run,
    runner: Seq<char>,
    benchmark: Seq<char>,
    durations: Seq<Duration>,
) -> bool {
    &&& run.identifier@ == pair_text(runner, benchmark)
    &&& run.runner_identifier@ == runner
    &&& run.benchmark_identifier@ == benchmark
    &&& run.durations@ == durations
    &&& run.average_duration@ == mean_nanos(durations)
}

impl Run {
    /// The record of the run of `benchmark` on `runner` that took
    /// `durations`.
    pub fn new(
        runner: &RunnerIdentifier,
        benchmark: &BenchmarkIdentifier,
        durations: Vec<Duration>,
    ) -> (run: Run)
        ensures
            is_record(run, runner@, benchmark@, durations@),
    {
        let average_duration = mean(&durations);
        Run {
            identifier: Identifier::for_pair(runner, benchmark),
            runner_identifier: runner.clone(),
            benchmark_identifier: benchmark.clone(),
            durations,
            average_duration,
        }
    }
}

impl Clone for Run {
    fn clone(&self) -> (copy: Run)
        ensures
            same_run(copy, *self),
    {
        let mut durations: Vec<Duration> = Vec::new();
        let mut i: usize = 0;
        while i < self.durations.len()
            invariant
                i <= self.durations.len(),
                durations@ == self.durations@.take(i as int),
            decreases self.durations.len() - i,
        {
            durations.push(self.durations[i]);
            assert(self.durations@.take(i + 1) =~= self.durations@.take(i as int).push(
                self.durations@[i as int],
            ));
            i += 1;
        }
        assert(self.durations@.take(self.durations.len() as int) =~= self.durations@);
        Run {
            identifier: self.identifier.clone(),
            runner_identifier: self.runner_identifier.clone(),
            benchmark_identifier: self.benchmark_identifier.clone(),
            durations,
            average_duration: self.average_duration,
        }
    }
}

/// How many timed repetitions are asked of a runner for a benchmark of the
/// given cost.
pub open spec fn repetitions(cost: BenchmarkMetadataCost) -> nat {
    match cost {
        BenchmarkMetadataCost::Cheap => 25,
        BenchmarkMetadataCost::Moderate => 10,
        BenchmarkMetadataCost::Expensive => 3,
    }
}

/// How many timed repetitions are asked of a runner for a benchmark of the
/// given cost: 25 of a cheap one, 10 of a moderate one, 3 of an expensive
/// one.
pub fn num_runs_for_benchmark_cost(cost: BenchmarkMetadataCost) -> (n: u32)
    ensures
        n == repetitions(cost),
{
    match cost {
        BenchmarkMetadataCost::Cheap => 25,
        BenchmarkMetadataCost::Moderate => 10,
        BenchmarkMetadataCost::Expensive => 3,
    }
}

} // verus!
