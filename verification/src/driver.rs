//! The driver of one isolated execution: one benchmark on one runner.
//!
//! The driver decides and never acts. It says which instance to create and
//! with which arguments, and then which step comes next; whoever talks to the
//! isolation backend performs each step and reports how it went. A failure of
//! a step never ends the execution early: the instance is always removed, and
//! only then the driver says whether a run was measured.

use vstd::prelude::*;
use vstd::string::StringExecFns;
use crate::benchmarks::{Benchmark, Identifier as BenchmarkIdentifier};
use crate::hexadecimal::{encode_hex, hex_text};
use crate::runners::{Identifier as RunnerIdentifier, Runner};
use crate::runs::{is_record, num_runs_for_benchmark_cost, repetitions, Identifier, Run};
use crate::text::{decimal, push_decimal};
use crate::timing::{
    all_readable, are_fractions, are_gaps, durations_of, is_blank, is_first_unreadable,
    lemma_parse_of_numerals, numeral_micros, numerals_text, parse, words, ParseError,
};

verus! {

/// The text that `String::from_utf8_lossy` makes of the bytes `bytes`.
pub uninterp spec fn lossy_text(bytes: Seq<u8>) -> Seq<char>;

/// `String::from_utf8_lossy` of the standard library reads bytes as UTF-8
/// text and puts a replacement character where they are not. The text depends
/// on the bytes alone.
#[verifier::external_body]
fn decode_lossy(bytes: &Vec<u8>) -> (text: String)
    ensures
        text@ == lossy_text(bytes@),
{
    String::from_utf8_lossy(bytes).into_owned()
}

/// The texts that the strings of `v` hold.
pub open spec fn views(v: Seq<String>) -> Seq<Seq<char>> {
    Seq::new(v.len(), |i: int| v[i]@)
}

/// The arguments that an instance is started with: the bytecode and the
/// calldata in hexadecimal notation and the number of repetitions in decimal
/// notation, each behind the name of its option.
pub open spec fn invocation_texts(benchmark: Benchmark) -> Seq<Seq<char>> {
    seq![
        "--contract-code"@,
        hex_text(benchmark.bytecode@),
        "--calldata"@,
        hex_text(benchmark.calldata@),
        "--num-runs"@,
        decimal(repetitions(benchmark.metadata.cost)),
    ]
}

/// The arguments that an instance is started with to run `benchmark`.
pub fn invocation(benchmark: &Benchmark) -> (cmd: Vec<String>)
    ensures
        views(cmd@) == invocation_texts(*benchmark),
{
    let mut count = String::new();
    push_decimal(&mut count, num_runs_for_benchmark_cost(benchmark.metadata.cost) as u128);
    assert(Seq::<char>::empty() + decimal(repetitions(benchmark.metadata.cost)) =~= decimal(
        repetitions(benchmark.metadata.cost),
    ));
    let mut cmd: Vec<String> = Vec::new();
    cmd.push(String::from_str("--contract-code"));
    cmd.push(encode_hex(&benchmark.bytecode));
    cmd.push(String::from_str("--calldata"));
    cmd.push(encode_hex(&benchmark.calldata));
    cmd.push(String::from_str("--num-runs"));
    cmd.push(count);
    assert(views(cmd@) =~= invocation_texts(*benchmark));
    cmd
}

/// The name of the instance that serves the run `run`.
pub open spec fn container_name_text(run: Seq<char>) -> Seq<char> {
    "emv-bench_"@ + run
}

/// The name of the instance that serves the run `run`. Every pair of a runner
/// and a benchmark has a name of its own.
pub fn container_name(run: &Identifier) -> (name: String)
    ensures
        name@ == container_name_text(run@),
{
    let mut name = String::from_str("emv-bench_");
    name.append(run.as_str());
    name
}

/// One piece of what an instance wrote, tagged with the stream it was
/// written to.
#[derive(Debug)]
pub enum LogOutput {
    /// Written to the standard error stream.
    StdErr { message: Vec<u8> },
    /// Written to the standard output stream.
    StdOut { message: Vec<u8> },
    /// Read from the standard input stream.
    StdIn { message: Vec<u8> },
    /// Written to the console.
    Console { message: Vec<u8> },
}

/// What was drained from the streams of an instance.
#[derive(Debug)]
pub struct CapturedLogs {
    /// Why draining failed, where it did: the reason of the last failure.
    pub failure: Option<String>,
    /// Everything that was written to the standard output stream.
    pub stdout: String,
    /// Everything that was written to the standard error stream.
    pub stderr: String,
}

/// What the pieces `items` hold of the standard output stream: the texts of
/// the pieces of that stream, in order.
pub open spec fn captured_stdout(items: Seq<Result<LogOutput, String>>) -> Seq<char>
    decreases items.len(),
{
    if items.len() == 0 {
        Seq::empty()
    } else {
        captured_stdout(items.drop_last()) + match items.last() {
            Ok(LogOutput::StdOut { message }) => lossy_text(message@),
            _ => Seq::empty(),
        }
    }
}

/// What the pieces `items` hold of the standard error stream.
pub open spec fn captured_stderr(items: Seq<Result<LogOutput, String>>) -> Seq<char>
    decreases items.len(),
{
    if items.len() == 0 {
        Seq::empty()
    } else {
        captured_stderr(items.drop_last()) + match items.last() {
            Ok(LogOutput::StdErr { message }) => lossy_text(message@),
            _ => Seq::empty(),
        }
    }
}

/// The reason of the last failure among `items`, if one of them is a failure.
pub open spec fn last_failure(items: Seq<Result<LogOutput, String>>) -> Option<Seq<char>>
    decreases items.len(),
{
    if items.len() == 0 {
        None
    } else {
        match items.last() {
            Err(reason) => Some(reason@),
            Ok(_) => last_failure(items.drop_last()),
        }
    }
}

/// Whether `logs` is what the pieces `items` amount to.
pub open spec fn is_capture(logs: CapturedLogs, items: Seq<Result<LogOutput, String>>) -> bool {
    &&& logs.stdout@ == captured_stdout(items)
    &&& logs.stderr@ == captured_stderr(items)
    &&& match last_failure(items) {
        Some(reason) => logs.failure matches Some(text) && text@ == reason,
        None => logs.failure is None,
    }
}

/// Gathers what was drained from the streams of an instance, piece by piece:
/// the two output streams each in a text of its own, and the last failure.
/// Pieces after a failure are still gathered.
pub fn capture(items: &Vec<Result<LogOutput, String>>) -> (logs: CapturedLogs)
    ensures
        is_capture(logs, items@),
{
    let mut failure: Option<String> = None;
    let mut stdout = String::new();
    let mut stderr = String::new();
    let mut i: usize = 0;
    assert(items@.take(0) =~= Seq::<Result<LogOutput, String>>::empty());
    while i < items.len()
        invariant
            i <= items.len(),
            stdout@ == captured_stdout(items@.take(i as int)),
            stderr@ == captured_stderr(items@.take(i as int)),
            match last_failure(items@.take(i as int)) {
                Some(reason) => failure matches Some(text) && text@ == reason,
                None => failure is None,
            },
        decreases items.len() - i,
    {
        assert(items@.take(i + 1).drop_last() =~= items@.take(i as int));
        assert(items@.take(i + 1).last() == items@[i as int]);
        match &items[i] {
            Ok(LogOutput::StdOut { message }) => {
                let text = decode_lossy(message);
                stdout.append(text.as_str());
                assert(stderr@ + Seq::<char>::empty() =~= stderr@);
            },
            Ok(LogOutput::StdErr { message }) => {
                let text = decode_lossy(message);
                stderr.append(text.as_str());
                assert(stdout@ + Seq::<char>::empty() =~= stdout@);
            },
            Ok(_) => {
                assert(stdout@ + Seq::<char>::empty() =~= stdout@);
                assert(stderr@ + Seq::<char>::empty() =~= stderr@);
            },
            Err(reason) => {
                failure = Some(reason.clone());
                assert(stdout@ + Seq::<char>::empty() =~= stdout@);
                assert(stderr@ + Seq::<char>::empty() =~= stderr@);
            },
        }
        i += 1;
    }
    assert(items@.take(items.len() as int) =~= items@);
    CapturedLogs { failure, stdout, stderr }
}

/// Whether an execution measured anything: its streams were drained without
/// failure, the instance ended cleanly, and every word of its output is a
/// number.
pub open spec fn usable(exit_clean: bool, logs: CapturedLogs) -> bool {
    &&& logs.failure is None
    &&& exit_clean
    &&& all_readable(words(logs.stdout@))
}

/// Why an execution measured nothing.
#[derive(Debug)]
pub enum Skipped {
    /// The streams of the instance could not be drained; `reason` says why.
    Draining { reason: String },
    /// The instance did not end cleanly.
    Exit,
    /// What the instance wrote is no list of numbers; `error` names the
    /// first word that is no number.
    Output { error: ParseError },
}

/// Whether `outcome` is what the execution of `benchmark` on `runner`
/// amounts to. It is a run exactly where the execution is usable, and then
/// the record of the durations that the output holds. Else it says what
/// went wrong first: draining the streams, the end of the instance, or the
/// output, in this order.
pub open spec fn is_outcome(
    outcome: Result<Run, Skipped>,
    runner: Seq<char>,
    benchmark: Seq<char>,
    exit_clean: bool,
    logs: CapturedLogs,
) -> bool {
    match outcome {
        Ok(run) => {
            &&& usable(exit_clean, logs)
            &&& durations_of(words(logs.stdout@), run.durations@)
            &&& is_record(run, runner, benchmark, run.durations@)
        },
        Err(Skipped::Draining { reason }) => logs.failure matches Some(text) && reason@ == text@,
        Err(Skipped::Exit) => logs.failure is None && !exit_clean,
        Err(Skipped::Output { error }) => {
            &&& logs.failure is None
            &&& exit_clean
            &&& is_first_unreadable(words(logs.stdout@), error)
        },
    }
}

/// Says what an execution amounts to, once it is known how the instance
/// ended and what it wrote.
pub fn conclude(
    runner: &RunnerIdentifier,
    benchmark: &BenchmarkIdentifier,
    exit_clean: bool,
    logs: &CapturedLogs,
) -> (outcome: Result<Run, Skipped>)
    ensures
        is_outcome(outcome, runner@, benchmark@, exit_clean, *logs),
{
    if let Some(reason) = &logs.failure {
        return Err(Skipped::Draining { reason: reason.clone() });
    }
    if !exit_clean {
        return Err(Skipped::Exit);
    }
    match parse(logs.stdout.as_str()) {
        Ok(durations) => Ok(Run::new(runner, benchmark, durations)),
        Err(error) => Err(Skipped::Output { error }),
    }
}

/// An execution whose streams were drained without failure, that ended
/// cleanly and that wrote numbers that are not negative, in decimal notation
/// and with any whitespace around them, amounts to a run, and the run holds
/// exactly these numbers as durations, each rounded to the nearest
/// microsecond, in their order.
pub proof fn lemma_outcome_of_numerals(
    outcome: Result<Run, Skipped>,
    runner: Seq<char>,
    benchmark: Seq<char>,
    logs: CapturedLogs,
    wholes: Seq<nat>,
    fractions: Seq<Option<Seq<char>>>,
    lead: Seq<char>,
    gaps: Seq<Seq<char>>,
)
    requires
        is_outcome(outcome, runner, benchmark, true, logs),
        logs.failure is None,
        logs.stdout@ == numerals_text(wholes, fractions, lead, gaps),
        fractions.len() == wholes.len(),
        gaps.len() == wholes.len(),
        are_fractions(fractions),
        is_blank(lead),
        are_gaps(gaps),
    ensures
        outcome is Ok,
        outcome->Ok_0.durations@.len() == wholes.len(),
        forall|i: int|
            0 <= i < wholes.len() ==> (#[trigger] outcome->Ok_0.durations@[i])@ == numeral_micros(
                wholes[i],
                fractions[i],
            ) * 1000,
{
    match outcome {
        Ok(run) => {
            lemma_parse_of_numerals(wholes, fractions, lead, gaps, run.durations@);
        },
        Err(_) => {
            lemma_parse_of_numerals(wholes, fractions, lead, gaps, Seq::empty());
        },
    }
}

/// Where an execution stands: the step that is being performed, or
/// `Finished` once nothing is left to do.
#[derive(Clone, Copy, Debug, PartialEq, Eq, Structural)]
pub enum Stage {
    /// The instance is being created.
    Creating,
    /// The instance is being started.
    Starting,
    /// The instance is running, and its end is awaited.
    Waiting,
    /// The streams of the instance are being drained.
    Reading,
    /// The instance is being removed.
    Removing,
    /// The execution is over.
    Finished,
}

impl Stage {
    /// The stage that follows this one; `Finished` is followed by itself.
    pub open spec fn next(self) -> Stage {
        match self {
            Stage::Creating => Stage::Starting,
            Stage::Starting => Stage::Waiting,
            Stage::Waiting => Stage::Reading,
            Stage::Reading => Stage::Removing,
            Stage::Removing => Stage::Finished,
            Stage::Finished => Stage::Finished,
        }
    }

    /// How many steps have been completed when this stage is reached.
    pub open spec fn rank(self) -> nat {
        match self {
            Stage::Creating => 0,
            Stage::Starting => 1,
            Stage::Waiting => 2,
            Stage::Reading => 3,
            Stage::Removing => 4,
            Stage::Finished => 5,
        }
    }
}

/// What the driver asks for.
#[derive(Debug)]
pub enum Action {
    /// Create an instance called `name` from the image `image`, to be started
    /// with the arguments `cmd`.
    CreateContainer { name: String, image: String, cmd: Vec<String> },
    /// Start the instance called `name`.
    StartContainer { name: String },
    /// Wait until the instance called `name` has ended.
    WaitContainer { name: String },
    /// Drain the output streams of the instance called `name`.
    ReadLogs { name: String },
    /// Remove the instance called `name`.
    RemoveContainer { name: String },
    /// Nothing more: the execution is over, and `outcome` is the run that it
    /// measured, or why it measured nothing.
    Finish { outcome: Result<Run, Skipped> },
}

/// What the driver is told: how the step it asked for went.
#[derive(Debug)]
pub enum Event {
    /// The instance was created, or could not be.
    Created { ok: bool },
    /// The instance was started, or could not be.
    Started { ok: bool },
    /// The wait is over; `clean` says whether the instance ended as it
    /// should.
    Exited { clean: bool },
    /// The streams were drained; `items` holds the pieces and the failures.
    Logs { items: Vec<Result<LogOutput, String>> },
    /// The instance was removed, or could not be.
    Removed { ok: bool },
}

/// Whether `event` reports on the step of the stage `stage`.
pub open spec fn answers(event: Event, stage: Stage) -> bool {
    match stage {
        Stage::Creating => event is Created,
        Stage::Starting => event is Started,
        Stage::Waiting => event is Exited,
        Stage::Reading => event is Logs,
        Stage::Removing => event is Removed,
        Stage::Finished => false,
    }
}

/// The stage that an execution in stage `stage` is in after `event`: the next
/// one where the event reports on the step of `stage`, whatever it reports,
/// and `stage` as before where it does not.
pub open spec fn stage_after(stage: Stage, event: Event) -> Stage {
    if answers(event, stage) {
        stage.next()
    } else {
        stage
    }
}

/// One execution of a benchmark on a runner, as far as it has come.
#[derive(Debug)]
pub struct Execution {
    /// Where the execution stands.
    pub stage: Stage,
    /// The runner.
    pub runner: RunnerIdentifier,
    /// The benchmark.
    pub benchmark: BenchmarkIdentifier,
    /// The name of the instance.
    pub name: String,
    /// Whether the instance ended cleanly; `true` until the wait is over.
    pub exit_clean: bool,
    /// What was drained from the streams; empty until they are drained.
    pub logs: CapturedLogs,
}

/// Whether `action` is what an execution that has just reached the stage of
/// `execution` asks for: the step of that stage on the instance of the
/// execution, or, once it is over, the end with what was measured.
pub open spec fn is_request(action: Action, execution: Execution) -> bool {
    match execution.stage {
        Stage::Creating => false,
        Stage::Starting => action matches Action::StartContainer { name } && name@
            == execution.name@,
        Stage::Waiting => action matches Action::WaitContainer { name } && name@
            == execution.name@,
        Stage::Reading => action matches Action::ReadLogs { name } && name@ == execution.name@,
        Stage::Removing => action matches Action::RemoveContainer { name } && name@
            == execution.name@,
        Stage::Finished => action matches Action::Finish { outcome } && is_outcome(
            outcome,
            execution.runner@,
            execution.benchmark@,
            execution.exit_clean,
            execution.logs,
        ),
    }
}

/// Whether `after` records what `event` told an execution that was as
/// `before`: how the instance ended where the event ends the wait, what was
/// drained where the event brings it, and everything else as it was.
pub open spec fn records(before: Execution, event: Event, after: Execution) -> bool {
    &&& after.runner@ == before.runner@
    &&& after.benchmark@ == before.benchmark@
    &&& after.name@ == before.name@
    &&& after.exit_clean == if before.stage == Stage::Waiting && event is Exited {
        event->clean
    } else {
        before.exit_clean
    }
    &&& if before.stage == Stage::Reading && event is Logs {
        is_capture(after.logs, event->items@)
    } else {
        &&& after.logs.stdout@ == before.logs.stdout@
        &&& after.logs.stderr@ == before.logs.stderr@
        &&& after.logs.failure is Some == before.logs.failure is Some
        &&& after.logs.failure is Some ==> after.logs.failure->0@ == before.logs.failure->0@
    }
}

impl Execution {
    /// Begins the execution of `benchmark` on `runner`: the first thing asked
    /// for is an instance of the runner's image, named after the pair, that
    /// will be started with the arguments of the benchmark.
    pub fn begin(benchmark: &Benchmark, runner: &Runner) -> (begun: (Execution, Action))
        ensures
            begun.0.stage == Stage::Creating,
            begun.0.runner@ == runner.identifier@,
            begun.0.benchmark@ == benchmark.identifier@,
            begun.0.name@ == container_name_text(
                crate::runs::pair_text(runner.identifier@, benchmark.identifier@),
            ),
            begun.0.exit_clean,
            begun.0.logs.failure is None,
            begun.0.logs.stdout@ == Seq::<char>::empty(),
            begun.0.logs.stderr@ == Seq::<char>::empty(),
            begun.1 matches Action::CreateContainer { name, image, cmd } && name@ == begun.0.name@
                && image@ == runner.docker_image_tag@ && views(cmd@) == invocation_texts(
                *benchmark,
            ),
    {
        let run = Identifier::for_pair(&runner.identifier, &benchmark.identifier);
        let name = container_name(&run);
        let action = Action::CreateContainer {
            name: name.clone(),
            image: runner.docker_image_tag.clone(),
            cmd: invocation(benchmark),
        };
        let execution = Execution {
            stage: Stage::Creating,
            runner: runner.identifier.clone(),
            benchmark: benchmark.identifier.clone(),
            name,
            exit_clean: true,
            logs: CapturedLogs { failure: None, stdout: String::new(), stderr: String::new() },
        };
        (execution, action)
    }

    /// Takes the report on the step that was asked for last, and asks for the
    /// next one.
    ///
    /// An event that reports on the pending step moves the execution on to
    /// the next stage, whether the step went well or not. An event that does
    /// not report on the pending step changes nothing, and nothing is asked
    /// for.
    pub fn step(&mut self, event: Event) -> (action: Option<Action>)
        ensures
            final(self).stage == stage_after(old(self).stage, event),
            records(*old(self), event, *final(self)),
            action is Some <==> answers(event, old(self).stage),
            action matches Some(a) ==> is_request(a, *final(self)),
    {
        match (self.stage, event) {
            (Stage::Creating, Event::Created { ok: _ }) => {
                self.stage = Stage::Starting;
                Some(Action::StartContainer { name: self.name.clone() })
            },
            (Stage::Starting, Event::Started { ok: _ }) => {
                self.stage = Stage::Waiting;
                Some(Action::WaitContainer { name: self.name.clone() })
            },
            (Stage::Waiting, Event::Exited { clean }) => {
                self.exit_clean = clean;
                self.stage = Stage::Reading;
                Some(Action::ReadLogs { name: self.name.clone() })
            },
            (Stage::Reading, Event::Logs { items }) => {
                self.logs = capture(&items);
                self.stage = Stage::Removing;
                Some(Action::RemoveContainer { name: self.name.clone() })
            },
            (Stage::Removing, Event::Removed { ok: _ }) => {
                self.stage = Stage::Finished;
                let outcome = conclude(
                    &self.runner,
                    &self.benchmark,
                    self.exit_clean,
                    &self.logs,
                );
                Some(Action::Finish { outcome })
            },
            _ => None,
        }
    }
}

/// The stage that an execution in stage `stage` is in after the events
/// `events`, one after the other.
pub open spec fn stage_after_all(stage: Stage, events: Seq<Event>) -> Stage
    decreases events.len(),
{
    if events.len() == 0 {
        stage
    } else {
        stage_after(stage_after_all(stage, events.drop_last()), events.last())
    }
}

/// How often an execution that starts in stage `stage` asks for the removal
/// of its instance while it is told the events `events`: once for every event
/// that takes it into the stage `Removing`.
pub open spec fn removals(stage: Stage, events: Seq<Event>) -> nat
    decreases events.len(),
{
    if events.len() == 0 {
        0
    } else {
        let before = stage_after_all(stage, events.drop_last());
        let asked: nat = if before == Stage::Reading && stage_after(before, events.last())
            == Stage::Removing {
            1
        } else {
            0
        };
        removals(stage, events.drop_last()) + asked
    }
}

/// Whatever an execution is told, and whatever its steps report, it asks for
/// the removal of its instance once it has been told how draining the streams
/// went, and never again: at most once in all, and exactly once where it has
/// reached the stage `Removing` or is over.
pub proof fn lemma_removes_exactly_once(events: Seq<Event>)
    ensures
        removals(Stage::Creating, events) == if stage_after_all(Stage::Creating, events).rank()
            >= 4 {
            1nat
        } else {
            0nat
        },
    decreases events.len(),
{
    if events.len() > 0 {
        lemma_removes_exactly_once(events.drop_last());
    }
}

/// An execution is over after five reports, one on each step in turn,
/// whatever they report; failures at creating, starting or waiting do not
/// keep it from removing its instance.
pub proof fn lemma_five_steps(
    created: bool,
    started: bool,
    clean: bool,
    items: Vec<Result<LogOutput, String>>,
    removed: bool,
)
    ensures
        ({
            let events = seq![
                Event::Created { ok: created },
                Event::Started { ok: started },
                Event::Exited { clean },
                Event::Logs { items },
                Event::Removed { ok: removed },
            ];
            &&& stage_after_all(Stage::Creating, events.take(4)) == Stage::Removing
            &&& stage_after_all(Stage::Creating, events) == Stage::Finished
            &&& removals(Stage::Creating, events) == 1
        }),
{
    let events = seq![
        Event::Created { ok: created },
        Event::Started { ok: started },
        Event::Exited { clean },
        Event::Logs { items },
        Event::Removed { ok: removed },
    ];
    assert(events.take(0) =~= Seq::<Event>::empty());
    assert(events.take(1).drop_last() =~= events.take(0));
    assert(events.take(2).drop_last() =~= events.take(1));
    assert(events.take(3).drop_last() =~= events.take(2));
    assert(events.take(4).drop_last() =~= events.take(3));
    assert(events.drop_last() =~= events.take(4));
    assert(stage_after_all(Stage::Creating, events.take(0)) == Stage::Creating);
    assert(stage_after_all(Stage::Creating, events.take(1)) == Stage::Starting);
    assert(stage_after_all(Stage::Creating, events.take(2)) == Stage::Waiting);
    assert(stage_after_all(Stage::Creating, events.take(3)) == Stage::Reading);
    assert(stage_after_all(Stage::Creating, events.take(4)) == Stage::Removing);
    lemma_removes_exactly_once(events);
}

} // verus!
