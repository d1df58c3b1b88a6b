use evm_bench::benchmarks::{
    Benchmark, BenchmarkMetadata, BenchmarkMetadataCost, Identifier as BenchmarkIdentifier,
};
use evm_bench::driver::{
    capture, conclude, container_name, invocation, Action, CapturedLogs, Event, Execution,
    LogOutput, Skipped, Stage,
};
use evm_bench::runners::{Identifier as RunnerIdentifier, Runner, RunnerMetadata};
use evm_bench::runs::{num_runs_for_benchmark_cost, Identifier, Run};
use evm_bench::time::Duration;

fn benchmark(name: &str, cost: BenchmarkMetadataCost) -> Benchmark {
    Benchmark {
        identifier: BenchmarkIdentifier::new(name),
        metadata: BenchmarkMetadata {
            name: name.to_string(),
            contract: format!("{name}.sol"),
            calldata: "30627b7c".to_string(),
            cost,
        },
        bytecode: vec![0x60, 0x80, 0x60, 0x40, 0x52, 0x00, 0xff, 0x0a],
        calldata: vec![0x30, 0x62, 0x7b, 0x7c],
    }
}

fn runner(name: &str) -> Runner {
    Runner {
        identifier: RunnerIdentifier::new(name),
        metadata: RunnerMetadata { name: name.to_string(), dockerfile: "Dockerfile".to_string() },
        docker_image_tag: format!("{name}:latest"),
    }
}

fn stdout(text: &str) -> Result<LogOutput, String> {
    Ok(LogOutput::StdOut { message: text.as_bytes().to_vec() })
}

fn stderr(text: &str) -> Result<LogOutput, String> {
    Ok(LogOutput::StdErr { message: text.as_bytes().to_vec() })
}

fn logs(stdout: &str) -> CapturedLogs {
    CapturedLogs { failure: None, stdout: stdout.to_string(), stderr: String::new() }
}

fn name_of(action: &Action) -> String {
    match action {
        Action::CreateContainer { name, .. } => format!("create {name}"),
        Action::StartContainer { name } => format!("start {name}"),
        Action::WaitContainer { name } => format!("wait {name}"),
        Action::ReadLogs { name } => format!("logs {name}"),
        Action::RemoveContainer { name } => format!("remove {name}"),
        Action::Finish { outcome } => format!("finish {}", outcome.is_ok()),
    }
}

/// Runs one execution to its end and returns what was asked for, step by
/// step, and the run.
fn drive(
    created: bool,
    started: bool,
    clean: bool,
    items: Vec<Result<LogOutput, String>>,
    removed: bool,
) -> (Vec<String>, Result<Run, Skipped>) {
    let (mut execution, first) =
        Execution::begin(&benchmark("snailtracer", BenchmarkMetadataCost::Expensive), &runner("revm"));
    let mut asked = vec![name_of(&first)];
    let mut items = Some(items);
    let mut action = first;
    loop {
        let event = match action {
            Action::CreateContainer { .. } => Event::Created { ok: created },
            Action::StartContainer { .. } => Event::Started { ok: started },
            Action::WaitContainer { .. } => Event::Exited { clean },
            Action::ReadLogs { .. } => Event::Logs { items: items.take().unwrap() },
            Action::RemoveContainer { .. } => Event::Removed { ok: removed },
            Action::Finish { outcome } => {
                assert_eq!(execution.stage, Stage::Finished);
                return (asked, outcome);
            }
        };
        action = execution.step(event).unwrap();
        asked.push(name_of(&action));
    }
}

#[test]
fn repetitions_follow_the_cost() {
    assert_eq!(num_runs_for_benchmark_cost(BenchmarkMetadataCost::Cheap), 25);
    assert_eq!(num_runs_for_benchmark_cost(BenchmarkMetadataCost::Moderate), 10);
    assert_eq!(num_runs_for_benchmark_cost(BenchmarkMetadataCost::Expensive), 3);
}

#[test]
fn invocation_holds_code_calldata_and_repetitions() {
    assert_eq!(
        invocation(&benchmark("a", BenchmarkMetadataCost::Cheap)),
        vec!["--contract-code", "608060405200ff0a", "--calldata", "30627b7c", "--num-runs", "25"]
    );
    assert_eq!(invocation(&benchmark("a", BenchmarkMetadataCost::Moderate))[5], "10");
    assert_eq!(invocation(&benchmark("a", BenchmarkMetadataCost::Expensive))[5], "3");
}

#[test]
fn invocation_of_empty_code() {
    let mut empty = benchmark("a", BenchmarkMetadataCost::Cheap);
    empty.bytecode = vec![];
    empty.calldata = vec![];
    assert_eq!(
        invocation(&empty),
        vec!["--contract-code", "", "--calldata", "", "--num-runs", "25"]
    );
}

#[test]
fn instances_are_named_after_the_pair() {
    let run = Identifier::for_pair(&RunnerIdentifier::new("revm"), &BenchmarkIdentifier::new("erc20"));
    assert_eq!(run.to_string(), "revm_erc20");
    assert_eq!(container_name(&run), "emv-bench_revm_erc20");
}

#[test]
fn capture_keeps_the_streams_apart() {
    let logs = capture(&vec![
        stdout("10\n"),
        stderr("warming up\n"),
        Ok(LogOutput::Console { message: b"tty".to_vec() }),
        Ok(LogOutput::StdIn { message: b"in".to_vec() }),
        stdout("20\n"),
        stderr("done\n"),
    ]);
    assert_eq!(logs.failure, None);
    assert_eq!(logs.stdout, "10\n20\n");
    assert_eq!(logs.stderr, "warming up\ndone\n");
}

#[test]
fn capture_remembers_the_last_failure() {
    let logs = capture(&vec![
        stdout("10\n"),
        Err("connection reset".to_string()),
        stdout("20\n"),
        Err("timed out".to_string()),
        stderr("late\n"),
    ]);
    assert_eq!(logs.failure, Some("timed out".to_string()));
    assert_eq!(logs.stdout, "10\n20\n");
    assert_eq!(logs.stderr, "late\n");
}

#[test]
fn capture_replaces_bytes_that_are_no_text() {
    let logs = capture(&vec![Ok(LogOutput::StdOut { message: vec![b'1', 0xff, b'2'] })]);
    assert_eq!(logs.stdout, "1\u{fffd}2");
}

#[test]
fn capture_of_nothing() {
    let logs = capture(&vec![]);
    assert_eq!(logs.failure, None);
    assert_eq!(logs.stdout, "");
    assert_eq!(logs.stderr, "");
}

#[test]
fn conclude_records_the_run() {
    let run = conclude(
        &RunnerIdentifier::new("revm"),
        &BenchmarkIdentifier::new("erc20"),
        true,
        &logs("10000\n20000\n30000\n"),
    )
    .unwrap();
    assert_eq!(run.identifier.to_string(), "revm_erc20");
    assert_eq!(run.runner_identifier.to_string(), "revm");
    assert_eq!(run.benchmark_identifier.to_string(), "erc20");
    assert_eq!(
        run.durations,
        vec![Duration::from_millis(10), Duration::from_millis(20), Duration::from_millis(30)]
    );
    assert_eq!(run.average_duration, Duration::from_millis(20));
}

#[test]
fn conclude_of_empty_output_is_a_run_without_durations() {
    let run = conclude(
        &RunnerIdentifier::new("revm"),
        &BenchmarkIdentifier::new("erc20"),
        true,
        &logs(""),
    )
    .unwrap();
    assert_eq!(run.durations, vec![]);
    assert_eq!(run.average_duration, Duration::zero());
}

#[test]
fn conclude_skips_what_cannot_be_trusted() {
    let runner = RunnerIdentifier::new("revm");
    let benchmark = BenchmarkIdentifier::new("erc20");
    match conclude(&runner, &benchmark, false, &logs("10\n")) {
        Err(Skipped::Exit) => {}
        other => panic!("{:?}", other),
    }
    match conclude(&runner, &benchmark, true, &logs("10\nabc\n")) {
        Err(Skipped::Output { error }) => {
            assert_eq!(error.position, 1);
            assert_eq!(error.word, "abc");
        }
        other => panic!("{:?}", other),
    }
    let failed = CapturedLogs {
        failure: Some("broken pipe".to_string()),
        stdout: "10\n".to_string(),
        stderr: String::new(),
    };
    match conclude(&runner, &benchmark, true, &failed) {
        Err(Skipped::Draining { reason }) => assert_eq!(reason, "broken pipe"),
        other => panic!("{:?}", other),
    }
}

#[test]
fn conclude_names_what_went_wrong_first() {
    let runner = RunnerIdentifier::new("revm");
    let benchmark = BenchmarkIdentifier::new("erc20");
    let failed = CapturedLogs {
        failure: Some("broken pipe".to_string()),
        stdout: "abc\n".to_string(),
        stderr: String::new(),
    };
    match conclude(&runner, &benchmark, false, &failed) {
        Err(Skipped::Draining { reason }) => assert_eq!(reason, "broken pipe"),
        other => panic!("{:?}", other),
    }
    match conclude(&runner, &benchmark, false, &logs("abc\n")) {
        Err(Skipped::Exit) => {}
        other => panic!("{:?}", other),
    }
}

#[test]
fn an_execution_begins_by_creating_the_instance() {
    let (execution, action) =
        Execution::begin(&benchmark("erc20", BenchmarkMetadataCost::Moderate), &runner("revm"));
    assert_eq!(execution.stage, Stage::Creating);
    assert_eq!(execution.name, "emv-bench_revm_erc20");
    match action {
        Action::CreateContainer { name, image, cmd } => {
            assert_eq!(name, "emv-bench_revm_erc20");
            assert_eq!(image, "revm:latest");
            assert_eq!(
                cmd,
                vec!["--contract-code", "608060405200ff0a", "--calldata", "30627b7c", "--num-runs", "10"]
            );
        }
        other => panic!("{:?}", other),
    }
}

#[test]
fn an_execution_that_goes_well() {
    let (asked, run) = drive(true, true, true, vec![stdout("1.5\n2.5\n"), stderr("note")], true);
    assert_eq!(
        asked,
        vec![
            "create emv-bench_revm_snailtracer",
            "start emv-bench_revm_snailtracer",
            "wait emv-bench_revm_snailtracer",
            "logs emv-bench_revm_snailtracer",
            "remove emv-bench_revm_snailtracer",
            "finish true",
        ]
    );
    let run = run.unwrap();
    assert_eq!(run.identifier.to_string(), "revm_snailtracer");
    assert_eq!(run.durations, vec![Duration::from_micros(2), Duration::from_micros(3)]);
    assert_eq!(run.average_duration.as_nanos(), 2_500);
}

#[test]
fn the_instance_is_removed_once_whatever_fails() {
    for failing in 0..32u32 {
        let created = failing & 1 == 0;
        let started = failing & 2 == 0;
        let clean = failing & 4 == 0;
        let drained = failing & 8 == 0;
        let removed = failing & 16 == 0;
        let items = if drained {
            vec![stdout("5\n")]
        } else {
            vec![stdout("5\n"), Err("stream closed".to_string())]
        };
        let (asked, run) = drive(created, started, clean, items, removed);
        assert_eq!(asked.len(), 6);
        assert_eq!(asked.iter().filter(|a| a.starts_with("remove ")).count(), 1);
        assert_eq!(asked[4], "remove emv-bench_revm_snailtracer");
        assert_eq!(asked[5], format!("finish {}", clean && drained));
        assert_eq!(run.is_ok(), clean && drained);
    }
}

#[test]
fn an_event_out_of_turn_changes_nothing() {
    let (mut execution, _) =
        Execution::begin(&benchmark("erc20", BenchmarkMetadataCost::Cheap), &runner("revm"));
    assert!(execution.step(Event::Removed { ok: true }).is_none());
    assert!(execution.step(Event::Exited { clean: false }).is_none());
    assert!(execution.step(Event::Logs { items: vec![Err("x".to_string())] }).is_none());
    assert_eq!(execution.stage, Stage::Creating);
    assert!(execution.exit_clean);
    assert_eq!(execution.logs.failure, None);
    assert!(execution.step(Event::Created { ok: true }).is_some());
    assert!(execution.step(Event::Created { ok: true }).is_none());
    assert_eq!(execution.stage, Stage::Starting);
}

#[test]
fn nothing_is_asked_for_after_the_end() {
    let (mut execution, _) =
        Execution::begin(&benchmark("erc20", BenchmarkMetadataCost::Cheap), &runner("revm"));
    execution.step(Event::Created { ok: false }).unwrap();
    execution.step(Event::Started { ok: false }).unwrap();
    execution.step(Event::Exited { clean: false }).unwrap();
    execution.step(Event::Logs { items: vec![] }).unwrap();
    execution.step(Event::Removed { ok: false }).unwrap();
    assert_eq!(execution.stage, Stage::Finished);
    assert!(execution.step(Event::Removed { ok: true }).is_none());
    assert!(execution.step(Event::Created { ok: true }).is_none());
    assert_eq!(execution.stage, Stage::Finished);
}

#[test]
fn output_below_zero_is_no_run() {
    let runner = RunnerIdentifier::new("revm");
    let benchmark = BenchmarkIdentifier::new("erc20");
    match conclude(&runner, &benchmark, true, &logs("-5")) {
        Err(Skipped::Output { error }) => {
            assert_eq!(error.position, 0);
            assert_eq!(error.word, "-5");
        }
        other => panic!("{:?}", other),
    }
    for output in ["10\nnan\n", "inf", "1 2 -0.5"] {
        assert!(matches!(
            conclude(&runner, &benchmark, true, &logs(output)),
            Err(Skipped::Output { .. })
        ));
    }
}
