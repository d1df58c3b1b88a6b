use evm_bench::benchmarks::Identifier as BenchmarkIdentifier;
use evm_bench::coordinator::Session;
use evm_bench::results::{create_markdown_table as table_pieces, Piece, TableError};
use evm_bench::runners::Identifier as RunnerIdentifier;
use evm_bench::runs::Run;
use evm_bench::time::Duration;

fn seconds(time: &Duration) -> f64 {
    std::time::Duration::new(time.as_secs(), time.subsec_nanos()).as_secs_f64()
}

/// The table as it is written: text as it is, figures with two decimals.
fn create_markdown_table(runs: &Vec<Run>) -> Result<String, TableError> {
    let pieces = table_pieces(runs)?;
    Ok(pieces
        .iter()
        .map(|piece| match piece {
            Piece::Text { text } => text.clone(),
            Piece::Seconds { time } => format!("{:.2}", seconds(time)),
            Piece::Ratio { total, fastest } => format!("{:.2}", seconds(total) / seconds(fastest)),
        })
        .collect())
}

fn run(runner: &str, benchmark: &str, millis: u64) -> Run {
    Run::new(
        &RunnerIdentifier::new(runner),
        &BenchmarkIdentifier::new(benchmark),
        vec![Duration::from_millis(millis)],
    )
}

/// Walks the whole matrix; `works` says which pairs measure something.
fn walk(runners: &[&str], benchmarks: &[&str], works: impl Fn(&str, &str) -> bool) -> (Vec<(usize, usize)>, Vec<Run>) {
    let mut session = Session::new(runners.len(), benchmarks.len());
    let mut walked = vec![];
    while let Some((r, b)) = session.current() {
        walked.push((r, b));
        let outcome = if works(runners[r], benchmarks[b]) {
            Some(run(runners[r], benchmarks[b], 1 + walked.len() as u64))
        } else {
            None
        };
        session.record(outcome);
    }
    (walked, session.into_runs())
}

fn names(runs: &[Run]) -> Vec<String> {
    runs.iter().map(|run| run.identifier.to_string()).collect()
}

#[test]
fn pairs_are_walked_runner_by_runner() {
    let (walked, runs) = walk(&["x", "y"], &["a", "b", "c"], |_, _| true);
    assert_eq!(walked, vec![(0, 0), (0, 1), (0, 2), (1, 0), (1, 1), (1, 2)]);
    assert_eq!(names(&runs), vec!["x_a", "x_b", "x_c", "y_a", "y_b", "y_c"]);
}

#[test]
fn a_failed_pair_is_skipped() {
    for skipped in 0..6 {
        let (walked, runs) = walk(&["x", "y", "z"], &["a", "b"], |r, b| {
            format!("{r}_{b}") != ["x_a", "x_b", "y_a", "y_b", "z_a", "z_b"][skipped]
        });
        assert_eq!(walked.len(), 6);
        assert_eq!(runs.len(), 5);
        let mut expected = vec!["x_a", "x_b", "y_a", "y_b", "z_a", "z_b"];
        expected.remove(skipped);
        assert_eq!(names(&runs), expected);
    }
}

#[test]
fn two_benchmarks_on_two_runners_with_one_failure() {
    let (walked, runs) = walk(&["X", "Y"], &["A", "B"], |r, b| !(r == "Y" && b == "B"));
    assert_eq!(walked, vec![(0, 0), (0, 1), (1, 0), (1, 1)]);
    assert_eq!(names(&runs), vec!["X_A", "X_B", "Y_A"]);
    assert_eq!(create_markdown_table(&runs), Err(TableError::MissingRun));
}

#[test]
fn two_benchmarks_on_two_runners_without_failure() {
    let (_, runs) = walk(&["X", "Y"], &["A", "B"], |_, _| true);
    assert_eq!(
        create_markdown_table(&runs).unwrap(),
        "| Benchmark | X | Y |\n\
         | --- | --- | --- |\n\
         | Relative Performance | 1.00x | 1.80x |\n\
         | Total Time |    5ms |    9ms |\n\
         | A |    2ms |    4ms |\n\
         | B |    3ms |    5ms |\n"
    );
}

#[test]
fn an_empty_matrix_is_complete_at_once() {
    assert_eq!(Session::new(0, 0).current(), None);
    assert_eq!(Session::new(3, 0).current(), None);
    assert_eq!(Session::new(0, 3).current(), None);
    let (walked, runs) = walk(&[], &["a"], |_, _| true);
    assert!(walked.is_empty());
    assert!(runs.is_empty());
}

#[test]
fn nothing_is_recorded_after_the_last_pair() {
    let mut session = Session::new(1, 1);
    assert_eq!(session.current(), Some((0, 0)));
    session.record(Some(run("x", "a", 1)));
    assert_eq!(session.current(), None);
    session.record(Some(run("x", "b", 2)));
    session.record(None);
    assert_eq!(session.current(), None);
    assert_eq!(names(&session.into_runs()), vec!["x_a"]);
}

#[test]
fn a_session_counts_what_was_attempted_and_what_succeeded() {
    let mut session = Session::new(2, 2);
    assert_eq!((session.attempted(), session.succeeded()), (0, 0));
    session.record(Some(run("x", "a", 1)));
    assert_eq!((session.attempted(), session.succeeded()), (1, 1));
    session.record(None);
    assert_eq!((session.attempted(), session.succeeded()), (2, 1));
    session.record(Some(run("y", "a", 1)));
    session.record(None);
    assert_eq!((session.attempted(), session.succeeded()), (4, 2));
    session.record(Some(run("y", "b", 1)));
    assert_eq!((session.attempted(), session.succeeded()), (4, 2));
    assert_eq!(Session::new(usize::MAX, 0).attempted(), 0);
}
