use evm_bench::benchmarks::Identifier as BenchmarkIdentifier;
use evm_bench::results::{create_markdown_table as table_pieces, Piece, TableError};
use evm_bench::runners::Identifier as RunnerIdentifier;
use evm_bench::runs::Run;
use evm_bench::time::{Duration, MAX_NANOS};

fn run(runner: &str, benchmark: &str, durations: Vec<Duration>) -> Run {
    Run::new(&RunnerIdentifier::new(runner), &BenchmarkIdentifier::new(benchmark), durations)
}

fn seconds(time: &Duration) -> f64 {
    std::time::Duration::new(time.as_secs(), time.subsec_nanos()).as_secs_f64()
}

/// The table as it is written: text as it is, figures with two decimals.
fn create_markdown_table(runs: &Vec<Run>) -> Result<String, TableError> {
    let pieces = table_pieces(runs)?;
    Ok(pieces
        .iter()
        .map(|piece| match piece {
            Piece::Text { text } => text.clone(),
            Piece::Seconds { time } => format!("{:.2}", seconds(time)),
            Piece::Ratio { total, fastest } => format!("{:.2}", seconds(total) / seconds(fastest)),
        })
        .collect())
}

fn run_of_millis(runner: &str, benchmark: &str, millis: u64) -> Run {
    run(runner, benchmark, vec![Duration::from_millis(millis)])
}

#[test]
fn relative_performance_of_two_runners() {
    let runs = vec![run_of_millis("slow", "a", 250), run_of_millis("fast", "a", 100)];
    let table = create_markdown_table(&runs).unwrap();
    assert_eq!(
        table,
        "| Benchmark | fast | slow |\n\
         | --- | --- | --- |\n\
         | Relative Performance | 1.00x | 2.50x |\n\
         | Total Time |  100ms |  250ms |\n\
         | a |  100ms |  250ms |\n"
    );
}

#[test]
fn columns_by_total_time_and_rows_by_name() {
    let runs = vec![
        run_of_millis("zeta", "storage", 40),
        run_of_millis("zeta", "arith", 2),
        run_of_millis("alpha", "storage", 1200),
        run_of_millis("alpha", "arith", 35),
        run_of_millis("mid", "arith", 3),
        run_of_millis("mid", "storage", 60),
    ];
    let table = create_markdown_table(&runs).unwrap();
    assert_eq!(
        table,
        "| Benchmark | zeta | mid | alpha |\n\
         | --- | --- | --- | --- |\n\
         | Relative Performance | 1.00x | 1.50x | 29.40x |\n\
         | Total Time |   42ms |   63ms | 1.23s |\n\
         | arith |    2ms |    3ms |   35ms |\n\
         | storage |   40ms |   60ms | 1.20s |\n"
    );
}

#[test]
fn runners_with_the_same_total_time_stand_in_dictionary_order() {
    let runs = vec![
        run_of_millis("b", "x", 5),
        run_of_millis("ab", "x", 5),
        run_of_millis("a", "x", 5),
        run_of_millis("B", "x", 5),
    ];
    let table = create_markdown_table(&runs).unwrap();
    assert!(table.starts_with("| Benchmark | B | a | ab | b |\n"));
}

#[test]
fn times_are_scaled() {
    let runs = vec![
        run("r", "a", vec![Duration::from_nanos(999_999)]),
        run("r", "b", vec![Duration::from_millis(999)]),
        run("r", "c", vec![Duration::from_nanos(999_999_999)]),
        run("r", "d", vec![Duration::from_secs(1)]),
        run("r", "e", vec![Duration::from_millis(1_004)]),
        run("r", "f", vec![Duration::from_millis(1_005)]),
        run("r", "g", vec![Duration::from_millis(12_345_678)]),
        run("r", "h", vec![Duration::from_millis(9_999)]),
    ];
    let table = create_markdown_table(&runs).unwrap();
    let rows: Vec<&str> = table.lines().skip(4).collect();
    assert_eq!(
        rows,
        vec![
            "| a |    0ms |",
            "| b |  999ms |",
            "| c |  999ms |",
            "| d | 1.00s |",
            "| e | 1.00s |",
            "| f | 1.00s |",
            "| g | 12345.68s |",
            "| h | 10.00s |",
        ]
    );
}

#[test]
fn the_average_of_the_first_run_of_a_pair_is_shown() {
    let runs = vec![
        run_of_millis("r", "a", 7),
        run_of_millis("r", "a", 9),
    ];
    let table = create_markdown_table(&runs).unwrap();
    assert_eq!(
        table,
        "| Benchmark | r |\n\
         | --- | --- |\n\
         | Relative Performance | 1.00x |\n\
         | Total Time |   16ms |\n\
         | a |    7ms |\n"
    );
}

#[test]
fn a_least_total_time_of_zero() {
    let runs = vec![run("idle", "a", vec![]), run("busy", "a", vec![Duration::from_millis(3)])];
    let table = create_markdown_table(&runs).unwrap();
    assert_eq!(
        table,
        "| Benchmark | idle | busy |\n\
         | --- | --- | --- |\n\
         | Relative Performance | NaNx | infx |\n\
         | Total Time |    0ms |    3ms |\n\
         | a |    0ms |    3ms |\n"
    );
}

#[test]
fn relative_performance_is_rounded_to_two_decimals() {
    let runs = vec![
        run_of_millis("a", "x", 3),
        run_of_millis("b", "x", 4),
        run_of_millis("c", "x", 5),
        run_of_millis("d", "x", 200),
    ];
    let table = create_markdown_table(&runs).unwrap();
    let row = table.lines().nth(2).unwrap();
    assert_eq!(row, "| Relative Performance | 1.00x | 1.33x | 1.67x | 66.67x |");
}

#[test]
fn no_table_of_no_runs() {
    assert_eq!(create_markdown_table(&vec![]), Err(TableError::NoRuns));
    assert!(matches!(table_pieces(&vec![]), Err(TableError::NoRuns)));
}

#[test]
fn no_table_where_a_run_is_missing() {
    let runs = vec![
        run_of_millis("x", "a", 1),
        run_of_millis("x", "b", 2),
        run_of_millis("y", "a", 3),
    ];
    assert_eq!(create_markdown_table(&runs), Err(TableError::MissingRun));
}

#[test]
fn no_table_where_a_total_time_is_too_long() {
    let longest = Duration::try_from_nanos(MAX_NANOS).unwrap();
    let runs = vec![
        run("x", "a", vec![longest]),
        run("x", "b", vec![Duration::from_nanos(1)]),
        run("y", "a", vec![Duration::from_nanos(1)]),
    ];
    assert_eq!(create_markdown_table(&runs), Err(TableError::TotalTooLong));
    let runs = vec![run("x", "a", vec![longest]), run("x", "b", vec![Duration::zero()])];
    assert!(create_markdown_table(&runs).is_ok());
}

#[test]
fn a_half_of_a_hundredth_is_written_as_a_fraction_writes_it() {
    let runs = vec![run_of_millis("a", "x", 8), run_of_millis("b", "x", 9)];
    let table = create_markdown_table(&runs).unwrap();
    assert_eq!(table.lines().nth(2).unwrap(), "| Relative Performance | 1.00x | 1.12x |");
    let runs = vec![run_of_millis("a", "x", 1000), run_of_millis("b", "x", 1005)];
    let table = create_markdown_table(&runs).unwrap();
    assert_eq!(table.lines().nth(2).unwrap(), "| Relative Performance | 1.00x | 1.00x |");
    assert_eq!(table.lines().nth(3).unwrap(), "| Total Time | 1.00s | 1.00s |");
}

#[test]
fn figures_are_handed_out_as_they_are() {
    let runs = vec![run_of_millis("slow", "a", 2500), run_of_millis("fast", "a", 100)];
    let pieces = table_pieces(&runs).unwrap();
    let shown: Vec<String> = pieces
        .iter()
        .map(|piece| match piece {
            Piece::Text { text } => format!("{:?}", text),
            Piece::Seconds { time } => format!("seconds({})", time.as_nanos()),
            Piece::Ratio { total, fastest } => {
                format!("ratio({}, {})", total.as_nanos(), fastest.as_nanos())
            }
        })
        .collect();
    assert_eq!(
        shown,
        vec![
            "\"| Benchmark |\"",
            "\" fast |\"",
            "\" slow |\"",
            "\"\\n\"",
            "\"| --- |\"",
            "\" --- |\"",
            "\" --- |\"",
            "\"\\n\"",
            "\"| Relative Performance |\"",
            "\" \"",
            "ratio(100000000, 100000000)",
            "\"x |\"",
            "\" \"",
            "ratio(2500000000, 100000000)",
            "\"x |\"",
            "\"\\n\"",
            "\"| Total Time |\"",
            "\"  100ms |\"",
            "\" \"",
            "seconds(2500000000)",
            "\"s |\"",
            "\"\\n\"",
            "\"| a |\"",
            "\"  100ms |\"",
            "\" \"",
            "seconds(2500000000)",
            "\"s |\"",
            "\"\\n\"",
        ]
    );
}
