//! The comparative report: a table of the runs of a session, one column for
//! each runner and one row for each benchmark.
//!
//! The table is laid out here, down to the last character of its text. What
//! it shows as a fraction with two decimals, the times of a second or more
//! and the relative performances, it hands out as figures: fractions are
//! not whole numbers, and this crate computes with whole numbers only.

use vstd::prelude::*;
use vstd::string::StringExecFns;
use crate::ranking::{
    ascending, entry_texts, holds, lemma_ascending_exists, lemma_ascending_unique, ordered_insert,
    ranked, Entry,
};
use crate::runs::Run;
use crate::text::{chars_of, copy_chars, decimal, decimal_chars, push_chars, text_equal};
use crate::time::{Duration, MAX_NANOS};

verus! {

/// Whether some run of `runs` was made on the runner `id`.
pub open spec fn names_runner(runs: Seq<Run>, id: Seq<char>) -> bool {
    exists|i: int| 0 <= i < runs.len() && (#[trigger] runs[i]).runner_identifier@ == id
}

/// Whether some run of `runs` was made of the benchmark `id`.
pub open spec fn names_benchmark(runs: Seq<Run>, id: Seq<char>) -> bool {
    exists|i: int| 0 <= i < runs.len() && (#[trigger] runs[i]).benchmark_identifier@ == id
}

/// The total time of the runner `runner`: the sum of the average durations
/// of its runs, in nanoseconds.
pub open spec fn total_time(runs: Seq<Run>, runner: Seq<char>) -> nat
    decreases runs.len(),
{
    if runs.len() == 0 {
        0
    } else {
        total_time(runs.drop_last(), runner) + if runs.last().runner_identifier@ == runner {
            runs.last().average_duration@
        } else {
            0
        }
    }
}

/// The number by which columns are ordered: the total time of the runner.
pub open spec fn by_total(runs: Seq<Run>) -> spec_fn(Seq<char>) -> nat {
    |id: Seq<char>| total_time(runs, id)
}

/// The number by which rows are ordered: the same for all of them.
pub open spec fn by_name() -> spec_fn(Seq<char>) -> nat {
    |id: Seq<char>| 0nat
}

/// Whether `columns` are the columns of the report on `runs`: the runners of
/// the runs, each once, the one with the least total time first, and runners
/// with the same total time in dictionary order.
pub open spec fn is_column_order(runs: Seq<Run>, columns: Seq<Seq<char>>) -> bool {
    &&& forall|id: Seq<char>| columns.contains(id) <==> names_runner(runs, id)
    &&& ascending(by_total(runs), columns)
}

/// Whether `rows` are the rows of the report on `runs`: the benchmarks of the
/// runs, each once, in dictionary order.
pub open spec fn is_row_order(runs: Seq<Run>, rows: Seq<Seq<char>>) -> bool {
    &&& forall|id: Seq<char>| rows.contains(id) <==> names_benchmark(runs, id)
    &&& ascending(by_name(), rows)
}

/// The columns of the report on `runs`.
pub open spec fn column_order(runs: Seq<Run>) -> Seq<Seq<char>> {
    choose|columns: Seq<Seq<char>>| is_column_order(runs, columns)
}

/// The rows of the report on `runs`.
pub open spec fn row_order(runs: Seq<Run>) -> Seq<Seq<char>> {
    choose|rows: Seq<Seq<char>>| is_row_order(runs, rows)
}

/// Every list of runs has its columns: they are the runners of the runs in
/// ascending order of total time.
pub proof fn lemma_column_order_exists(runs: Seq<Run>)
    ensures
        is_column_order(runs, column_order(runs)),
{
    let ids = Seq::new(runs.len(), |i: int| runs[i].runner_identifier@);
    let t = lemma_ascending_exists(by_total(runs), ids);
    assert forall|id: Seq<char>| t.contains(id) <==> names_runner(runs, id) by {
        if ids.contains(id) {
            let i = choose|i: int| 0 <= i < ids.len() && ids[i] == id;
            assert(runs[i].runner_identifier@ == id);
        }
        if names_runner(runs, id) {
            let i = choose|i: int|
                0 <= i < runs.len() && (#[trigger] runs[i]).runner_identifier@ == id;
            assert(ids[i] == id);
        }
    }
    assert(is_column_order(runs, t));
}

/// Every list of runs has its rows: they are the benchmarks of the runs in
/// dictionary order.
pub proof fn lemma_row_order_exists(runs: Seq<Run>)
    ensures
        is_row_order(runs, row_order(runs)),
{
    let ids = Seq::new(runs.len(), |i: int| runs[i].benchmark_identifier@);
    let t = lemma_ascending_exists(by_name(), ids);
    assert forall|id: Seq<char>| t.contains(id) <==> names_benchmark(runs, id) by {
        if ids.contains(id) {
            let i = choose|i: int| 0 <= i < ids.len() && ids[i] == id;
            assert(runs[i].benchmark_identifier@ == id);
        }
        if names_benchmark(runs, id) {
            let i = choose|i: int|
                0 <= i < runs.len() && (#[trigger] runs[i]).benchmark_identifier@ == id;
            assert(ids[i] == id);
        }
    }
    assert(is_row_order(runs, t));
}

/// The columns of a report are determined by its runs.
pub proof fn lemma_column_order_unique(runs: Seq<Run>, columns: Seq<Seq<char>>)
    requires
        is_column_order(runs, columns),
    ensures
        columns == column_order(runs),
{
    lemma_ascending_unique(by_total(runs), columns, column_order(runs));
}

/// The rows of a report are determined by its runs.
pub proof fn lemma_row_order_unique(runs: Seq<Run>, rows: Seq<Seq<char>>)
    requires
        is_row_order(runs, rows),
    ensures
        rows == row_order(runs),
{
    lemma_ascending_unique(by_name(), rows, row_order(runs));
}

/// The first column is the fastest runner: no runner of the runs has a
/// smaller total time.
pub proof fn lemma_fastest_first(runs: Seq<Run>, columns: Seq<Seq<char>>, runner: Seq<char>)
    requires
        is_column_order(runs, columns),
        names_runner(runs, runner),
    ensures
        columns.len() > 0,
        total_time(runs, columns[0]) <= total_time(runs, runner),
{
    assert(columns.contains(runner));
    let i = choose|i: int| 0 <= i < columns.len() && columns[i] == runner;
    if i > 0 {
        assert(crate::ranking::ranks_before(
            by_total(runs)(columns[0]),
            columns[0],
            by_total(runs)(columns[i]),
            columns[i],
        ));
    }
}

/// From left to right the total times of the columns do not fall, so that
/// no relative performance is below one and none is below the one to its
/// left.
pub proof fn lemma_totals_ascend(runs: Seq<Run>, columns: Seq<Seq<char>>, i: int, j: int)
    requires
        is_column_order(runs, columns),
        0 <= i <= j < columns.len(),
    ensures
        total_time(runs, columns[0]) <= total_time(runs, columns[i]),
        total_time(runs, columns[i]) <= total_time(runs, columns[j]),
{
    if i < j {
        assert(crate::ranking::ranks_before(
            by_total(runs)(columns[i]),
            columns[i],
            by_total(runs)(columns[j]),
            columns[j],
        ));
    }
    if 0 < i {
        assert(crate::ranking::ranks_before(
            by_total(runs)(columns[0]),
            columns[0],
            by_total(runs)(columns[i]),
            columns[i],
        ));
    }
}

/// Whether `run` is a run of `benchmark` on `runner`.
pub open spec fn is_cell(run: Run, benchmark: Seq<char>, runner: Seq<char>) -> bool {
    run.benchmark_identifier@ == benchmark && run.runner_identifier@ == runner
}

/// Whether `runs` holds a run of `benchmark` on `runner`.
pub open spec fn has_cell(runs: Seq<Run>, benchmark: Seq<char>, runner: Seq<char>) -> bool {
    exists|i: int| 0 <= i < runs.len() && is_cell(#[trigger] runs[i], benchmark, runner)
}

/// The time shown for `benchmark` on `runner`: the average duration of the
/// first run of that pair, in nanoseconds.
pub open spec fn cell_time(runs: Seq<Run>, benchmark: Seq<char>, runner: Seq<char>) -> nat
    decreases runs.len(),
{
    if runs.len() == 0 {
        0
    } else if is_cell(runs.first(), benchmark, runner) {
        runs.first().average_duration@
    } else {
        cell_time(runs.drop_first(), benchmark, runner)
    }
}

/// Whether a run is missing: some benchmark of `runs` has no run on some
/// runner of `runs`.
pub open spec fn has_gap(runs: Seq<Run>) -> bool {
    exists|benchmark: Seq<char>, runner: Seq<char>|
        names_benchmark(runs, benchmark) && names_runner(runs, runner) && !has_cell(
            runs,
            benchmark,
            runner,
        )
}

/// Whether the total time of some runner is longer than a duration can be.
pub open spec fn has_overlong_total(runs: Seq<Run>) -> bool {
    exists|runner: Seq<char>| names_runner(runs, runner) && total_time(runs, runner) > MAX_NANOS
}

/// What a piece of the report is, without the strings that hold it.
pub enum Shape {
    /// Text that stands in the report as it is.
    Text { text: Seq<char> },
    /// A time of `nanos` nanoseconds, to be written in seconds with two
    /// decimals.
    Seconds { nanos: nat },
    /// A total time of `total` nanoseconds as a multiple of the least total
    /// time of `fastest` nanoseconds, to be written with two decimals.
    Ratio { total: nat, fastest: nat },
}

/// A piece of the report. The report is its pieces one after the other.
///
/// Text is laid out here. Figures with two decimals are handed out as they
/// are, for whoever writes the report to write them as a fraction.
#[derive(Debug)]
pub enum Piece {
    /// Text that stands in the report as it is.
    Text { text: String },
    /// A time to be written in seconds with two decimals.
    Seconds { time: Duration },
    /// A total time to be written as a multiple of the least total time,
    /// with two decimals.
    Ratio { total: Duration, fastest: Duration },
}

impl View for Piece {
    type V = Shape;

    open spec fn view(&self) -> Shape {
        match self {
            Piece::Text { text } => Shape::Text { text: text@ },
            Piece::Seconds { time } => Shape::Seconds { nanos: time@ },
            Piece::Ratio { total, fastest } => Shape::Ratio { total: total@, fastest: fastest@ },
        }
    }
}

/// What the pieces `pieces` are, one for one.
pub open spec fn shapes(pieces: Seq<Piece>) -> Seq<Shape> {
    Seq::new(pieces.len(), |i: int| pieces[i]@)
}

/// The one piece of text `text`.
pub open spec fn text_piece(text: Seq<char>) -> Seq<Shape> {
    seq![Shape::Text { text }]
}

/// `s` behind as many spaces as it takes to fill `width` characters.
pub open spec fn right_aligned(s: Seq<char>, width: nat) -> Seq<char> {
    if s.len() >= width {
        s
    } else {
        Seq::new((width - s.len()) as nat, |i: int| ' ') + s
    }
}

/// The cell for a time of `nanos` nanoseconds: below one second the whole
/// milliseconds, right-aligned in four characters and followed by `ms`; from
/// one second on the time in seconds, followed by `s`.
pub open spec fn time_cell(nanos: nat) -> Seq<Shape> {
    if nanos < 1_000_000_000 {
        text_piece(seq![' '] + right_aligned(decimal(nanos / 1_000_000), 4) + "ms |"@)
    } else {
        seq![
            Shape::Text { text: " "@ },
            Shape::Seconds { nanos },
            Shape::Text { text: "s |"@ },
        ]
    }
}

/// The cell for the relative performance of a runner: its total time
/// `total` as a multiple of the least total time `fastest`, followed by `x`.
pub open spec fn ratio_cell(total: nat, fastest: nat) -> Seq<Shape> {
    seq![
        Shape::Text { text: " "@ },
        Shape::Ratio { total, fastest },
        Shape::Text { text: "x |"@ },
    ]
}

/// The first `n` cells of the header row.
pub open spec fn header_cells(columns: Seq<Seq<char>>, n: nat) -> Seq<Shape>
    decreases n,
{
    if n == 0 {
        Seq::empty()
    } else {
        header_cells(columns, (n - 1) as nat) + text_piece(seq![' '] + columns[n - 1] + " |"@)
    }
}

/// The first `n` cells of the row that sets the header off.
pub open spec fn rule_cells(n: nat) -> Seq<Shape>
    decreases n,
{
    if n == 0 {
        Seq::empty()
    } else {
        rule_cells((n - 1) as nat) + text_piece(" --- |"@)
    }
}

/// The first `n` cells of the row of relative performance.
pub open spec fn ratio_cells(runs: Seq<Run>, columns: Seq<Seq<char>>, n: nat) -> Seq<Shape>
    decreases n,
{
    if n == 0 {
        Seq::empty()
    } else {
        ratio_cells(runs, columns, (n - 1) as nat) + ratio_cell(
            total_time(runs, columns[n - 1]),
            total_time(runs, columns[0]),
        )
    }
}

/// The first `n` cells of the row of total times.
pub open spec fn total_cells(runs: Seq<Run>, columns: Seq<Seq<char>>, n: nat) -> Seq<Shape>
    decreases n,
{
    if n == 0 {
        Seq::empty()
    } else {
        total_cells(runs, columns, (n - 1) as nat) + time_cell(total_time(runs, columns[n - 1]))
    }
}

/// The first `n` cells of the row of the benchmark `benchmark`.
pub open spec fn benchmark_cells(
    runs: Seq<Run>,
    columns: Seq<Seq<char>>,
    benchmark: Seq<char>,
    n: nat,
) -> Seq<Shape>
    decreases n,
{
    if n == 0 {
        Seq::empty()
    } else {
        benchmark_cells(runs, columns, benchmark, (n - 1) as nat) + time_cell(
            cell_time(runs, benchmark, columns[n - 1]),
        )
    }
}

/// The row of the benchmark `benchmark`.
pub open spec fn benchmark_row(runs: Seq<Run>, columns: Seq<Seq<char>>, benchmark: Seq<char>) -> Seq<
    Shape,
> {
    text_piece("| "@ + benchmark + " |"@) + benchmark_cells(
        runs,
        columns,
        benchmark,
        columns.len(),
    ) + text_piece("\n"@)
}

/// The rows of the first `n` benchmarks.
pub open spec fn benchmark_rows(
    runs: Seq<Run>,
    columns: Seq<Seq<char>>,
    rows: Seq<Seq<char>>,
    n: nat,
) -> Seq<Shape>
    decreases n,
{
    if n == 0 {
        Seq::empty()
    } else {
        benchmark_rows(runs, columns, rows, (n - 1) as nat) + benchmark_row(
            runs,
            columns,
            rows[n - 1],
        )
    }
}

/// The report on `runs` with the columns `columns` and the rows `rows`,
/// piece by piece: a header row with the runners, a row that sets it off,
/// the relative performance of every runner, the total time of every
/// runner, and a row for every benchmark with its time on every runner.
pub open spec fn table_shapes(runs: Seq<Run>, columns: Seq<Seq<char>>, rows: Seq<Seq<char>>) -> Seq<
    Shape,
> {
    text_piece("| Benchmark |"@) + header_cells(columns, columns.len()) + text_piece("\n"@)
        + text_piece("| --- |"@) + rule_cells(columns.len()) + text_piece("\n"@) + text_piece(
        "| Relative Performance |"@,
    ) + ratio_cells(runs, columns, columns.len()) + text_piece("\n"@) + text_piece(
        "| Total Time |"@,
    ) + total_cells(runs, columns, columns.len()) + text_piece("\n"@) + benchmark_rows(
        runs,
        columns,
        rows,
        rows.len(),
    )
}

/// Why no report can be made of a list of runs.
#[derive(Clone, Copy, Debug, PartialEq, Eq, Structural)]
pub enum TableError {
    /// The total time of some runner is longer than a duration can be.
    TotalTooLong,
    /// There are no runs, and so no least total time to compare with.
    NoRuns,
    /// Some benchmark has no run on some runner.
    MissingRun,
}

/// The texts of the runner identifiers of `runs`, run by run.
fn runner_texts(runs: &Vec<Run>) -> (texts: Vec<Vec<char>>)
    ensures
        texts.len() == runs.len(),
        forall|i: int| 0 <= i < runs.len() ==> (#[trigger] texts[i])@ == runs[i].runner_identifier@,
{
    let mut texts: Vec<Vec<char>> = Vec::new();
    let mut i: usize = 0;
    while i < runs.len()
        invariant
            i <= runs.len(),
            texts.len() == i,
            forall|k: int| 0 <= k < i ==> (#[trigger] texts[k])@ == runs[k].runner_identifier@,
        decreases runs.len() - i,
    {
        texts.push(chars_of(runs[i].runner_identifier.as_str()));
        i += 1;
    }
    texts
}

/// The texts of the benchmark identifiers of `runs`, run by run.
fn benchmark_texts(runs: &Vec<Run>) -> (texts: Vec<Vec<char>>)
    ensures
        texts.len() == runs.len(),
        forall|i: int|
            0 <= i < runs.len() ==> (#[trigger] texts[i])@ == runs[i].benchmark_identifier@,
{
    let mut texts: Vec<Vec<char>> = Vec::new();
    let mut i: usize = 0;
    while i < runs.len()
        invariant
            i <= runs.len(),
            texts.len() == i,
            forall|k: int| 0 <= k < i ==> (#[trigger] texts[k])@ == runs[k].benchmark_identifier@,
        decreases runs.len() - i,
    {
        texts.push(chars_of(runs[i].benchmark_identifier.as_str()));
        i += 1;
    }
    texts
}

/// The texts among `texts`, each once, in dictionary order.
fn distinct(texts: &Vec<Vec<char>>) -> (list: Vec<Entry>)
    ensures
        ranked(list@),
        forall|i: int| 0 <= i < list.len() ==> (#[trigger] list[i]).key == 0,
        forall|t: Seq<char>|
            holds(list@, 0, t) <==> exists|i: int| 0 <= i < texts.len() && (#[trigger] texts[i])@ == t,
{
    let mut list: Vec<Entry> = Vec::new();
    let mut i: usize = 0;
    while i < texts.len()
        invariant
            i <= texts.len(),
            ranked(list@),
            forall|k: nat, t: Seq<char>| holds(list@, k, t) ==> k == 0,
            forall|t: Seq<char>|
                holds(list@, 0, t) <==> exists|j: int| 0 <= j < i && (#[trigger] texts[j])@ == t,
        decreases texts.len() - i,
    {
        let ghost before = list@;
        ordered_insert(&mut list, 0, copy_chars(&texts[i]));
        proof {
            assert forall|t: Seq<char>| holds(list@, 0, t) <==> exists|j: int|
                0 <= j < i + 1 && (#[trigger] texts[j])@ == t by {
                if holds(before, 0, t) {
                    let j = choose|j: int| 0 <= j < i && (#[trigger] texts[j])@ == t;
                    assert(0 <= j < i + 1 && texts[j]@ == t);
                }
                if exists|j: int| 0 <= j < i + 1 && (#[trigger] texts[j])@ == t {
                    let j = choose|j: int| 0 <= j < i + 1 && (#[trigger] texts[j])@ == t;
                    if j < i {
                        assert(holds(before, 0, t));
                    }
                }
            }
        }
        i += 1;
    }
    proof {
        assert forall|k: int| 0 <= k < list.len() implies (#[trigger] list[k]).key == 0 by {
            assert(holds(list@, list[k].key as nat, list[k].text@));
        }
    }
    list
}

/// The total time of a runner over the first runs is no more than over all.
pub proof fn lemma_total_time_grows(runs: Seq<Run>, n: int, runner: Seq<char>)
    requires
        0 <= n <= runs.len(),
    ensures
        total_time(runs.take(n), runner) <= total_time(runs, runner),
    decreases runs.len() - n,
{
    if n == runs.len() {
        assert(runs.take(n) =~= runs);
    } else {
        lemma_total_time_grows(runs.drop_last(), n, runner);
        assert(runs.drop_last().take(n) =~= runs.take(n));
    }
}

/// The total time of the runner `runner`, where a duration can be that long.
fn runner_total(runs: &Vec<Run>, texts: &Vec<Vec<char>>, runner: &Vec<char>) -> (total: Option<
    Duration,
>)
    requires
        texts.len() == runs.len(),
        forall|i: int| 0 <= i < runs.len() ==> (#[trigger] texts[i])@ == runs[i].runner_identifier@,
    ensures
        total is Some <==> total_time(runs@, runner@) <= MAX_NANOS,
        total matches Some(d) ==> d@ == total_time(runs@, runner@),
{
    let mut total = Duration::zero();
    let mut i: usize = 0;
    assert(runs@.take(0) =~= Seq::<Run>::empty());
    while i < runs.len()
        invariant
            i <= runs.len(),
            texts.len() == runs.len(),
            forall|k: int|
                0 <= k < runs.len() ==> (#[trigger] texts[k])@ == runs[k].runner_identifier@,
            total@ == total_time(runs@.take(i as int), runner@),
            total@ <= MAX_NANOS,
        decreases runs.len() - i,
    {
        proof {
            assert(runs@.take(i + 1).drop_last() =~= runs@.take(i as int));
            assert(runs@.take(i + 1).last() == runs@[i as int]);
            assert(texts[i as int]@ == runs[i as int].runner_identifier@);
        }
        if text_equal(&texts[i], runner) {
            match total.checked_add(&runs[i].average_duration) {
                Some(longer) => {
                    total = longer;
                },
                None => {
                    proof {
                        lemma_total_time_grows(runs@, i + 1, runner@);
                    }
                    return None;
                },
            }
        }
        i += 1;
    }
    assert(runs@.take(runs.len() as int) =~= runs@);
    Some(total)
}

/// The columns of the report on `runs`, each with the total time of its
/// runner as its number; `None` where some total time is too long.
fn columns(runs: &Vec<Run>, texts: &Vec<Vec<char>>) -> (found: Option<Vec<Entry>>)
    requires
        texts.len() == runs.len(),
        forall|i: int| 0 <= i < runs.len() ==> (#[trigger] texts[i])@ == runs[i].runner_identifier@,
    ensures
        found is Some <==> !has_overlong_total(runs@),
        found matches Some(list) ==> {
            &&& entry_texts(list@) == column_order(runs@)
            &&& is_column_order(runs@, column_order(runs@))
            &&& forall|i: int|
                0 <= i < list.len() ==> (#[trigger] list[i]).key == total_time(
                    runs@,
                    list[i].text@,
                )
            &&& forall|i: int| 0 <= i < list.len() ==> (#[trigger] list[i]).key <= MAX_NANOS
        },
{
    let names = distinct(texts);
    proof {
        assert forall|t: Seq<char>| holds(names@, 0, t) <==> names_runner(runs@, t) by {
            if holds(names@, 0, t) {
                let i = choose|i: int| 0 <= i < texts.len() && (#[trigger] texts[i])@ == t;
                assert(runs[i].runner_identifier@ == t);
            }
            if names_runner(runs@, t) {
                let i = choose|i: int|
                    0 <= i < runs.len() && (#[trigger] runs@[i]).runner_identifier@ == t;
                assert(texts[i]@ == t);
            }
        }
    }
    let mut list: Vec<Entry> = Vec::new();
    let mut i: usize = 0;
    while i < names.len()
        invariant
            i <= names.len(),
            texts.len() == runs.len(),
            forall|k: int|
                0 <= k < runs.len() ==> (#[trigger] texts[k])@ == runs[k].runner_identifier@,
            forall|t: Seq<char>| holds(names@, 0, t) <==> names_runner(runs@, t),
            forall|k: int| 0 <= k < names.len() ==> (#[trigger] names[k]).key == 0,
            ranked(list@),
            forall|k: nat, t: Seq<char>|
                holds(list@, k, t) <==> (k == total_time(runs@, t) && k <= MAX_NANOS && exists|
                    j: int,
                | 0 <= j < i && (#[trigger] names[j]).text@ == t),
            forall|j: int|
                0 <= j < i ==> total_time(runs@, (#[trigger] names[j]).text@) <= MAX_NANOS,
        decreases names.len() - i,
    {
        let ghost before = list@;
        let ghost name = names[i as int].text@;
        match runner_total(runs, texts, &names[i].text) {
            None => {
                proof {
                    assert(holds(names@, 0, name));
                    assert(names_runner(runs@, name));
                }
                return None;
            },
            Some(total) => {
                ordered_insert(&mut list, total.as_nanos(), copy_chars(&names[i].text));
                proof {
                    assert forall|k: nat, t: Seq<char>|
                        holds(list@, k, t) <==> (k == total_time(runs@, t) && k <= MAX_NANOS
                            && exists|j: int| 0 <= j < i + 1 && (#[trigger] names[j]).text@ == t) by {
                        if holds(before, k, t) {
                            let j = choose|j: int| 0 <= j < i && (#[trigger] names[j]).text@ == t;
                            assert(0 <= j < i + 1 && names[j].text@ == t);
                        }
                        if k == total_time(runs@, t) && k <= MAX_NANOS && exists|j: int|
                            0 <= j < i + 1 && (#[trigger] names[j]).text@ == t {
                            let j = choose|j: int|
                                0 <= j < i + 1 && (#[trigger] names[j]).text@ == t;
                            if j < i {
                                assert(holds(before, k, t));
                            }
                        }
                    }
                }
            },
        }
        i += 1;
    }
    proof {
        let shown = entry_texts(list@);
        assert forall|k: int| 0 <= k < list.len() implies (#[trigger] list[k]).key == total_time(
            runs@,
            list[k].text@,
        ) && list[k].key <= MAX_NANOS by {
            assert(holds(list@, list[k].key as nat, list[k].text@));
        }
        assert forall|id: Seq<char>| shown.contains(id) <==> names_runner(runs@, id) by {
            if shown.contains(id) {
                let k = choose|k: int| 0 <= k < shown.len() && shown[k] == id;
                assert(holds(list@, list[k].key as nat, id));
                let j = choose|j: int| 0 <= j < names.len() && (#[trigger] names[j]).text@ == id;
                assert(holds(names@, 0, id));
            }
            if names_runner(runs@, id) {
                assert(holds(names@, 0, id));
                let j = choose|j: int|
                    0 <= j < names.len() && (#[trigger] names@[j]).key == 0 && names@[j].text@
                        == id;
                assert(total_time(runs@, names[j].text@) <= MAX_NANOS);
                assert(holds(list@, total_time(runs@, id), id));
                let k = choose|k: int|
                    0 <= k < list.len() && (#[trigger] list@[k]).key == total_time(runs@, id)
                        && list@[k].text@ == id;
                assert(shown[k] == id);
            }
        }
        assert(ascending(by_total(runs@), shown)) by {
            assert forall|a: int, b: int| 0 <= a < b < shown.len() implies crate::ranking::ranks_before(
                by_total(runs@)(shown[a]),
                #[trigger] shown[a],
                by_total(runs@)(shown[b]),
                #[trigger] shown[b],
            ) by {
                assert(list@[a].key == total_time(runs@, list@[a].text@));
                assert(list@[b].key == total_time(runs@, list@[b].text@));
            }
        }
        lemma_column_order_unique(runs@, shown);
        assert(!has_overlong_total(runs@)) by {
            if has_overlong_total(runs@) {
                let runner = choose|runner: Seq<char>|
                    names_runner(runs@, runner) && total_time(runs@, runner) > MAX_NANOS;
                assert(holds(names@, 0, runner));
                let j = choose|j: int|
                    0 <= j < names.len() && (#[trigger] names@[j]).key == 0 && names@[j].text@
                        == runner;
                assert(total_time(runs@, names[j].text@) <= MAX_NANOS);
            }
        }
    }
    Some(list)
}

/// The rows of the report on `runs`.
fn rows(runs: &Vec<Run>, texts: &Vec<Vec<char>>) -> (list: Vec<Entry>)
    requires
        texts.len() == runs.len(),
        forall|i: int|
            0 <= i < runs.len() ==> (#[trigger] texts[i])@ == runs[i].benchmark_identifier@,
    ensures
        entry_texts(list@) == row_order(runs@),
        is_row_order(runs@, row_order(runs@)),
{
    let list = distinct(texts);
    proof {
        let shown = entry_texts(list@);
        assert forall|id: Seq<char>| shown.contains(id) <==> names_benchmark(runs@, id) by {
            if shown.contains(id) {
                let k = choose|k: int| 0 <= k < shown.len() && shown[k] == id;
                assert(holds(list@, list[k].key as nat, id));
                let i = choose|i: int| 0 <= i < texts.len() && (#[trigger] texts[i])@ == id;
                assert(runs[i].benchmark_identifier@ == id);
            }
            if names_benchmark(runs@, id) {
                let i = choose|i: int|
                    0 <= i < runs.len() && (#[trigger] runs@[i]).benchmark_identifier@ == id;
                assert(texts[i]@ == id);
                assert(holds(list@, 0, id));
                let k = choose|k: int|
                    0 <= k < list.len() && (#[trigger] list@[k]).key == 0 && list@[k].text@ == id;
                assert(shown[k] == id);
            }
        }
        assert(ascending(by_name(), shown)) by {
            assert forall|a: int, b: int| 0 <= a < b < shown.len() implies crate::ranking::ranks_before(
                by_name()(shown[a]),
                #[trigger] shown[a],
                by_name()(shown[b]),
                #[trigger] shown[b],
            ) by {
                assert(list@[a].key == 0);
                assert(list@[b].key == 0);
            }
        }
        lemma_row_order_unique(runs@, shown);
    }
    list
}


/// The time shown for `benchmark` on `runner`, where there is a run of that
/// pair.
fn find_cell(
    runs: &Vec<Run>,
    runner_texts: &Vec<Vec<char>>,
    benchmark_texts: &Vec<Vec<char>>,
    benchmark: &Vec<char>,
    runner: &Vec<char>,
) -> (found: Option<Duration>)
    requires
        runner_texts.len() == runs.len(),
        benchmark_texts.len() == runs.len(),
        forall|i: int|
            0 <= i < runs.len() ==> (#[trigger] runner_texts[i])@ == runs[i].runner_identifier@,
        forall|i: int|
            0 <= i < runs.len() ==> (#[trigger] benchmark_texts[i])@
                == runs[i].benchmark_identifier@,
    ensures
        found is Some <==> has_cell(runs@, benchmark@, runner@),
        found matches Some(d) ==> d@ == cell_time(runs@, benchmark@, runner@),
{
    let mut i: usize = 0;
    assert(runs@.skip(0) =~= runs@);
    while i < runs.len()
        invariant
            i <= runs.len(),
            runner_texts.len() == runs.len(),
            benchmark_texts.len() == runs.len(),
            forall|k: int|
                0 <= k < runs.len() ==> (#[trigger] runner_texts[k])@ == runs[k].runner_identifier@,
            forall|k: int|
                0 <= k < runs.len() ==> (#[trigger] benchmark_texts[k])@
                    == runs[k].benchmark_identifier@,
            forall|k: int| 0 <= k < i ==> !is_cell(#[trigger] runs@[k], benchmark@, runner@),
            cell_time(runs@, benchmark@, runner@) == cell_time(
                runs@.skip(i as int),
                benchmark@,
                runner@,
            ),
        decreases runs.len() - i,
    {
        proof {
            assert(runs@.skip(i as int).first() == runs@[i as int]);
            assert(runs@.skip(i as int).drop_first() =~= runs@.skip(i + 1));
            assert(runner_texts[i as int]@ == runs[i as int].runner_identifier@);
            assert(benchmark_texts[i as int]@ == runs[i as int].benchmark_identifier@);
        }
        if text_equal(&benchmark_texts[i], benchmark) && text_equal(&runner_texts[i], runner) {
            assert(is_cell(runs@[i as int], benchmark@, runner@));
            return Some(runs[i].average_duration);
        }
        i += 1;
    }
    None
}

/// Appends the piece of text `text`.
fn push_text(out: &mut Vec<Piece>, text: String)
    ensures
        shapes(final(out)@) == shapes(old(out)@) + text_piece(text@),
{
    out.push(Piece::Text { text });
    assert(shapes(out@) =~= shapes(old(out)@) + text_piece(text@));
}

/// Appends the cell for a time of `nanos` nanoseconds.
fn push_time_cell(out: &mut Vec<Piece>, nanos: u128)
    requires
        nanos <= MAX_NANOS,
    ensures
        shapes(final(out)@) == shapes(old(out)@) + time_cell(nanos as nat),
{
    if nanos < 1_000_000_000 {
        let mut text = String::new();
        text.push(' ');
        let digits = decimal_chars(nanos / 1_000_000);
        let mut width: usize = digits.len();
        let ghost base = text@;
        assert(text@ =~= base + Seq::new(0, |i: int| ' '));
        while width < 4
            invariant
                digits.len() <= width,
                digits.len() < 4 ==> width <= 4,
                digits.len() >= 4 ==> width == digits.len(),
                text@ == base + Seq::new((width - digits.len()) as nat, |i: int| ' '),
            decreases 4 - width,
        {
            text.push(' ');
            width += 1;
            assert(text@ =~= base + Seq::new((width - digits.len()) as nat, |i: int| ' '));
        }
        push_chars(&mut text, &digits);
        text.append("ms |");
        assert(text@ =~= seq![' '] + right_aligned(decimal((nanos / 1_000_000) as nat), 4)
            + "ms |"@);
        push_text(out, text);
    } else {
        out.push(Piece::Text { text: String::from_str(" ") });
        out.push(Piece::Seconds { time: Duration::from_nanos_in_range(nanos) });
        out.push(Piece::Text { text: String::from_str("s |") });
        assert(shapes(out@) =~= shapes(old(out)@) + time_cell(nanos as nat));
    }
}

/// Appends the cell for the relative performance of a runner with a total
/// time of `total` nanoseconds, where the least total time is `fastest`
/// nanoseconds.
fn push_ratio_cell(out: &mut Vec<Piece>, total: u128, fastest: u128)
    requires
        total <= MAX_NANOS,
        fastest <= MAX_NANOS,
    ensures
        shapes(final(out)@) == shapes(old(out)@) + ratio_cell(total as nat, fastest as nat),
{
    out.push(Piece::Text { text: String::from_str(" ") });
    out.push(
        Piece::Ratio {
            total: Duration::from_nanos_in_range(total),
            fastest: Duration::from_nanos_in_range(fastest),
        },
    );
    out.push(Piece::Text { text: String::from_str("x |") });
    assert(shapes(out@) =~= shapes(old(out)@) + ratio_cell(total as nat, fastest as nat));
}

/// Create a Markdown table from the given runs.
///
/// The table has one column for each runner and one row for each benchmark;
/// a cell holds the average duration of the first run of that benchmark on
/// that runner. Above the benchmarks stand two more rows: the relative
/// performance of every runner, which is its total time as a multiple of the
/// least total time, and its total time. The columns are ordered by total
/// time, the fastest runner first, and the rows by the names of the
/// benchmarks.
///
/// The table comes in pieces, to be written one after the other. All text is
/// laid out in them; what is to be written as a fraction with two decimals,
/// a time of a second or more and every relative performance, is a piece of
/// its own that holds the figures.
///
/// No table is made where the total time of a runner is longer than a
/// duration can be, where there are no runs at all, or where some benchmark
/// has no run on some runner.
pub fn create_markdown_table(runs: &Vec<Run>) -> (table: Result<Vec<Piece>, TableError>)
    ensures
        table == Err::<Vec<Piece>, TableError>(TableError::TotalTooLong) <==> has_overlong_total(
            runs@,
        ),
        table == Err::<Vec<Piece>, TableError>(TableError::NoRuns) <==> runs.len() == 0,
        table == Err::<Vec<Piece>, TableError>(TableError::MissingRun) <==> !has_overlong_total(
            runs@,
        ) && has_gap(runs@),
        table matches Ok(pieces) ==> shapes(pieces@) == table_shapes(
            runs@,
            column_order(runs@),
            row_order(runs@),
        ),
{
    let runner_ids = runner_texts(runs);
    let benchmark_ids = benchmark_texts(runs);
    let cols = match columns(runs, &runner_ids) {
        Some(cols) => cols,
        None => {
            return Err(TableError::TotalTooLong);
        },
    };
    proof {
        if has_gap(runs@) {
            let (benchmark, runner) = choose|benchmark: Seq<char>, runner: Seq<char>|
                names_benchmark(runs@, benchmark) && names_runner(runs@, runner) && !has_cell(
                    runs@,
                    benchmark,
                    runner,
                );
        }
    }
    if runs.len() == 0 {
        return Err(TableError::NoRuns);
    }
    let rows = rows(runs, &benchmark_ids);
    let ghost columns = column_order(runs@);
    let ghost lines = row_order(runs@);
    proof {
        assert(names_runner(runs@, runs@[0].runner_identifier@));
        assert(columns.contains(runs@[0].runner_identifier@));
    }
    let width: usize = cols.len();
    assert(width > 0);
    let fastest: u128 = cols[0].key;

    let mut out: Vec<Piece> = Vec::new();
    push_text(&mut out, String::from_str("| Benchmark |"));
    let ghost base = shapes(out@);
    assert(base =~= text_piece("| Benchmark |"@));
    let mut i: usize = 0;
    while i < width
        invariant
            i <= width,
            width == cols.len(),
            entry_texts(cols@) == columns,
            shapes(out@) == base + header_cells(columns, i as nat),
        decreases width - i,
    {
        assert(entry_texts(cols@)[i as int] == cols@[i as int].text@);
        let mut text = String::new();
        text.push(' ');
        push_chars(&mut text, &cols[i].text);
        text.append(" |");
        assert(text@ =~= seq![' '] + columns[i as int] + " |"@);
        push_text(&mut out, text);
        i += 1;
        assert(shapes(out@) =~= base + header_cells(columns, i as nat));
    }
    push_text(&mut out, String::from_str("\n"));

    push_text(&mut out, String::from_str("| --- |"));
    let ghost base = shapes(out@);
    let mut i: usize = 0;
    while i < width
        invariant
            i <= width,
            shapes(out@) == base + rule_cells(i as nat),
        decreases width - i,
    {
        push_text(&mut out, String::from_str(" --- |"));
        i += 1;
        assert(shapes(out@) =~= base + rule_cells(i as nat));
    }
    push_text(&mut out, String::from_str("\n"));

    push_text(&mut out, String::from_str("| Relative Performance |"));
    let ghost base = shapes(out@);
    let mut i: usize = 0;
    while i < width
        invariant
            i <= width,
            0 < width == cols.len(),
            entry_texts(cols@) == columns,
            forall|k: int|
                0 <= k < cols.len() ==> (#[trigger] cols[k]).key == total_time(
                    runs@,
                    cols[k].text@,
                ),
            forall|k: int| 0 <= k < cols.len() ==> (#[trigger] cols[k]).key <= MAX_NANOS,
            fastest == cols[0].key,
            shapes(out@) == base + ratio_cells(runs@, columns, i as nat),
        decreases width - i,
    {
        assert(entry_texts(cols@)[i as int] == cols@[i as int].text@);
        assert(entry_texts(cols@)[0] == cols@[0].text@);
        push_ratio_cell(&mut out, cols[i].key, fastest);
        i += 1;
        assert(shapes(out@) =~= base + ratio_cells(runs@, columns, i as nat));
    }
    push_text(&mut out, String::from_str("\n"));

    push_text(&mut out, String::from_str("| Total Time |"));
    let ghost base = shapes(out@);
    let mut i: usize = 0;
    while i < width
        invariant
            i <= width,
            width == cols.len(),
            entry_texts(cols@) == columns,
            forall|k: int|
                0 <= k < cols.len() ==> (#[trigger] cols[k]).key == total_time(
                    runs@,
                    cols[k].text@,
                ),
            forall|k: int| 0 <= k < cols.len() ==> (#[trigger] cols[k]).key <= MAX_NANOS,
            shapes(out@) == base + total_cells(runs@, columns, i as nat),
        decreases width - i,
    {
        assert(entry_texts(cols@)[i as int] == cols@[i as int].text@);
        push_time_cell(&mut out, cols[i].key);
        i += 1;
        assert(shapes(out@) =~= base + total_cells(runs@, columns, i as nat));
    }
    push_text(&mut out, String::from_str("\n"));

    let ghost head = shapes(out@);
    assert(head =~= text_piece("| Benchmark |"@) + header_cells(columns, columns.len())
        + text_piece("\n"@) + text_piece("| --- |"@) + rule_cells(columns.len()) + text_piece(
        "\n"@,
    ) + text_piece("| Relative Performance |"@) + ratio_cells(runs@, columns, columns.len())
        + text_piece("\n"@) + text_piece("| Total Time |"@) + total_cells(
        runs@,
        columns,
        columns.len(),
    ) + text_piece("\n"@));
    let mut j: usize = 0;
    while j < rows.len()
        invariant
            j <= rows.len(),
            width == cols.len(),
            entry_texts(cols@) == columns,
            entry_texts(rows@) == lines,
            is_column_order(runs@, columns),
            is_row_order(runs@, lines),
            runner_ids.len() == runs.len(),
            benchmark_ids.len() == runs.len(),
            forall|k: int|
                0 <= k < runs.len() ==> (#[trigger] runner_ids[k])@ == runs[k].runner_identifier@,
            forall|k: int|
                0 <= k < runs.len() ==> (#[trigger] benchmark_ids[k])@
                    == runs[k].benchmark_identifier@,
            forall|b: int, c: int|
                0 <= b < j && 0 <= c < columns.len() ==> has_cell(
                    runs@,
                    #[trigger] lines[b],
                    #[trigger] columns[c],
                ),
            !has_overlong_total(runs@),
            shapes(out@) == head + benchmark_rows(runs@, columns, lines, j as nat),
        decreases rows.len() - j,
    {
        let ghost line = lines[j as int];
        assert(entry_texts(rows@)[j as int] == rows@[j as int].text@);
        let ghost start = shapes(out@);
        let mut text = String::from_str("| ");
        push_chars(&mut text, &rows[j].text);
        text.append(" |");
        push_text(&mut out, text);
        let ghost base = shapes(out@);
        let mut i: usize = 0;
        while i < width
            invariant
                i <= width,
                j < rows.len(),
                width == cols.len(),
                entry_texts(cols@) == columns,
                entry_texts(rows@) == lines,
                line == lines[j as int],
                line == rows@[j as int].text@,
                is_column_order(runs@, columns),
                is_row_order(runs@, lines),
                runner_ids.len() == runs.len(),
                benchmark_ids.len() == runs.len(),
                forall|k: int|
                    0 <= k < runs.len() ==> (#[trigger] runner_ids[k])@
                        == runs[k].runner_identifier@,
                forall|k: int|
                    0 <= k < runs.len() ==> (#[trigger] benchmark_ids[k])@
                        == runs[k].benchmark_identifier@,
                forall|c: int| 0 <= c < i ==> has_cell(runs@, line, #[trigger] columns[c]),
                !has_overlong_total(runs@),
                shapes(out@) == base + benchmark_cells(runs@, columns, line, i as nat),
            decreases width - i,
        {
            assert(entry_texts(cols@)[i as int] == cols@[i as int].text@);
            match find_cell(runs, &runner_ids, &benchmark_ids, &rows[j].text, &cols[i].text) {
                Some(time) => {
                    push_time_cell(&mut out, time.as_nanos());
                },
                None => {
                    proof {
                        assert(lines.contains(lines[j as int]));
                        assert(columns.contains(columns[i as int]));
                    }
                    return Err(TableError::MissingRun);
                },
            }
            i += 1;
            assert(shapes(out@) =~= base + benchmark_cells(runs@, columns, line, i as nat));
        }
        push_text(&mut out, String::from_str("\n"));
        j += 1;
        assert(shapes(out@) =~= head + benchmark_rows(runs@, columns, lines, j as nat)) by {
            assert(shapes(out@) =~= start + benchmark_row(runs@, columns, line));
        }
    }
    proof {
        assert(shapes(out@) =~= table_shapes(runs@, columns, lines));
        assert(!has_gap(runs@)) by {
            if has_gap(runs@) {
                let (benchmark, runner) = choose|benchmark: Seq<char>, runner: Seq<char>|
                    names_benchmark(runs@, benchmark) && names_runner(runs@, runner) && !has_cell(
                        runs@,
                        benchmark,
                        runner,
                    );
                assert(lines.contains(benchmark));
                assert(columns.contains(runner));
                let b = choose|b: int| 0 <= b < lines.len() && lines[b] == benchmark;
                let c = choose|c: int| 0 <= c < columns.len() && columns[c] == runner;
                assert(has_cell(runs@, lines[b], columns[c]));
            }
        }
    }
    Ok(out)
}

} // verus!
