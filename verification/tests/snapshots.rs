use evm_bench::snapshots::{latest_output, names_output, output_file_name, Timestamp};

fn stamp(year: u16, month: u8, day: u8, hour: u8, minute: u8, second: u8) -> Timestamp {
    Timestamp { year, month, day, hour, minute, second }
}

fn is_output(name: &str) -> bool {
    names_output(&name.chars().collect())
}

fn latest(names: &[&str]) -> Option<usize> {
    latest_output(&names.iter().map(|name| name.to_string()).collect())
}

#[test]
fn a_snapshot_is_named_after_its_time() {
    assert_eq!(
        output_file_name(&stamp(2023, 3, 5, 7, 8, 9)),
        Some("outputs.2023-03-05T07-08-09+0000.json".to_string())
    );
    assert_eq!(
        output_file_name(&stamp(9999, 12, 31, 23, 59, 60)),
        Some("outputs.9999-12-31T23-59-60+0000.json".to_string())
    );
    assert_eq!(
        output_file_name(&stamp(0, 1, 1, 0, 0, 0)),
        Some("outputs.0000-01-01T00-00-00+0000.json".to_string())
    );
}

#[test]
fn a_time_out_of_range_names_no_snapshot() {
    assert_eq!(output_file_name(&stamp(10000, 1, 1, 0, 0, 0)), None);
    assert_eq!(output_file_name(&stamp(2023, 0, 1, 0, 0, 0)), None);
    assert_eq!(output_file_name(&stamp(2023, 13, 1, 0, 0, 0)), None);
    assert_eq!(output_file_name(&stamp(2023, 1, 0, 0, 0, 0)), None);
    assert_eq!(output_file_name(&stamp(2023, 1, 32, 0, 0, 0)), None);
    assert_eq!(output_file_name(&stamp(2023, 1, 1, 24, 0, 0)), None);
    assert_eq!(output_file_name(&stamp(2023, 1, 1, 0, 60, 0)), None);
    assert_eq!(output_file_name(&stamp(2023, 1, 1, 0, 0, 61)), None);
}

#[test]
fn names_of_snapshots_sort_like_their_times() {
    let times = [
        stamp(999, 12, 31, 23, 59, 59),
        stamp(2022, 12, 31, 23, 59, 59),
        stamp(2023, 1, 1, 0, 0, 0),
        stamp(2023, 1, 1, 0, 0, 10),
        stamp(2023, 1, 1, 0, 9, 0),
        stamp(2023, 1, 1, 10, 0, 0),
        stamp(2023, 1, 2, 0, 0, 0),
        stamp(2023, 2, 1, 0, 0, 0),
        stamp(2023, 10, 1, 0, 0, 0),
        stamp(2024, 1, 1, 0, 0, 0),
    ];
    let names: Vec<String> = times.iter().map(|t| output_file_name(t).unwrap()).collect();
    let mut sorted = names.clone();
    sorted.sort();
    assert_eq!(names, sorted);
    for (i, name) in names.iter().enumerate() {
        let mut shuffled: Vec<String> = names[..=i].to_vec();
        shuffled.reverse();
        assert_eq!(shuffled[latest_output(&shuffled).unwrap()], *name);
    }
}

#[test]
fn what_counts_as_a_snapshot() {
    assert!(is_output("outputs.2023-03-05T07-08-09+0000.json"));
    assert!(is_output("outputs.json"));
    assert!(is_output("outputs.x.JSON"));
    assert!(is_output("outputs..Json"));
    assert!(!is_output("outputs."));
    assert!(!is_output("outputs.json.bak"));
    assert!(!is_output("outputs.2023.jso"));
    assert!(!is_output("outputs.2023.jsonl"));
    assert!(!is_output("output.2023.json"));
    assert!(!is_output("Outputs.2023.json"));
    assert!(!is_output("outputs-2023.json"));
    assert!(!is_output("x.outputs.2023.json"));
    assert!(!is_output(""));
    assert!(!is_output("json"));
}

#[test]
fn the_latest_snapshot_sorts_last() {
    assert_eq!(
        latest(&[
            "outputs.2023-01-01T00-00-00+0000.json",
            "notes.txt",
            "outputs.2023-06-01T00-00-00+0000.json",
            "outputs.2023-03-01T00-00-00+0000.json",
            "zzz.json",
            "outputs.2023-06-01T00-00-00+0000.json.bak",
        ]),
        Some(2)
    );
    assert_eq!(latest(&["outputs.a.json", "outputs.b.JSON", "outputs.B.json"]), Some(1));
    assert_eq!(latest(&["outputs.a.json", "outputs.ab.json"]), Some(1));
    assert_eq!(latest(&["outputs.json", "outputs.a.json"]), Some(0));
}

#[test]
fn of_equal_names_the_last_is_the_latest() {
    assert_eq!(latest(&["outputs.a.json", "outputs.a.json", "outputs.0.json"]), Some(1));
}

#[test]
fn a_directory_without_snapshots_has_no_latest() {
    assert_eq!(latest(&[]), None);
    assert_eq!(latest(&["build", "notes.txt", "outputs.", "outputs.2023.json.tmp"]), None);
}
