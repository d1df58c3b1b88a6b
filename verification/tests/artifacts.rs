use evm_bench::benchmarks::{
    assemble, BenchmarkMetadata, BenchmarkMetadataCost, Identifier as BenchmarkIdentifier,
};
use evm_bench::runners::{
    built_runner, image_tag, report_build, BuildOutput, Identifier as RunnerIdentifier,
    RunnerMetadata,
};
use evm_bench::runs::Identifier as RunIdentifier;

fn metadata(calldata: &str) -> BenchmarkMetadata {
    BenchmarkMetadata {
        name: "erc20.mint".to_string(),
        contract: "ERC20Mint.sol".to_string(),
        calldata: calldata.to_string(),
        cost: BenchmarkMetadataCost::Moderate,
    }
}

#[test]
fn a_benchmark_is_put_together() {
    let benchmark = assemble(&metadata("30627b7c"), Some(vec![0x60, 0x80])).unwrap();
    assert_eq!(benchmark.identifier.to_string(), "erc20.mint");
    assert_eq!(benchmark.metadata.name, "erc20.mint");
    assert_eq!(benchmark.metadata.contract, "ERC20Mint.sol");
    assert_eq!(benchmark.metadata.calldata, "30627b7c");
    assert_eq!(benchmark.metadata.cost, BenchmarkMetadataCost::Moderate);
    assert_eq!(benchmark.bytecode, vec![0x60, 0x80]);
    assert_eq!(benchmark.calldata, vec![0x30, 0x62, 0x7b, 0x7c]);
}

#[test]
fn calldata_may_have_a_prefix_and_capitals() {
    assert_eq!(assemble(&metadata("0x30627B7c"), Some(vec![1])).unwrap().calldata, vec![0x30, 0x62, 0x7b, 0x7c]);
    assert_eq!(assemble(&metadata("0XfF"), Some(vec![1])).unwrap().calldata, vec![0xff]);
    assert_eq!(assemble(&metadata("0x"), Some(vec![1])).unwrap().calldata, Vec::<u8>::new());
    assert_eq!(assemble(&metadata(""), Some(vec![1])).unwrap().calldata, Vec::<u8>::new());
    assert_eq!(assemble(&metadata("0a"), Some(vec![1])).unwrap().calldata, vec![0x0a]);
}

#[test]
fn no_benchmark_without_bytecode() {
    assert!(assemble(&metadata("30627b7c"), None).is_none());
    assert!(assemble(&metadata("30627b7c"), Some(vec![])).is_none());
}

#[test]
fn no_benchmark_with_calldata_that_is_no_hex() {
    for calldata in ["abc", "0x1", "zz", "0x0x12", "12 3", "é1", "0x12g4", "x012"] {
        assert!(assemble(&metadata(calldata), Some(vec![1])).is_none(), "{}", calldata);
    }
}

#[test]
fn the_image_of_a_runner_is_tagged_with_its_name() {
    assert_eq!(image_tag("revm"), "revm:latest");
    assert_eq!(image_tag(""), ":latest");
}

#[test]
fn a_build_without_failure_went_through() {
    let report = report_build(&vec![
        BuildOutput::Info { stream: Some("Step 1/3\n".to_string()) },
        BuildOutput::Info { stream: None },
        BuildOutput::Info { stream: Some("Step 2/3\n".to_string()) },
    ]);
    assert!(report.success);
    assert_eq!(report.logs, "Step 1/3\nStep 2/3\n");
    let report = report_build(&vec![]);
    assert!(report.success);
    assert_eq!(report.logs, "");
}

#[test]
fn a_build_with_a_failure_did_not_go_through() {
    let report = report_build(&vec![
        BuildOutput::Info { stream: Some("Step 1/3\n".to_string()) },
        BuildOutput::Failure { message: "no space left".to_string() },
        BuildOutput::Info { stream: Some("Step 2/3\n".to_string()) },
    ]);
    assert!(!report.success);
    assert_eq!(report.logs, "Step 1/3\nno space leftStep 2/3\n");
}

#[test]
fn a_runner_is_made_of_a_build_that_went_through() {
    let metadata = RunnerMetadata { name: "revm".to_string(), dockerfile: "Dockerfile".to_string() };
    let runner = built_runner(metadata.clone(), true).unwrap();
    assert_eq!(runner.identifier.to_string(), "revm");
    assert_eq!(runner.docker_image_tag, "revm:latest");
    assert_eq!(runner.metadata.name, "revm");
    assert_eq!(runner.metadata.dockerfile, "Dockerfile");
    assert!(built_runner(metadata, false).is_none());
}

#[test]
fn identifiers_read_as_their_text() {
    assert_eq!(BenchmarkIdentifier::from("foo").to_string(), "foo");
    assert_eq!(BenchmarkIdentifier::from("foo".to_string()).to_string(), "foo");
    assert_eq!(RunnerIdentifier::from("foo").to_string(), "foo");
    assert_eq!(RunnerIdentifier::from("foo".to_string()).as_str(), "foo");
    assert_eq!(RunIdentifier::from("foo_bar").to_string(), "foo_bar");
    assert_eq!(RunIdentifier::new("foo_bar").clone().to_string(), "foo_bar");
    let identifier = RunIdentifier::from(format!(
        "{}_{}",
        RunnerIdentifier::from("foo").to_string(),
        BenchmarkIdentifier::from("bar").to_string()
    ));
    assert_eq!(identifier.to_string(), "foo_bar");
    assert_eq!(identifier, RunIdentifier::for_pair(&RunnerIdentifier::from("foo"), &BenchmarkIdentifier::from("bar")));
}

#[test]
fn identifiers_are_compared_by_their_text() {
    assert_eq!(BenchmarkIdentifier::from("a"), BenchmarkIdentifier::new("a"));
    assert_ne!(BenchmarkIdentifier::from("a"), BenchmarkIdentifier::new("b"));
    let order = ["", "A", "B", "a", "aa", "ab", "b", "é", "日本"];
    for (i, a) in order.iter().enumerate() {
        for (j, b) in order.iter().enumerate() {
            assert_eq!(RunnerIdentifier::new(a).precedes(&RunnerIdentifier::new(b)), i < j);
            assert_eq!(BenchmarkIdentifier::new(a).precedes(&BenchmarkIdentifier::new(b)), a < b);
            assert_eq!(RunIdentifier::new(a).precedes(&RunIdentifier::new(b)), a < b);
        }
    }
}
