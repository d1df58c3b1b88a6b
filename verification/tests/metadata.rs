use evm_bench::metadata::{
    find_benchmarks, find_runners, Benchmark, BenchmarkDefaults, BenchmarkFields, Field,
    MetadataError, Runner, RunnerFields,
};

fn text(value: &str) -> Field {
    Field::Text(value.to_string())
}

fn defaults() -> BenchmarkDefaults {
    BenchmarkDefaults { solc_version: "stable".to_string(), num_runs: 10, calldata: vec![0xaa] }
}

fn full() -> BenchmarkFields {
    BenchmarkFields {
        name: text("erc20.transfer"),
        solc_version: text("0.8.17"),
        num_runs: Field::Number(5),
        contract: text("ERC20Transfer.sol"),
        build_context: text(".."),
        calldata: text("30627b7C"),
    }
}

fn bare() -> BenchmarkFields {
    BenchmarkFields {
        name: text("erc20.transfer"),
        solc_version: Field::Absent,
        num_runs: Field::Absent,
        contract: text("ERC20Transfer.sol"),
        build_context: Field::Absent,
        calldata: Field::Absent,
    }
}

fn benchmark(name: &str) -> Benchmark {
    Benchmark {
        name: name.to_string(),
        solc_version: "stable".to_string(),
        num_runs: 10,
        contract: format!("{name}.sol"),
        build_context: ".".to_string(),
        calldata: vec![],
    }
}

fn runner(name: &str) -> Runner {
    Runner { name: name.to_string(), entry: format!("{name}/entry.sh") }
}

#[test]
fn a_full_record_of_a_benchmark() {
    assert_eq!(
        Benchmark::parse_inner(&full(), &defaults()),
        Ok(Benchmark {
            name: "erc20.transfer".to_string(),
            solc_version: "0.8.17".to_string(),
            num_runs: 5,
            contract: "ERC20Transfer.sol".to_string(),
            build_context: "..".to_string(),
            calldata: vec![0x30, 0x62, 0x7b, 0x7c],
        })
    );
}

#[test]
fn defaults_fill_in_what_a_record_leaves_out() {
    assert_eq!(
        Benchmark::parse_inner(&bare(), &defaults()),
        Ok(Benchmark {
            name: "erc20.transfer".to_string(),
            solc_version: "stable".to_string(),
            num_runs: 10,
            contract: "ERC20Transfer.sol".to_string(),
            build_context: ".".to_string(),
            calldata: vec![0xaa],
        })
    );
}

#[test]
fn empty_calldata_is_calldata() {
    let fields = BenchmarkFields { calldata: text(""), ..bare() };
    assert_eq!(Benchmark::parse_inner(&fields, &defaults()).unwrap().calldata, Vec::<u8>::new());
}

#[test]
fn every_fault_of_a_benchmark_record() {
    let cases = [
        (BenchmarkFields { name: Field::Absent, ..full() }, MetadataError::NameMissing),
        (BenchmarkFields { name: Field::Number(1), ..full() }, MetadataError::NameNotText),
        (BenchmarkFields { solc_version: Field::Other, ..full() }, MetadataError::SolcVersionNotText),
        (BenchmarkFields { num_runs: text("5"), ..full() }, MetadataError::NumRunsNotNumber),
        (BenchmarkFields { num_runs: Field::Other, ..full() }, MetadataError::NumRunsNotNumber),
        (BenchmarkFields { contract: Field::Absent, ..full() }, MetadataError::ContractMissing),
        (BenchmarkFields { contract: Field::Other, ..full() }, MetadataError::ContractNotText),
        (BenchmarkFields { build_context: Field::Number(0), ..full() }, MetadataError::BuildContextNotText),
        (BenchmarkFields { calldata: Field::Number(0), ..full() }, MetadataError::CalldataNotText),
        (BenchmarkFields { calldata: text("abc"), ..full() }, MetadataError::CalldataNotHex),
        (BenchmarkFields { calldata: text("zz"), ..full() }, MetadataError::CalldataNotHex),
        (BenchmarkFields { calldata: text("0x12"), ..full() }, MetadataError::CalldataNotHex),
        (BenchmarkFields { calldata: text("é1"), ..full() }, MetadataError::CalldataNotHex),
    ];
    for (fields, fault) in cases {
        assert_eq!(Benchmark::parse_inner(&fields, &defaults()), Err(fault));
    }
}

#[test]
fn the_first_fault_is_reported() {
    let fields = BenchmarkFields {
        name: Field::Other,
        solc_version: Field::Other,
        num_runs: Field::Other,
        contract: Field::Absent,
        build_context: Field::Other,
        calldata: text("x"),
    };
    assert_eq!(Benchmark::parse_inner(&fields, &defaults()), Err(MetadataError::NameNotText));
    let fields = BenchmarkFields { name: text("n"), solc_version: Field::Absent, ..fields };
    assert_eq!(Benchmark::parse_inner(&fields, &defaults()), Err(MetadataError::NumRunsNotNumber));
    let fields = BenchmarkFields { num_runs: Field::Absent, ..fields };
    assert_eq!(Benchmark::parse_inner(&fields, &defaults()), Err(MetadataError::ContractMissing));
}

#[test]
fn the_record_of_a_runner() {
    let fields = RunnerFields { name: text("revm"), entry: text("entry.sh") };
    assert_eq!(
        Runner::parse_inner(&fields),
        Ok(Runner { name: "revm".to_string(), entry: "entry.sh".to_string() })
    );
    let cases = [
        (RunnerFields { name: Field::Absent, entry: Field::Absent }, MetadataError::NameMissing),
        (RunnerFields { name: Field::Other, entry: text("e") }, MetadataError::NameNotText),
        (RunnerFields { name: text("r"), entry: Field::Absent }, MetadataError::EntryMissing),
        (RunnerFields { name: text("r"), entry: Field::Number(3) }, MetadataError::EntryNotText),
    ];
    for (fields, fault) in cases {
        assert_eq!(Runner::parse_inner(&fields), Err(fault));
    }
}

#[test]
fn faults_in_words() {
    assert_eq!(MetadataError::NameMissing.message(), "could not find name");
    assert_eq!(MetadataError::NameNotText.message(), "could not parse name as string");
    assert_eq!(MetadataError::SolcVersionNotText.message(), "could not parse solc-version as string");
    assert_eq!(MetadataError::NumRunsNotNumber.message(), "could not parse num-runs as u64");
    assert_eq!(MetadataError::ContractMissing.message(), "could not find contract");
    assert_eq!(MetadataError::ContractNotText.message(), "could not parse contract as string");
    assert_eq!(MetadataError::BuildContextNotText.message(), "could not parse build-context as string");
    assert_eq!(MetadataError::CalldataNotText.message(), "could not parse calldata as bytes");
    assert_eq!(MetadataError::CalldataNotHex.message(), "could not decode calldata as hex");
    assert_eq!(MetadataError::EntryMissing.message(), "could not find entry");
    assert_eq!(MetadataError::EntryNotText.message(), "could not parse entry as string");
    assert_eq!(MetadataError::DuplicateBenchmarkNames.message(), "found duplicate benchmark names");
    assert_eq!(MetadataError::DuplicateRunnerNames.message(), "found duplicate runners names");
}

#[test]
fn benchmarks_with_names_of_their_own_are_accepted() {
    let found = vec![benchmark("a"), benchmark("b"), benchmark("ab")];
    assert_eq!(find_benchmarks(found.clone()), Ok(found));
    assert_eq!(find_benchmarks(vec![]), Ok(vec![]));
}

#[test]
fn benchmarks_that_share_a_name_are_refused() {
    let found = vec![benchmark("a"), benchmark("b"), benchmark("a")];
    assert_eq!(find_benchmarks(found), Err(MetadataError::DuplicateBenchmarkNames));
}

#[test]
fn runners_with_names_of_their_own_are_accepted() {
    let found = vec![runner("revm"), runner("evmone"), runner("geth")];
    assert_eq!(find_runners(found.clone()), Ok(found));
    assert_eq!(find_runners(vec![]), Ok(vec![]));
}

#[test]
fn runners_that_share_a_name_are_refused() {
    let found = vec![runner("revm"), runner("geth"), runner("geth")];
    assert_eq!(find_runners(found), Err(MetadataError::DuplicateRunnerNames));
    let mut twice = runner("revm");
    twice.entry = "other.sh".to_string();
    assert_eq!(find_runners(vec![runner("revm"), twice]), Err(MetadataError::DuplicateRunnerNames));
}

#[test]
fn a_record_that_the_schema_refuses_is_refused() {
    assert_eq!(
        Benchmark::parse(false, &full(), &defaults()),
        Err(MetadataError::SchemaViolated)
    );
    assert_eq!(
        Runner::parse(false, &RunnerFields { name: text("revm"), entry: text("entry.sh") }),
        Err(MetadataError::SchemaViolated)
    );
    assert_eq!(MetadataError::SchemaViolated.message(), "json does not abide by the schema");
}

#[test]
fn a_record_that_the_schema_accepts_is_read() {
    assert_eq!(
        Benchmark::parse(true, &full(), &defaults()),
        Benchmark::parse_inner(&full(), &defaults())
    );
    assert_eq!(
        Benchmark::parse(true, &BenchmarkFields { name: Field::Absent, ..full() }, &defaults()),
        Err(MetadataError::NameMissing)
    );
    let fields = RunnerFields { name: text("revm"), entry: text("entry.sh") };
    assert_eq!(Runner::parse(true, &fields), Runner::parse_inner(&fields));
    assert_eq!(
        Runner::parse(true, &RunnerFields { name: text("r"), entry: Field::Absent }),
        Err(MetadataError::EntryMissing)
    );
}
