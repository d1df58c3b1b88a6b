//! Metadata of benchmarks and runners as their authors write it down: a
//! record of named fields. This module reads such records, fills in what an
//! author left out, and makes sure that no name is used twice.

use vstd::prelude::*;
use vstd::string::StringExecFns;
use crate::hexadecimal::{decode_plain_hex, plain_hex};

verus! {

/// What a record holds under one name, as far as metadata is concerned.
#[derive(Debug, Clone, PartialEq, Eq)]
pub enum Field {
    /// Nothing: the record has no such name.
    Absent,
    /// A text.
    Text(String),
    /// A whole number that is not negative and fits 64 bits.
    Number(u64),
    /// Anything else.
    Other,
}

/// Why metadata is refused.
#[derive(Clone, Copy, Debug, PartialEq, Eq, Structural)]
pub enum MetadataError {
    /// The record is not as the schema for such records asks.
    SchemaViolated,
    /// The record has no name.
    NameMissing,
    /// The name is no text.
    NameNotText,
    /// The version of the compiler is no text.
    SolcVersionNotText,
    /// The number of runs is no number.
    NumRunsNotNumber,
    /// The record of a benchmark names no contract.
    ContractMissing,
    /// The contract is no text.
    ContractNotText,
    /// The build context is no text.
    BuildContextNotText,
    /// The calldata is no text.
    CalldataNotText,
    /// The calldata is not in hexadecimal notation.
    CalldataNotHex,
    /// The record of a runner names no entry.
    EntryMissing,
    /// The entry is no text.
    EntryNotText,
    /// Two benchmarks have the same name.
    DuplicateBenchmarkNames,
    /// Two runners have the same name.
    DuplicateRunnerNames,
}

impl MetadataError {
    /// What is wrong, in words.
    pub open spec fn message_text(self) -> Seq<char> {
        match self {
            MetadataError::SchemaViolated => "json does not abide by the schema"@,
            MetadataError::NameMissing => "could not find name"@,
            MetadataError::NameNotText => "could not parse name as string"@,
            MetadataError::SolcVersionNotText => "could not parse solc-version as string"@,
            MetadataError::NumRunsNotNumber => "could not parse num-runs as u64"@,
            MetadataError::ContractMissing => "could not find contract"@,
            MetadataError::ContractNotText => "could not parse contract as string"@,
            MetadataError::BuildContextNotText => "could not parse build-context as string"@,
            MetadataError::CalldataNotText => "could not parse calldata as bytes"@,
            MetadataError::CalldataNotHex => "could not decode calldata as hex"@,
            MetadataError::EntryMissing => "could not find entry"@,
            MetadataError::EntryNotText => "could not parse entry as string"@,
            MetadataError::DuplicateBenchmarkNames => "found duplicate benchmark names"@,
            MetadataError::DuplicateRunnerNames => "found duplicate runners names"@,
        }
    }

    /// What is wrong, in words.
    pub fn message(&self) -> (text: String)
        ensures
            text@ == self.message_text(),
    {
        match self {
            MetadataError::SchemaViolated => String::from_str("json does not abide by the schema"),
            MetadataError::NameMissing => String::from_str("could not find name"),
            MetadataError::NameNotText => String::from_str("could not parse name as string"),
            MetadataError::SolcVersionNotText => String::from_str(
                "could not parse solc-version as string",
            ),
            MetadataError::NumRunsNotNumber => String::from_str("could not parse num-runs as u64"),
            MetadataError::ContractMissing => String::from_str("could not find contract"),
            MetadataError::ContractNotText => String::from_str(
                "could not parse contract as string",
            ),
            MetadataError::BuildContextNotText => String::from_str(
                "could not parse build-context as string",
            ),
            MetadataError::CalldataNotText => String::from_str("could not parse calldata as bytes"),
            MetadataError::CalldataNotHex => String::from_str("could not decode calldata as hex"),
            MetadataError::EntryMissing => String::from_str("could not find entry"),
            MetadataError::EntryNotText => String::from_str("could not parse entry as string"),
            MetadataError::DuplicateBenchmarkNames => String::from_str(
                "found duplicate benchmark names",
            ),
            MetadataError::DuplicateRunnerNames => String::from_str("found duplicate runners names"),
        }
    }
}

/// Metadata of a benchmark, complete.
#[derive(Debug, Clone, PartialEq, Eq)]
pub struct Benchmark {
    /// Name of the benchmark.
    pub name: String,
    /// Version of the compiler that the contract is built with.
    pub solc_version: String,
    /// How often the benchmark is run.
    pub num_runs: u64,
    /// Path of the contract, relative to the record.
    pub contract: String,
    /// Path of the directory that the contract is built in, relative to the
    /// record.
    pub build_context: String,
    /// The input that the contract is called with.
    pub calldata: Vec<u8>,
}

/// What holds of a benchmark whose author does not say otherwise.
#[derive(Debug, Clone, PartialEq, Eq)]
pub struct BenchmarkDefaults {
    /// Version of the compiler.
    pub solc_version: String,
    /// How often the benchmark is run.
    pub num_runs: u64,
    /// The input that the contract is called with.
    pub calldata: Vec<u8>,
}

/// The record of a benchmark, field by field.
#[derive(Debug, Clone, PartialEq, Eq)]
pub struct BenchmarkFields {
    /// What stands under `name`.
    pub name: Field,
    /// What stands under `solc-version`.
    pub solc_version: Field,
    /// What stands under `num-runs`.
    pub num_runs: Field,
    /// What stands under `contract`.
    pub contract: Field,
    /// What stands under `build-context`.
    pub build_context: Field,
    /// What stands under `calldata`.
    pub calldata: Field,
}

/// Metadata of a runner, complete.
#[derive(Debug, Clone, PartialEq, Eq)]
pub struct Runner {
    /// Name of the runner.
    pub name: String,
    /// Path of the program that starts the runner, relative to the record.
    pub entry: String,
}

/// The record of a runner, field by field.
#[derive(Debug, Clone, PartialEq, Eq)]
pub struct RunnerFields {
    /// What stands under `name`.
    pub name: Field,
    /// What stands under `entry`.
    pub entry: Field,
}

/// What is wrong with a field that has to be there and has to be a text.
pub open spec fn required_text_fault(
    field: Field,
    missing: MetadataError,
    wrong: MetadataError,
) -> Option<MetadataError> {
    match field {
        Field::Absent => Some(missing),
        Field::Text(_) => None,
        _ => Some(wrong),
    }
}

/// What is wrong with a field that may be left out and has to be a text
/// where it is there.
pub open spec fn optional_text_fault(field: Field, wrong: MetadataError) -> Option<MetadataError> {
    match field {
        Field::Absent => None,
        Field::Text(_) => None,
        _ => Some(wrong),
    }
}

/// The first thing that is wrong with the record of a benchmark, going
/// through the fields in their order, or `None` where nothing is.
pub open spec fn benchmark_fault(fields: BenchmarkFields) -> Option<MetadataError> {
    if required_text_fault(fields.name, MetadataError::NameMissing, MetadataError::NameNotText)
        is Some {
        required_text_fault(fields.name, MetadataError::NameMissing, MetadataError::NameNotText)
    } else if optional_text_fault(fields.solc_version, MetadataError::SolcVersionNotText) is Some {
        Some(MetadataError::SolcVersionNotText)
    } else if !(fields.num_runs is Absent || fields.num_runs is Number) {
        Some(MetadataError::NumRunsNotNumber)
    } else if required_text_fault(
        fields.contract,
        MetadataError::ContractMissing,
        MetadataError::ContractNotText,
    ) is Some {
        required_text_fault(
            fields.contract,
            MetadataError::ContractMissing,
            MetadataError::ContractNotText,
        )
    } else if optional_text_fault(fields.build_context, MetadataError::BuildContextNotText)
        is Some {
        Some(MetadataError::BuildContextNotText)
    } else if optional_text_fault(fields.calldata, MetadataError::CalldataNotText) is Some {
        Some(MetadataError::CalldataNotText)
    } else if fields.calldata matches Field::Text(text) && plain_hex(text@) is None {
        Some(MetadataError::CalldataNotHex)
    } else {
        None
    }
}

/// Whether `benchmark` is what the record `fields` says, with `defaults` for
/// what it leaves out: the version of the compiler, the number of runs and
/// the calldata are taken from the defaults, and the build context is the
/// directory of the record itself.
pub open spec fn is_benchmark_of(
    benchmark: Benchmark,
    fields: BenchmarkFields,
    defaults: BenchmarkDefaults,
) -> bool {
    &&& fields.name matches Field::Text(name) && benchmark.name@ == name@
    &&& benchmark.solc_version@ == match fields.solc_version {
        Field::Text(version) => version@,
        _ => defaults.solc_version@,
    }
    &&& benchmark.num_runs == match fields.num_runs {
        Field::Number(n) => n,
        _ => defaults.num_runs,
    }
    &&& fields.contract matches Field::Text(contract) && benchmark.contract@ == contract@
    &&& benchmark.build_context@ == match fields.build_context {
        Field::Text(context) => context@,
        _ => "."@,
    }
    &&& benchmark.calldata@ == match fields.calldata {
        Field::Text(text) => plain_hex(text@)->0,
        _ => defaults.calldata@,
    }
}

/// A copy of `bytes`.
fn copy_bytes(bytes: &Vec<u8>) -> (copy: Vec<u8>)
    ensures
        copy@ == bytes@,
{
    let mut copy: Vec<u8> = Vec::new();
    let mut i: usize = 0;
    while i < bytes.len()
        invariant
            i <= bytes.len(),
            copy@ == bytes@.take(i as int),
        decreases bytes.len() - i,
    {
        copy.push(bytes[i]);
        assert(bytes@.take(i + 1) =~= bytes@.take(i as int).push(bytes@[i as int]));
        i += 1;
    }
    assert(bytes@.take(bytes.len() as int) =~= bytes@);
    copy
}

impl Benchmark {
    /// Reads the record of a benchmark. A record needs a name and a
    /// contract; every field that is there has to be of its kind, and the
    /// calldata an even number of hexadecimal digits. The first field that
    /// is not as it has to be is reported.
    pub fn parse_inner(fields: &BenchmarkFields, defaults: &BenchmarkDefaults) -> (parsed: Result<
        Benchmark,
        MetadataError,
    >)
        ensures
            match parsed {
                Ok(benchmark) => benchmark_fault(*fields) is None && is_benchmark_of(
                    benchmark,
                    *fields,
                    *defaults,
                ),
                Err(fault) => benchmark_fault(*fields) == Some(fault),
            },
    {
        let name = match &fields.name {
            Field::Absent => {
                return Err(MetadataError::NameMissing);
            },
            Field::Text(name) => name.clone(),
            _ => {
                return Err(MetadataError::NameNotText);
            },
        };
        let solc_version = match &fields.solc_version {
            Field::Absent => defaults.solc_version.clone(),
            Field::Text(version) => version.clone(),
            _ => {
                return Err(MetadataError::SolcVersionNotText);
            },
        };
        let num_runs = match &fields.num_runs {
            Field::Absent => defaults.num_runs,
            Field::Number(n) => *n,
            _ => {
                return Err(MetadataError::NumRunsNotNumber);
            },
        };
        let contract = match &fields.contract {
            Field::Absent => {
                return Err(MetadataError::ContractMissing);
            },
            Field::Text(contract) => contract.clone(),
            _ => {
                return Err(MetadataError::ContractNotText);
            },
        };
        let build_context = match &fields.build_context {
            Field::Absent => String::from_str("."),
            Field::Text(context) => context.clone(),
            _ => {
                return Err(MetadataError::BuildContextNotText);
            },
        };
        let calldata = match &fields.calldata {
            Field::Absent => copy_bytes(&defaults.calldata),
            Field::Text(text) => match decode_plain_hex(text.as_str()) {
                Some(bytes) => bytes,
                None => {
                    return Err(MetadataError::CalldataNotHex);
                },
            },
            _ => {
                return Err(MetadataError::CalldataNotText);
            },
        };
        Ok(Benchmark { name, solc_version, num_runs, contract, build_context, calldata })
    }
}

impl Benchmark {
    /// Reads the record of a benchmark that has been held against the
    /// schema for such records; `valid` says whether it is as the schema
    /// asks. A record that is not is refused as it is; one that is is read
    /// field by field.
    pub fn parse(valid: bool, fields: &BenchmarkFields, defaults: &BenchmarkDefaults) -> (parsed:
        Result<Benchmark, MetadataError>)
        ensures
            match parsed {
                Ok(benchmark) => valid && benchmark_fault(*fields) is None && is_benchmark_of(
                    benchmark,
                    *fields,
                    *defaults,
                ),
                Err(fault) => fault == if valid {
                    benchmark_fault(*fields)->0
                } else {
                    MetadataError::SchemaViolated
                } && (valid ==> benchmark_fault(*fields) is Some),
            },
    {
        if valid {
            Benchmark::parse_inner(fields, defaults)
        } else {
            Err(MetadataError::SchemaViolated)
        }
    }
}

/// The first thing that is wrong with the record of a runner, or `None`
/// where nothing is.
pub open spec fn runner_fault(fields: RunnerFields) -> Option<MetadataError> {
    if required_text_fault(fields.name, MetadataError::NameMissing, MetadataError::NameNotText)
        is Some {
        required_text_fault(fields.name, MetadataError::NameMissing, MetadataError::NameNotText)
    } else {
        required_text_fault(fields.entry, MetadataError::EntryMissing, MetadataError::EntryNotText)
    }
}

impl Runner {
    /// Reads the record of a runner. A record needs a name and an entry,
    /// and both have to be texts.
    pub fn parse_inner(fields: &RunnerFields) -> (parsed: Result<Runner, MetadataError>)
        ensures
            match parsed {
                Ok(runner) => {
                    &&& runner_fault(*fields) is None
                    &&& fields.name matches Field::Text(name) && runner.name@ == name@
                    &&& fields.entry matches Field::Text(entry) && runner.entry@ == entry@
                },
                Err(fault) => runner_fault(*fields) == Some(fault),
            },
    {
        let name = match &fields.name {
            Field::Absent => {
                return Err(MetadataError::NameMissing);
            },
            Field::Text(name) => name.clone(),
            _ => {
                return Err(MetadataError::NameNotText);
            },
        };
        let entry = match &fields.entry {
            Field::Absent => {
                return Err(MetadataError::EntryMissing);
            },
            Field::Text(entry) => entry.clone(),
            _ => {
                return Err(MetadataError::EntryNotText);
            },
        };
        Ok(Runner { name, entry })
    }
}

impl Runner {
    /// Reads the record of a runner that has been held against the schema
    /// for such records; `valid` says whether it is as the schema asks. A
    /// record that is not is refused as it is; one that is is read field by
    /// field.
    pub fn parse(valid: bool, fields: &RunnerFields) -> (parsed: Result<Runner, MetadataError>)
        ensures
            match parsed {
                Ok(runner) => {
                    &&& valid
                    &&& runner_fault(*fields) is None
                    &&& fields.name matches Field::Text(name) && runner.name@ == name@
                    &&& fields.entry matches Field::Text(entry) && runner.entry@ == entry@
                },
                Err(fault) => fault == if valid {
                    runner_fault(*fields)->0
                } else {
                    MetadataError::SchemaViolated
                } && (valid ==> runner_fault(*fields) is Some),
            },
    {
        if valid {
            Runner::parse_inner(fields)
        } else {
            Err(MetadataError::SchemaViolated)
        }
    }
}

/// Whether no two of `names` are the same.
pub open spec fn distinct(names: Seq<Seq<char>>) -> bool {
    forall|i: int, j: int| 0 <= i < j < names.len() ==> names[i] != names[j]
}

/// The names of `benchmarks`, one for one.
pub open spec fn benchmark_names(benchmarks: Seq<Benchmark>) -> Seq<Seq<char>> {
    Seq::new(benchmarks.len(), |i: int| benchmarks[i].name@)
}

/// The names of `runners`, one for one.
pub open spec fn runner_names(runners: Seq<Runner>) -> Seq<Seq<char>> {
    Seq::new(runners.len(), |i: int| runners[i].name@)
}

/// Whether no two of `names` are the same.
fn all_distinct(names: &Vec<&str>) -> (b: bool)
    ensures
        b == distinct(Seq::new(names.len() as nat, |i: int| names[i]@)),
{
    let ghost texts = Seq::new(names.len() as nat, |i: int| names[i]@);
    let mut j: usize = 0;
    while j < names.len()
        invariant
            j <= names.len(),
            texts == Seq::new(names.len() as nat, |i: int| names[i]@),
            forall|a: int, b: int| 0 <= a < b < j ==> texts[a] != texts[b],
        decreases names.len() - j,
    {
        let mut i: usize = 0;
        while i < j
            invariant
                i <= j < names.len(),
                texts == Seq::new(names.len() as nat, |i: int| names[i]@),
                forall|a: int| 0 <= a < i ==> texts[a] != texts[j as int],
            decreases j - i,
        {
            if chars_same(names[i], names[j]) {
                assert(texts[i as int] == texts[j as int]);
                return false;
            }
            i += 1;
        }
        j += 1;
    }
    true
}

/// Whether `a` and `b` are the same text.
fn chars_same(a: &str, b: &str) -> (same: bool)
    ensures
        same == (a@ == b@),
{
    let x = crate::text::chars_of(a);
    let y = crate::text::chars_of(b);
    crate::text::text_equal(&x, &y)
}

/// Accepts the benchmarks that were found, unless two of them have the same
/// name.
pub fn find_benchmarks(found: Vec<Benchmark>) -> (accepted: Result<Vec<Benchmark>, MetadataError>)
    ensures
        match accepted {
            Ok(benchmarks) => benchmarks == found && distinct(benchmark_names(found@)),
            Err(fault) => fault == MetadataError::DuplicateBenchmarkNames && !distinct(
                benchmark_names(found@),
            ),
        },
{
    let mut names: Vec<&str> = Vec::new();
    let mut i: usize = 0;
    while i < found.len()
        invariant
            i <= found.len(),
            names.len() == i,
            forall|k: int| 0 <= k < i ==> (#[trigger] names[k])@ == found[k].name@,
        decreases found.len() - i,
    {
        names.push(found[i].name.as_str());
        i += 1;
    }
    assert(Seq::new(names.len() as nat, |i: int| names[i]@) =~= benchmark_names(found@));
    if all_distinct(&names) {
        Ok(found)
    } else {
        Err(MetadataError::DuplicateBenchmarkNames)
    }
}

/// Accepts the runners that were found, unless two of them have the same
/// name.
pub fn find_runners(found: Vec<Runner>) -> (accepted: Result<Vec<Runner>, MetadataError>)
    ensures
        match accepted {
            Ok(runners) => runners == found && distinct(runner_names(found@)),
            Err(fault) => fault == MetadataError::DuplicateRunnerNames && !distinct(
                runner_names(found@),
            ),
        },
{
    let mut names: Vec<&str> = Vec::new();
    let mut i: usize = 0;
    while i < found.len()
        invariant
            i <= found.len(),
            names.len() == i,
            forall|k: int| 0 <= k < i ==> (#[trigger] names[k])@ == found[k].name@,
        decreases found.len() - i,
    {
        names.push(found[i].name.as_str());
        i += 1;
    }
    assert(Seq::new(names.len() as nat, |i: int| names[i]@) =~= runner_names(found@));
    if all_distinct(&names) {
        Ok(found)
    } else {
        Err(MetadataError::DuplicateRunnerNames)
    }
}

} // verus!
