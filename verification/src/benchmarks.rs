//! Benchmarks: the workloads that every runner is timed on.

use vstd::prelude::*;
use vstd::std_specs::cmp::PartialEqSpecImpl;
use vstd::std_specs::convert::{FromSpec, FromSpecImpl};
use crate::hexadecimal::{decode_prefixed_hex, prefixed_hex};
use crate::text::{chars_of, text_precedes, precedes};

verus! {

/// Unique identifier for a benchmark. Its view is the text of the identifier.
#[derive(Debug)]
pub struct Identifier(String);

impl View for Identifier {
    type V = Seq<char>;

    closed spec fn view(&self) -> Seq<char> {
        self.0@
    }
}

impl Identifier {
    /// The identifier that reads `text`.
    pub fn new(text: &str) -> (id: Identifier)
        ensures
            id@ == text@,
    {
        Identifier(text.to_owned())
    }

    /// The text of the identifier.
    pub fn to_string(&self) -> (text: String)
        ensures
            text@ == self@,
    {
        self.0.clone()
    }

    /// The text of the identifier, borrowed.
    pub fn as_str(&self) -> (text: &str)
        ensures
            text@ == self@,
    {
        self.0.as_str()
    }

    /// Whether this identifier comes before `other` in dictionary order.
    pub fn precedes(&self, other: &Identifier) -> (b: bool)
        ensures
            b == precedes(self@, other@),
    {
        let a = chars_of(self.0.as_str());
        let b = chars_of(other.0.as_str());
        text_precedes(&a, &b)
    }
}

impl Clone for Identifier {
    fn clone(&self) -> (id: Identifier)
        ensures
            id@ == self@,
    {
        Identifier(self.0.clone())
    }
}

impl PartialEq for Identifier {
    fn eq(&self, other: &Identifier) -> (b: bool) {
        self.0 == other.0
    }
}

impl Eq for Identifier {

}

impl PartialEqSpecImpl for Identifier {
    open spec fn obeys_eq_spec() -> bool {
        true
    }

    open spec fn eq_spec(&self, other: &Identifier) -> bool {
        self@ == other@
    }
}

impl From<String> for Identifier {
    fn from(text: String) -> (id: Identifier) {
        Identifier(text)
    }
}

impl FromSpecImpl<String> for Identifier {
    open spec fn obeys_from_spec() -> bool {
        true
    }

    closed spec fn from_spec(text: String) -> Identifier {
        Identifier(text)
    }
}

impl<'a> From<&'a str> for Identifier {
    fn from(text: &'a str) -> (id: Identifier) {
        Identifier::new(text)
    }
}

/// Nothing is stated of the conversion from a borrowed text: in contracts,
/// use [`Identifier::new`].
impl<'a> FromSpecImpl<&'a str> for Identifier {
    open spec fn obeys_from_spec() -> bool {
        false
    }

    open spec fn from_spec(text: &'a str) -> Identifier {
        arbitrary()
    }
}

/// An identifier made from a string reads as that string.
pub proof fn lemma_identifier_from(text: String)
    ensures
        <Identifier as FromSpec<String>>::from_spec(text)@ == text@,
{
}

/// How much work a benchmark is. It decides how often a runner repeats it.
#[derive(Clone, Copy, Debug, PartialEq, Eq, Structural)]
pub enum BenchmarkMetadataCost {
    /// A short workload.
    Cheap,
    /// A workload of middling length.
    Moderate,
    /// A long workload.
    Expensive,
}

/// What the author of a benchmark states about it.
#[derive(Debug)]
pub struct BenchmarkMetadata {
    /// Name of the benchmark, from which its identifier is taken.
    pub name: String,
    /// Path of the source file of the workload, relative to the metadata.
    pub contract: String,
    /// The input of the workload, in hexadecimal notation.
    pub calldata: String,
    /// How much work the benchmark is.
    pub cost: BenchmarkMetadataCost,
}

impl Clone for BenchmarkMetadata {
    fn clone(&self) -> (copy: BenchmarkMetadata)
        ensures
            copy.name@ == self.name@,
            copy.contract@ == self.contract@,
            copy.calldata@ == self.calldata@,
            copy.cost == self.cost,
    {
        BenchmarkMetadata {
            name: self.name.clone(),
            contract: self.contract.clone(),
            calldata: self.calldata.clone(),
            cost: self.cost,
        }
    }
}

/// Total representation of a benchmark: everything a runner needs to run it.
#[derive(Debug)]
pub struct Benchmark {
    /// Unique identifier for this benchmark.
    pub identifier: Identifier,
    /// Metadata for this benchmark.
    pub metadata: BenchmarkMetadata,
    /// Deployed bytecode of the workload.
    pub bytecode: Vec<u8>,
    /// The input that the workload is called with.
    pub calldata: Vec<u8>,
}


/// Whether `benchmark` is the benchmark that `metadata` describes, with the
/// bytecode `bytecode` and the calldata `calldata`.
pub open spec fn is_assembled(
    benchmark: Benchmark,
    metadata: BenchmarkMetadata,
    bytecode: Seq<u8>,
    calldata: Seq<u8>,
) -> bool {
    &&& benchmark.identifier@ == metadata.name@
    &&& benchmark.metadata.name@ == metadata.name@
    &&& benchmark.metadata.contract@ == metadata.contract@
    &&& benchmark.metadata.calldata@ == metadata.calldata@
    &&& benchmark.metadata.cost == metadata.cost
    &&& benchmark.bytecode@ == bytecode
    &&& benchmark.calldata@ == calldata
}

/// Puts a benchmark together from its metadata and what the compiler made of
/// its source.
///
/// There is a benchmark only where the compiler made bytecode that is not
/// empty, and the calldata of the metadata is in hexadecimal notation: an
/// even number of characters, all of them hexadecimal digits but for a
/// leading `0x`. The benchmark is identified by the name that the metadata
/// gives.
pub fn assemble(metadata: &BenchmarkMetadata, bytecode: Option<Vec<u8>>) -> (benchmark: Option<
    Benchmark,
>)
    ensures
        benchmark is Some <==> (bytecode matches Some(code) && code@.len() > 0) && prefixed_hex(
            metadata.calldata@,
        ) is Some,
        benchmark matches Some(b) ==> is_assembled(
            b,
            *metadata,
            bytecode->0@,
            prefixed_hex(metadata.calldata@)->0,
        ),
{
    let bytecode = match bytecode {
        Some(code) => code,
        None => {
            return None;
        },
    };
    if bytecode.len() == 0 {
        return None;
    }
    let calldata = match decode_prefixed_hex(metadata.calldata.as_str()) {
        Some(bytes) => bytes,
        None => {
            return None;
        },
    };
    Some(
        Benchmark {
            identifier: Identifier::new(metadata.name.as_str()),
            metadata: metadata.clone(),
            bytecode,
            calldata,
        },
    )
}

} // verus!
