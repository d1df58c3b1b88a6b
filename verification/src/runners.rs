//! Runners: the execution engines under test, each packaged as an image
//! from which isolated instances are started.

use vstd::prelude::*;
use vstd::std_specs::cmp::PartialEqSpecImpl;
use vstd::std_specs::convert::{FromSpec, FromSpecImpl};
use vstd::string::StringExecFns;
use crate::text::{chars_of, text_precedes, precedes};

verus! {

/// Unique identifier for a runner. Its view is the text of the identifier.
#[derive(Debug)]
pub struct Identifier(String);

impl View for Identifier {
    type V = Seq<char>;

    closed spec fn view(&self) -> Seq<char> {
        self.0@
    }
}

impl Identifier {
    /// The identifier that reads `text`.
    pub fn new(text: &str) -> (id: Identifier)
        ensures
            id@ == text@,
    {
        Identifier(text.to_owned())
    }

    /// The text of the identifier.
    pub fn to_string(&self) -> (text: String)
        ensures
            text@ == self@,
    {
        self.0.clone()
    }

    /// The text of the identifier, borrowed.
    pub fn as_str(&self) -> (text: &str)
        ensures
            text@ == self@,
    {
        self.0.as_str()
    }

    /// Whether this identifier comes before `other` in dictionary order.
    pub fn precedes(&self, other: &Identifier) -> (b: bool)
        ensures
            b == precedes(self@, other@),
    {
        let a = chars_of(self.0.as_str());
        let b = chars_of(other.0.as_str());
        text_precedes(&a, &b)
    }
}

impl Clone for Identifier {
    fn clone(&self) -> (id: Identifier)
        ensures
            id@ == self@,
    {
        Identifier(self.0.clone())
    }
}

impl PartialEq for Identifier {
    fn eq(&self, other: &Identifier) -> (b: bool) {
        self.0 == other.0
    }
}

impl Eq for Identifier {

}

impl PartialEqSpecImpl for Identifier {
    open spec fn obeys_eq_spec() -> bool {
        true
    }

    open spec fn eq_spec(&self, other: &Identifier) -> bool {
        self@ == other@
    }
}

impl From<String> for Identifier {
    fn from(text: String) -> (id: Identifier) {
        Identifier(text)
    }
}

impl FromSpecImpl<String> for Identifier {
    open spec fn obeys_from_spec() -> bool {
        true
    }

    closed spec fn from_spec(text: String) -> Identifier {
        Identifier(text)
    }
}

impl<'a> From<&'a str> for Identifier {
    fn from(text: &'a str) -> (id: Identifier) {
        Identifier::new(text)
    }
}

/// Nothing is stated of the conversion from a borrowed text: in contracts,
/// use [`Identifier::new`].
impl<'a> FromSpecImpl<&'a str> for Identifier {
    open spec fn obeys_from_spec() -> bool {
        false
    }

    open spec fn from_spec(text: &'a str) -> Identifier {
        arbitrary()
    }
}

/// An identifier made from a string reads as that string.
pub proof fn lemma_identifier_from(text: String)
    ensures
        <Identifier as FromSpec<String>>::from_spec(text)@ == text@,
{
}

/// What the author of a runner states about it.
#[derive(Debug)]
pub struct RunnerMetadata {
    /// Name of the runner, from which its identifier is taken.
    pub name: String,
    /// Path of the file that describes the image, relative to the metadata.
    pub dockerfile: String,
}

impl Clone for RunnerMetadata {
    fn clone(&self) -> (copy: RunnerMetadata)
        ensures
            copy.name@ == self.name@,
            copy.dockerfile@ == self.dockerfile@,
    {
        RunnerMetadata { name: self.name.clone(), dockerfile: self.dockerfile.clone() }
    }
}

/// Total representation of a runner: everything needed to start an instance
/// of it.
#[derive(Debug)]
pub struct Runner {
    /// Unique identifier for this runner.
    pub identifier: Identifier,
    /// Metadata for this runner.
    pub metadata: RunnerMetadata,
    /// Tag of the image that was built for this runner.
    pub docker_image_tag: String,
}

/// The tag under which the image of the runner called `name` is built.
pub open spec fn image_tag_text(name: Seq<char>) -> Seq<char> {
    name + ":latest"@
}

/// The tag under which the image of the runner called `name` is built.
pub fn image_tag(name: &str) -> (tag: String)
    ensures
        tag@ == image_tag_text(name@),
{
    let mut tag = String::from_str(name);
    tag.append(":latest");
    tag
}

/// One message of the builder while it builds an image.
#[derive(Debug)]
pub enum BuildOutput {
    /// Progress, with the text that the builder printed, if any.
    Info { stream: Option<String> },
    /// The builder failed, with the reason.
    Failure { message: String },
}

/// What the builder printed in the messages `outputs`, reasons of failures
/// included, in their order.
pub open spec fn build_logs(outputs: Seq<BuildOutput>) -> Seq<char>
    decreases outputs.len(),
{
    if outputs.len() == 0 {
        Seq::empty()
    } else {
        build_logs(outputs.drop_last()) + match outputs.last() {
            BuildOutput::Info { stream: Some(text) } => text@,
            BuildOutput::Info { stream: None } => Seq::empty(),
            BuildOutput::Failure { message } => message@,
        }
    }
}

/// Whether a build went through: none of its messages is a failure.
pub open spec fn build_succeeded(outputs: Seq<BuildOutput>) -> bool {
    forall|i: int| 0 <= i < outputs.len() ==> #[trigger] outputs[i] is Info
}

/// How the build of an image went.
#[derive(Debug)]
pub struct BuildReport {
    /// Whether the image was built.
    pub success: bool,
    /// Everything the builder printed.
    pub logs: String,
}

/// Sums up the messages of one build.
pub fn report_build(outputs: &Vec<BuildOutput>) -> (report: BuildReport)
    ensures
        report.success == build_succeeded(outputs@),
        report.logs@ == build_logs(outputs@),
{
    let mut success: bool = true;
    let mut logs = String::new();
    let mut i: usize = 0;
    assert(outputs@.take(0) =~= Seq::<BuildOutput>::empty());
    while i < outputs.len()
        invariant
            i <= outputs.len(),
            success == build_succeeded(outputs@.take(i as int)),
            logs@ == build_logs(outputs@.take(i as int)),
        decreases outputs.len() - i,
    {
        let ghost before = outputs@.take(i as int);
        let ghost longer = outputs@.take(i + 1);
        assert(longer.drop_last() =~= before);
        assert(longer.last() == outputs@[i as int]);
        match &outputs[i] {
            BuildOutput::Info { stream: Some(text) } => {
                logs.append(text.as_str());
            },
            BuildOutput::Info { stream: None } => {
                assert(logs@ + Seq::<char>::empty() =~= logs@);
            },
            BuildOutput::Failure { message } => {
                logs.append(message.as_str());
                success = false;
            },
        }
        proof {
            if build_succeeded(longer) {
                assert forall|k: int| 0 <= k < before.len() implies #[trigger] before[k] is Info by {
                    assert(longer[k] is Info);
                }
            }
            if build_succeeded(before) && outputs@[i as int] is Info {
                assert forall|k: int| 0 <= k < longer.len() implies #[trigger] longer[k] is Info by {
                    if k < i {
                        assert(before[k] is Info);
                    }
                }
            }
            if !(outputs@[i as int] is Info) {
                assert(!(longer[i as int] is Info));
            }
        }
        i += 1;
    }
    assert(outputs@.take(outputs.len() as int) =~= outputs@);
    BuildReport { success, logs }
}

/// The runner that a build has made, where it went through.
///
/// The runner is identified by the name that its metadata gives, and its
/// image is the one tagged [`image_tag`] of that name.
pub fn built_runner(metadata: RunnerMetadata, success: bool) -> (runner: Option<Runner>)
    ensures
        runner is Some <==> success,
        runner matches Some(r) ==> {
            &&& r.identifier@ == metadata.name@
            &&& r.docker_image_tag@ == image_tag_text(metadata.name@)
            &&& r.metadata.name@ == metadata.name@
            &&& r.metadata.dockerfile@ == metadata.dockerfile@
        },
{
    if success {
        let identifier = Identifier::new(metadata.name.as_str());
        let docker_image_tag = image_tag(metadata.name.as_str());
        Some(Runner { identifier, metadata, docker_image_tag })
    } else {
        None
    }
}

} // verus!
