//! What can go wrong, and how it is reported.

use crate::text;
use std::io::ErrorKind;
use vstd::prelude::*;
use vstd::string::*;

verus! {

/// The kind of an I/O error, carried along as the operating system reported it.
#[verifier::external_type_specification]
#[verifier::external_body]
pub struct ExErrorKind(ErrorKind);

/// What an I/O error kind is displayed as.
pub uninterp spec fn kind_display(kind: ErrorKind) -> Seq<char>;

/// How a string is written in quotes, with escapes.
pub uninterp spec fn quoted(text: Seq<char>) -> Seq<char>;

/// The `Display` text of a `std::io::ErrorKind`, as `format!` writes it. The text depends
/// on the kind alone; what it reads for each kind is not stated.
#[verifier::external_body]
fn kind_text(kind: &ErrorKind) -> (r: String)
    ensures
        r@ == kind_display(*kind),
{
    format!("{kind}")
}

/// The `Debug` text of a `str`, as `format!` writes it: the characters in double quotes,
/// with escapes for those that need one. The text depends on the string alone; which
/// escapes there are is not stated.
#[verifier::external_body]
fn quoted_text(text: &str) -> (r: String)
    ensures
        r@ == quoted(text@),
{
    format!("{text:?}")
}

/// Why a disruptor could not be built.
#[derive(Debug, PartialEq, Eq)]
pub enum BuildError {
    MissingCapacity,
    InvalidCapacity { capacity: usize },
    InvalidMaxBatchSize,
    EmptyDag,
    InvalidConsumerName { consumer: String },
    DuplicateName(String),
    UnknownDependency { consumer: String, dep: String },
    Cycle,
    /// A mutable consumer has a stage it is not ordered against, so both
    /// could touch the same slot concurrently.
    ConcurrentMutConsumer { consumer: String, concurrent: String },
    SpawnFailed { consumer: String, kind: ErrorKind },
}

impl BuildError {
    /// The message of the error.
    pub open spec fn message(self) -> Seq<char> {
        match self {
            BuildError::MissingCapacity => "capacity must be set before build()"@,
            BuildError::InvalidCapacity {
                capacity,
            } => "capacity must be a power of two, at least 2, and fit in i64; got "@
                + text::decimal(capacity as nat),
            BuildError::InvalidMaxBatchSize => "max batch size must be at least 1"@,
            BuildError::EmptyDag => "no consumers were registered"@,
            BuildError::InvalidConsumerName { consumer } => "invalid consumer name "@ + quoted(
                consumer@,
            ) + ": names may not contain NUL bytes"@,
            BuildError::DuplicateName(n) => "duplicate consumer name: "@ + n@,
            BuildError::UnknownDependency { consumer, dep } => "consumer '"@ + consumer@
                + "' depends on unknown '"@ + dep@ + "'"@,
            BuildError::Cycle => "consumer dependency graph contains a cycle"@,
            BuildError::ConcurrentMutConsumer { consumer, concurrent } => "mutable consumer '"@
                + consumer@ + "' may run concurrently with '"@ + concurrent@
                + "'; a mutable stage must be an ancestor or descendant of every other stage"@,
            BuildError::SpawnFailed { consumer, kind } => "failed to spawn consumer '"@ + consumer@
                + "' thread: "@ + kind_display(kind),
        }
    }

    /// Writes the message of the error.
    pub fn to_string(&self) -> (r: String)
        ensures
            r@ == self.message(),
    {
        let mut out: String = String::new();
        match self {
            BuildError::MissingCapacity => {
                out.append("capacity must be set before build()");
            },
            BuildError::InvalidCapacity { capacity } => {
                out.append("capacity must be a power of two, at least 2, and fit in i64; got ");
                out.append(text::decimal_text(*capacity).as_str());
            },
            BuildError::InvalidMaxBatchSize => {
                out.append("max batch size must be at least 1");
            },
            BuildError::EmptyDag => {
                out.append("no consumers were registered");
            },
            BuildError::InvalidConsumerName { consumer } => {
                out.append("invalid consumer name ");
                out.append(quoted_text(consumer.as_str()).as_str());
                out.append(": names may not contain NUL bytes");
            },
            BuildError::DuplicateName(n) => {
                out.append("duplicate consumer name: ");
                out.append(n.as_str());
            },
            BuildError::UnknownDependency { consumer, dep } => {
                out.append("consumer '");
                out.append(consumer.as_str());
                out.append("' depends on unknown '");
                out.append(dep.as_str());
                out.append("'");
            },
            BuildError::Cycle => {
                out.append("consumer dependency graph contains a cycle");
            },
            BuildError::ConcurrentMutConsumer { consumer, concurrent } => {
                out.append("mutable consumer '");
                out.append(consumer.as_str());
                out.append("' may run concurrently with '");
                out.append(concurrent.as_str());
                out.append(
                    "'; a mutable stage must be an ancestor or descendant of every other stage",
                );
            },
            BuildError::SpawnFailed { consumer, kind } => {
                out.append("failed to spawn consumer '");
                out.append(consumer.as_str());
                out.append("' thread: ");
                out.append(kind_text(kind).as_str());
            },
        }
        assert(out@ =~= self.message());
        out
    }
}

/// Error returned by [`Disruptor::shutdown`](crate::Disruptor::shutdown) when consumers
/// panicked.
#[derive(Debug, PartialEq, Eq)]
pub struct ShutdownError {
    panicked_consumers: Vec<String>,
}

impl View for ShutdownError {
    type V = Seq<Seq<char>>;

    closed spec fn view(&self) -> Seq<Seq<char>> {
        text::texts(self.panicked_consumers@)
    }
}

impl ShutdownError {
    pub fn new(panicked_consumers: Vec<String>) -> (r: ShutdownError)
        ensures
            r@ == text::texts(panicked_consumers@),
    {
        ShutdownError { panicked_consumers }
    }

    /// Names of all consumers that panicked.
    pub fn panicked_consumers(&self) -> (r: &[String])
        ensures
            text::texts(r@) == self@,
    {
        self.panicked_consumers.as_slice()
    }

    /// Writes the message of the error.
    pub fn to_string(&self) -> (r: String)
        ensures
            r@ == "consumer threads panicked: "@ + text::joined(self@, ", "@),
    {
        let mut out: String = String::new();
        out.append("consumer threads panicked: ");
        out.append(text::join(self.panicked_consumers.as_slice(), ", ").as_str());
        assert(out@ =~= "consumer threads panicked: "@ + text::joined(self@, ", "@));
        out
    }
}

/// Why an event was not published.
#[derive(Debug, Clone, Copy, PartialEq, Eq)]
pub enum PublishError {
    /// The disruptor has been alerted by shutdown or a consumer failure.
    Shutdown,
}

impl PublishError {
    /// Writes the message of the error.
    pub fn to_string(&self) -> (r: String)
        ensures
            r@ == "disruptor is shut down"@,
    {
        match self {
            PublishError::Shutdown => "disruptor is shut down".to_owned(),
        }
    }
}

/// A message names whoever is to blame in full.
pub proof fn law_messages_name_who_is_to_blame(error: BuildError)
    ensures
        match error {
            BuildError::MissingCapacity => error.message()
                == "capacity must be set before build()"@,
            BuildError::InvalidCapacity { capacity } => error.message()
                == "capacity must be a power of two, at least 2, and fit in i64; got "@
                + text::decimal(capacity as nat),
            BuildError::InvalidMaxBatchSize => error.message()
                == "max batch size must be at least 1"@,
            BuildError::EmptyDag => error.message() == "no consumers were registered"@,
            BuildError::InvalidConsumerName { consumer } => error.message()
                == "invalid consumer name "@ + quoted(consumer@)
                + ": names may not contain NUL bytes"@,
            BuildError::DuplicateName(name) => error.message() == "duplicate consumer name: "@
                + name@,
            BuildError::UnknownDependency { consumer, dep } => error.message() == "consumer '"@
                + consumer@ + "' depends on unknown '"@ + dep@ + "'"@,
            BuildError::Cycle => error.message() == "consumer dependency graph contains a cycle"@,
            BuildError::ConcurrentMutConsumer { consumer, concurrent } => error.message()
                == "mutable consumer '"@ + consumer@ + "' may run concurrently with '"@
                + concurrent@
                + "'; a mutable stage must be an ancestor or descendant of every other stage"@,
            BuildError::SpawnFailed { consumer, kind } => error.message()
                == "failed to spawn consumer '"@ + consumer@ + "' thread: "@ + kind_display(kind),
        },
{
}

} // verus!
