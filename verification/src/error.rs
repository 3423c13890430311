//! The crate's error type.
use vstd::prelude::*;

verus! {

/// Everything that can go wrong while reconciling a file.
#[derive(Debug)]
pub enum Error {
    /// A subcommand that this version does not carry out.
    NotYetImplemented(&'static str),
    /// An input/output failure, by its message.
    Io(String),
    /// Text that is not a JSON Pointer (RFC 6901).
    InvalidJsonPointer(String),
    /// A write whose path runs through a value that is not an object.
    PointerThroughNonObject(String),
    DeclaredParse { source_path: String, reason: String },
    LiveParse { source_path: String, reason: String },
    LiveWrite { destination_path: String, reason: String },
    SnapshotParse { source_path: String, reason: String },
    SnapshotWrite { destination_path: String, reason: String },
    DriftParse { source_path: String, reason: String },
    DriftWrite { destination_path: String, reason: String },
    Lock { path: String, reason: String },
    ActorSpawn(String),
}

/// `what` followed by a path and a reason.
pub open spec fn located(what: Seq<char>, path: Seq<char>, reason: Seq<char>) -> Seq<char> {
    what + path + ": "@ + reason
}

/// How an error reads.
pub open spec fn error_message(e: Error) -> Seq<char> {
    match e {
        Error::NotYetImplemented(name) => name@ + " is not yet implemented (v0.1 is scaffold-only)"@,
        Error::Io(message) => "io: "@ + message@,
        Error::InvalidJsonPointer(text) => "invalid JSON pointer: "@ + text@,
        Error::PointerThroughNonObject(pointer) => "cannot write at "@ + pointer@
            + ": the path runs through a value that is not an object"@,
        Error::DeclaredParse { source_path, reason } => located(
            "parse declared overlay "@,
            source_path@,
            reason@,
        ),
        Error::LiveParse { source_path, reason } => located("parse live file "@, source_path@, reason@),
        Error::LiveWrite { destination_path, reason } => located(
            "write live file "@,
            destination_path@,
            reason@,
        ),
        Error::SnapshotParse { source_path, reason } => located(
            "parse snapshot "@,
            source_path@,
            reason@,
        ),
        Error::SnapshotWrite { destination_path, reason } => located(
            "write snapshot "@,
            destination_path@,
            reason@,
        ),
        Error::DriftParse { source_path, reason } => located(
            "parse drift journal "@,
            source_path@,
            reason@,
        ),
        Error::DriftWrite { destination_path, reason } => located(
            "write drift journal "@,
            destination_path@,
            reason@,
        ),
        Error::Lock { path, reason } => located("lock "@, path@, reason@),
        Error::ActorSpawn(message) => "spawn actor: "@ + message@,
    }
}

fn locate(what: &str, path: &String, reason: &String) -> (r: String)
    ensures
        r@ == located(what@, path@, reason@),
{
    what.to_owned().concat(path.as_str()).concat(": ").concat(reason.as_str())
}

impl Error {
    /// The error's message.
    pub fn message(&self) -> (r: String)
        ensures
            r@ == error_message(*self),
    {
        match self {
            Error::NotYetImplemented(name) => (*name).to_owned().concat(
                " is not yet implemented (v0.1 is scaffold-only)",
            ),
            Error::Io(message) => "io: ".to_owned().concat(message.as_str()),
            Error::InvalidJsonPointer(text) => "invalid JSON pointer: ".to_owned().concat(text.as_str()),
            Error::PointerThroughNonObject(pointer) => "cannot write at ".to_owned().concat(
                pointer.as_str(),
            ).concat(": the path runs through a value that is not an object"),
            Error::DeclaredParse { source_path, reason } => locate(
                "parse declared overlay ",
                source_path,
                reason,
            ),
            Error::LiveParse { source_path, reason } => locate("parse live file ", source_path, reason),
            Error::LiveWrite { destination_path, reason } => locate(
                "write live file ",
                destination_path,
                reason,
            ),
            Error::SnapshotParse { source_path, reason } => locate(
                "parse snapshot ",
                source_path,
                reason,
            ),
            Error::SnapshotWrite { destination_path, reason } => locate(
                "write snapshot ",
                destination_path,
                reason,
            ),
            Error::DriftParse { source_path, reason } => locate(
                "parse drift journal ",
                source_path,
                reason,
            ),
            Error::DriftWrite { destination_path, reason } => locate(
                "write drift journal ",
                destination_path,
                reason,
            ),
            Error::Lock { path, reason } => locate("lock ", path, reason),
            Error::ActorSpawn(message) => "spawn actor: ".to_owned().concat(message.as_str()),
        }
    }
}

} // verus!
