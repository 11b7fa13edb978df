//! The errors of the library.

use crate::object::ObjectHash;
use crate::text::{concat, concat3};
use vstd::prelude::*;

verus! {

/// The kinds of I/O failure that are told apart.
#[derive(Clone, Copy, Debug, PartialEq, Eq, Structural)]
pub enum IoKind {
    NotFound,
    NotADirectory,
    IsADirectory,
    Other,
}

/// What can go wrong.
#[derive(Debug)]
pub enum Error {
    InvalidHash,
    ObjectNotFound(String),
    AmbiguousHash(String),
    CasFailed,
    LockFailed(String),
    Conflict,
    AuthTagMismatch,
    InvalidObject(String),
    /// An I/O failure: its kind and its description.
    Io(IoKind, String),
    /// The path was readable, but did not remain stable long enough to take a
    /// self-consistent snapshot. Push treats this as a best-effort skip.
    SourceChanged(String),
    /// A JSON failure, by its description.
    Json(String),
    Other(String),
}

impl Error {
    /// Whether this is a race expected while scanning a live working tree.
    pub open spec fn live_path_race(self) -> bool {
        match self {
            Error::SourceChanged(_) => true,
            Error::Io(kind, _) => kind != IoKind::Other,
            _ => false,
        }
    }

    /// What is shown to the user.
    pub open spec fn text(self) -> Seq<char> {
        match self {
            Error::InvalidHash => "invalid hash: expected 64 hex characters"@,
            Error::ObjectNotFound(s) => "object not found: "@ + s@,
            Error::AmbiguousHash(s) => "ambiguous hash prefix '"@ + s@
                + "' — matches multiple objects"@,
            Error::CasFailed =>
                "remote has been updated since last sync\nRun 'omemfs pull' and retry 'omemfs push'."@,
            Error::LockFailed(s) => s@,
            Error::Conflict => "pull would overwrite local uncommitted changes"@,
            Error::AuthTagMismatch =>
                "GCM authentication tag mismatch — object may be corrupted or tampered"@,
            Error::InvalidObject(s) => "invalid object: "@ + s@,
            Error::Io(_, s) => "I/O error: "@ + s@,
            Error::SourceChanged(s) => "source file remained active while being read: "@ + s@,
            Error::Json(s) => "JSON error: "@ + s@,
            Error::Other(s) => s@,
        }
    }

    /// Whether this is an error of no particular kind with this text.
    pub open spec fn is_other(self, text: Seq<char>) -> bool {
        self matches Error::Other(s) && s@ == text
    }

    /// Only a source that changed while it was read, and a path that went away or is now
    /// something else, are races; every other failure is fatal.
    pub proof fn law_only_moving_paths_are_races(self)
        ensures
            self.live_path_race() <==> match self {
                Error::SourceChanged(_) => true,
                Error::Io(kind, _) => kind == IoKind::NotFound || kind == IoKind::NotADirectory
                    || kind == IoKind::IsADirectory,
                _ => false,
            },
    {
    }

    /// Races expected while scanning a live working tree. They are distinct
    /// from permission, device, and storage failures, which remain fatal.
    pub fn is_live_path_race(&self) -> (r: bool)
        ensures
            r == self.live_path_race(),
    {
        match self {
            Error::SourceChanged(_) => true,
            Error::Io(kind, _) => match kind {
                IoKind::NotFound | IoKind::NotADirectory | IoKind::IsADirectory => true,
                IoKind::Other => false,
            },
            _ => false,
        }
    }

    /// What is shown to the user.
    pub fn message(&self) -> (r: String)
        ensures
            r@ == self.text(),
    {
        match self {
            Error::InvalidHash => "invalid hash: expected 64 hex characters".to_owned(),
            Error::ObjectNotFound(s) => concat("object not found: ", s.as_str()),
            Error::AmbiguousHash(s) => concat3(
                "ambiguous hash prefix '",
                s.as_str(),
                "' — matches multiple objects",
            ),
            Error::CasFailed =>
                "remote has been updated since last sync\nRun 'omemfs pull' and retry 'omemfs push'.".to_owned(),
            Error::LockFailed(s) => s.clone(),
            Error::Conflict => "pull would overwrite local uncommitted changes".to_owned(),
            Error::AuthTagMismatch =>
                "GCM authentication tag mismatch — object may be corrupted or tampered".to_owned(),
            Error::InvalidObject(s) => concat("invalid object: ", s.as_str()),
            Error::Io(_, s) => concat("I/O error: ", s.as_str()),
            Error::SourceChanged(s) => concat("source file remained active while being read: ", s.as_str()),
            Error::Json(s) => concat("JSON error: ", s.as_str()),
            Error::Other(s) => s.clone(),
        }
    }
}

/// The error of an operation that found an object missing.
pub fn not_found(h: ObjectHash) -> (r: Error)
    ensures
        r matches Error::ObjectNotFound(s) && s@ == h.hex(),
{
    Error::ObjectNotFound(h.to_hex())
}

} // verus!
