//! Core of a small Debian-style package manager that installs packages under
//! an explicit target root: control-stanza parsing, Debian version ordering,
//! dependency expressions, catalog maintenance and install transactions.
//!
//! All filesystem and network side effects are expressed as shell command
//! lines and file reads/writes that an unverified driver performs; the logic
//! here only decides what to run, what to write, and how to interpret what
//! came back.

use vstd::prelude::*;

pub mod backend;
pub mod control;
pub mod depends;
pub mod frontend;
pub mod system;
pub mod text;
pub mod version;

verus! {

/// The error taxonomy of the library. Payloads carry enough context (a path,
/// a URL, an archive name) to locate the cause.
#[derive(Debug)]
pub enum PkgError {
    /// A malformed version string.
    InvalidVersion,
    /// Unreadable control text.
    ParseError,
    /// The catalog's index manifest is missing: run an update first.
    CatalogNotFound,
    /// A manifest-listed package-list file is missing or unreadable.
    CatalogCorrupt(Vec<u8>),
    /// A download or decompress failure; carries the failing URL or path.
    TransportError(Vec<u8>),
    /// An archive unpack failure; carries the archive path.
    ExtractionError(Vec<u8>),
    /// A generic filesystem operation failure; carries the path.
    IOError(Vec<u8>),
    /// A repository source whose type is not understood (skipped, not failed).
    UnsupportedSourceType(Vec<u8>),
}

/// The mathematical value of a `PkgError`.
pub ghost enum SpecPkgError {
    InvalidVersion,
    ParseError,
    CatalogNotFound,
    CatalogCorrupt(Seq<u8>),
    TransportError(Seq<u8>),
    ExtractionError(Seq<u8>),
    IOError(Seq<u8>),
    UnsupportedSourceType(Seq<u8>),
}

impl View for PkgError {
    type V = SpecPkgError;

    open spec fn view(&self) -> SpecPkgError {
        match self {
            PkgError::InvalidVersion => SpecPkgError::InvalidVersion,
            PkgError::ParseError => SpecPkgError::ParseError,
            PkgError::CatalogNotFound => SpecPkgError::CatalogNotFound,
            PkgError::CatalogCorrupt(p) => SpecPkgError::CatalogCorrupt(p@),
            PkgError::TransportError(p) => SpecPkgError::TransportError(p@),
            PkgError::ExtractionError(p) => SpecPkgError::ExtractionError(p@),
            PkgError::IOError(p) => SpecPkgError::IOError(p@),
            PkgError::UnsupportedSourceType(p) => SpecPkgError::UnsupportedSourceType(p@),
        }
    }
}

/// What a driver is asked to do next: run a shell command line, read a
/// file, or write a file with the given contents.
#[derive(Debug)]
pub enum Action {
    Run(Vec<u8>),
    ReadFile(Vec<u8>),
    WriteFile(Vec<u8>, Vec<u8>),
}

/// The mathematical value of an action.
pub ghost enum SpecAction {
    Run(Seq<u8>),
    ReadFile(Seq<u8>),
    WriteFile(Seq<u8>, Seq<u8>),
}

impl View for Action {
    type V = SpecAction;

    open spec fn view(&self) -> SpecAction {
        match self {
            Action::Run(c) => SpecAction::Run(c@),
            Action::ReadFile(p) => SpecAction::ReadFile(p@),
            Action::WriteFile(p, c) => SpecAction::WriteFile(p@, c@),
        }
    }
}

/// The value of an optional action.
pub open spec fn view_action(r: Option<Action>) -> Option<SpecAction> {
    match r {
        Some(a) => Some(a@),
        None => None,
    }
}

} // verus!
