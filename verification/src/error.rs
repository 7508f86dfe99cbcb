//! The ways in which resolving a workspace can fail.

use vstd::prelude::*;

verus! {

/// A failure of one of the resolution steps. Every failure is final for the
/// operation that met it.
#[derive(Debug, PartialEq, Eq)]
pub enum Error {
    /// The manifest does not correspond to a package of its own resolution.
    /// Holds the manifest path.
    RootNotFound(String),
    /// The dependency-tree query could not be started, or its output is not
    /// text. Holds the directory in which the query was to run.
    CargoTree(String),
    /// A manifest path has no parent directory. Holds that path.
    ParentNotFound(String),
    /// The metadata query failed. Holds the cause as the query reported it.
    Metadata(String),
    /// The deployable units depend on each other in a cycle.
    CycleDetected,
}

/// The mathematical value of an [`Error`].
pub enum ErrorView {
    RootNotFound(Seq<char>),
    CargoTree(Seq<char>),
    ParentNotFound(Seq<char>),
    Metadata(Seq<char>),
    CycleDetected,
}

impl View for Error {
    type V = ErrorView;

    open spec fn view(&self) -> ErrorView {
        match self {
            Error::RootNotFound(path) => ErrorView::RootNotFound(path@),
            Error::CargoTree(dir) => ErrorView::CargoTree(dir@),
            Error::ParentNotFound(path) => ErrorView::ParentNotFound(path@),
            Error::Metadata(cause) => ErrorView::Metadata(cause@),
            Error::CycleDetected => ErrorView::CycleDetected,
        }
    }
}

} // verus!
