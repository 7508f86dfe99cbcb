//! Build-order and source-location resolution for the tagged packages of a
//! workspace.
//!
//! The package manager is consulted elsewhere; this crate works on what it
//! reported: the resolved package records and the raw text of the dependency
//! tree. From those it enumerates the dependency closure of a root package,
//! selects the packages that carry a tag, derives their source and output
//! paths, and orders deployable units so that each comes after the units it
//! depends on.

pub mod deps;
pub mod error;
pub mod filter;
pub mod graph;
pub mod package;
pub mod paths;
pub mod tree;
pub mod workspace;

pub use deps::{get_deps, Resolution, ResolutionView, ResolvedGraph, ResolvedGraphView};
pub use error::{Error, ErrorView};
pub use filter::{get_contract_deps, get_loam_deps, get_riff_deps};
pub use package::{DepKind, MetaValue, MetaView, Package, PackageExt, PackageView};
pub use paths::out_dir;
pub use workspace::{get_workspace, Member, MemberView};
