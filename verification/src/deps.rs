//! The dependency closure of a root package.
//!
//! The package manager answers two queries for a manifest: the metadata query
//! gives the resolved package records, the tree query the raw listing of the
//! dependency tree. A listing line and a record belong together when they
//! give the same key.

use crate::error::{Error, ErrorView};
use crate::package::{package_views, Package, PackageView};
use crate::paths::{is_same_path, parent, path_parent, same_path};
use crate::tree::{
    correlation_key, key_of, key_of_line, line_key, lines, same_bytes, split_line,
};
use vstd::prelude::*;
use vstd::utf8::valid_utf8;

verus! {

/// What the metadata query reports for a manifest.
#[derive(Debug, PartialEq, Eq)]
pub struct ResolvedGraph {
    /// Every package that the resolution knows.
    pub packages: Vec<Package>,
    /// The package that the manifest itself describes, where the resolution
    /// has one.
    pub root: Option<Package>,
}

/// The mathematical value of a [`ResolvedGraph`].
pub struct ResolvedGraphView {
    pub packages: Seq<PackageView>,
    pub root: Option<PackageView>,
}

impl View for ResolvedGraph {
    type V = ResolvedGraphView;

    open spec fn view(&self) -> ResolvedGraphView {
        ResolvedGraphView {
            packages: package_views(self.packages@),
            root: match self.root {
                Some(root) => Some(root@),
                None => None,
            },
        }
    }
}

/// The package manager's answers for one manifest.
#[derive(Debug, PartialEq, Eq)]
pub struct Resolution {
    /// The answer of the metadata query, or the cause of its failure.
    pub graph: Result<ResolvedGraph, String>,
    /// The output of the tree query, run in the manifest's directory. There is
    /// none where the query could not be started.
    pub tree: Option<Vec<u8>>,
}

/// The mathematical value of a [`Resolution`].
pub struct ResolutionView {
    pub graph: Result<ResolvedGraphView, Seq<char>>,
    pub tree: Option<Seq<u8>>,
}

impl View for Resolution {
    type V = ResolutionView;

    open spec fn view(&self) -> ResolutionView {
        ResolutionView {
            graph: match self.graph {
                Ok(graph) => Ok(graph@),
                Err(cause) => Err(cause@),
            },
            tree: match self.tree {
                Some(listing) => Some(listing@),
                None => None,
            },
        }
    }
}

/// The mathematical value of what an operation on packages returns.
pub open spec fn outcome_view(outcome: Result<Vec<Package>, Error>) -> Result<
    Seq<PackageView>,
    ErrorView,
> {
    match outcome {
        Ok(packages) => Ok(package_views(packages@)),
        Err(error) => Err(error@),
    }
}

/// The index of the record that `key` resolves to: the last of `packages`
/// whose name and version give this key.
pub open spec fn lookup(packages: Seq<PackageView>, key: Seq<u8>) -> Option<int>
    decreases packages.len(),
{
    if packages.len() == 0 {
        None
    } else if key_of(packages.last().name, packages.last().version) == key {
        Some(packages.len() - 1)
    } else {
        lookup(packages.drop_last(), key)
    }
}

/// The record that a line of the listing resolves to, if it resolves.
pub open spec fn resolve_line(packages: Seq<PackageView>, line: Seq<u8>) -> Option<PackageView> {
    match key_of_line(line) {
        Some(key) => match lookup(packages, key) {
            Some(i) => Some(packages[i]),
            None => None,
        },
        None => None,
    }
}

/// Whether one of `packages` has its manifest at the path `path`.
pub open spec fn holds_path(packages: Seq<PackageView>, path: Seq<char>) -> bool {
    exists|i: int|
        0 <= i < packages.len() && same_path((#[trigger] packages[i]).manifest_path, path)
}

/// The records that the lines `listing` resolve to, in the order of their
/// first line, each once, without the root: a line that does not resolve,
/// that resolves to the root, or to a package that an earlier line resolved
/// to, adds nothing.
pub open spec fn gather(
    packages: Seq<PackageView>,
    root: PackageView,
    listing: Seq<Seq<u8>>,
) -> Seq<PackageView>
    decreases listing.len(),
{
    if listing.len() == 0 {
        Seq::empty()
    } else {
        let before = gather(packages, root, listing.drop_last());
        match resolve_line(packages, listing.last()) {
            Some(package) => if same_path(package.manifest_path, root.manifest_path)
                || holds_path(before, package.manifest_path) {
                before
            } else {
                before.push(package)
            },
            None => before,
        }
    }
}

/// The dependency closure of `root`: what the listing's lines resolve to,
/// then the root.
pub open spec fn closure(
    packages: Seq<PackageView>,
    root: PackageView,
    listing: Seq<u8>,
) -> Seq<PackageView> {
    gather(packages, root, lines(listing)).push(root)
}

/// What enumerating the dependencies of the manifest at `manifest_path`
/// gives, from the package manager's answers for it.
pub open spec fn deps_of(manifest_path: Seq<char>, resolution: ResolutionView) -> Result<
    Seq<PackageView>,
    ErrorView,
> {
    match resolution.graph {
        Err(cause) => Err(ErrorView::Metadata(cause)),
        Ok(graph) => match graph.root {
            None => Err(ErrorView::RootNotFound(manifest_path)),
            Some(root) => match path_parent(manifest_path) {
                None => Err(ErrorView::ParentNotFound(manifest_path)),
                Some(dir) => match resolution.tree {
                    Some(listing) => if valid_utf8(listing) {
                        Ok(closure(graph.packages, root, listing))
                    } else {
                        Err(ErrorView::CargoTree(dir))
                    },
                    None => Err(ErrorView::CargoTree(dir)),
                },
            },
        },
    }
}

/// Whether `deps` holds the package `root` exactly once, at its end: the last
/// of `deps` is `root`, and no other has its manifest at the path of the
/// manifest of `root`.
pub open spec fn holds_once(deps: Seq<PackageView>, root: PackageView) -> bool {
    &&& deps.len() > 0
    &&& deps.last() == root
    &&& forall|i: int|
        0 <= i < deps.len() - 1 ==> !same_path(
            (#[trigger] deps[i]).manifest_path,
            root.manifest_path,
        )
}

/// Whether no package of `deps` has its manifest at the path of the manifest
/// of a later one.
pub open spec fn distinct_paths(deps: Seq<PackageView>) -> bool {
    forall|i: int, j: int|
        0 <= i < j < deps.len() ==> !same_path(
            (#[trigger] deps[i]).manifest_path,
            (#[trigger] deps[j]).manifest_path,
        )
}

/// Whether one of the lines `listing` resolves to `package`.
pub open spec fn listed(
    packages: Seq<PackageView>,
    listing: Seq<Seq<u8>>,
    package: PackageView,
) -> bool {
    exists|l: int|
        0 <= l < listing.len() && resolve_line(packages, #[trigger] listing[l]) == Some(package)
}

/// What the lines of a listing resolve to holds no package twice and not the
/// root. Each package in it is one that a line resolves to. Each package that
/// a line resolves to is in it, unless its manifest is at the path of the
/// manifest of the root or of a package in it.
pub proof fn lemma_gather(packages: Seq<PackageView>, root: PackageView, listing: Seq<Seq<u8>>)
    ensures
        distinct_paths(gather(packages, root, listing)),
        forall|i: int|
            0 <= i < gather(packages, root, listing).len() ==> {
                let package = #[trigger] gather(packages, root, listing)[i];
                !same_path(package.manifest_path, root.manifest_path) && listed(
                    packages,
                    listing,
                    package,
                )
            },
        forall|package: PackageView|
            listed(packages, listing, package) ==> {
                ||| same_path(package.manifest_path, root.manifest_path)
                ||| holds_path(gather(packages, root, listing), package.manifest_path)
                ||| gather(packages, root, listing).contains(package)
            },
    decreases listing.len(),
{
    if listing.len() > 0 {
        let front = listing.drop_last();
        let before = gather(packages, root, front);
        let all = gather(packages, root, listing);
        lemma_gather(packages, root, front);
        assert forall|i: int| 0 <= i < before.len() implies all[i] == before[i] by {}
        assert forall|i: int| 0 <= i < all.len() implies {
            let package = #[trigger] all[i];
            !same_path(package.manifest_path, root.manifest_path) && listed(
                packages,
                listing,
                package,
            )
        } by {}
        assert forall|package: PackageView| listed(packages, listing, package) implies {
            ||| same_path(package.manifest_path, root.manifest_path)
            ||| holds_path(all, package.manifest_path)
            ||| all.contains(package)
        } by {
            let l = choose|l: int|
                0 <= l < listing.len() && resolve_line(packages, #[trigger] listing[l]) == Some(
                    package,
                );
            if l < front.len() {
                assert(front[l] == listing[l]);
                assert(listed(packages, front, package));
            } else if !same_path(package.manifest_path, root.manifest_path) && !holds_path(
                before,
                package.manifest_path,
            ) {
                assert(all[before.len() as int] == package);
            }
        }
    }
}

/// A dependency closure holds its root exactly once, whatever the listing
/// says of the root, and holds no package twice.
pub proof fn lemma_closure_holds_root_once(
    packages: Seq<PackageView>,
    root: PackageView,
    listing: Seq<u8>,
)
    ensures
        holds_once(closure(packages, root, listing), root),
        distinct_paths(closure(packages, root, listing)),
{
    lemma_gather(packages, root, lines(listing));
}

/// Calls `core::str::from_utf8` on `bytes` and tells whether it succeeded.
/// It succeeds exactly on well-formed UTF-8.
#[verifier::external_body]
pub(crate) fn is_text(bytes: &[u8]) -> (text: bool)
    ensures
        text == valid_utf8(bytes@),
{
    core::str::from_utf8(bytes).is_ok()
}

/// The keys of `packages`, record by record.
fn keys_of(packages: &Vec<Package>) -> (keys: Vec<Vec<u8>>)
    ensures
        keys@.len() == packages@.len(),
        forall|i: int|
            0 <= i < keys@.len() ==> (#[trigger] keys@[i])@ == key_of(
                packages@[i].name@,
                packages@[i].version@,
            ),
{
    let mut keys: Vec<Vec<u8>> = Vec::new();
    let mut i: usize = 0;
    while i < packages.len()
        invariant
            i <= packages@.len(),
            keys@.len() == i,
            forall|j: int|
                0 <= j < i ==> (#[trigger] keys@[j])@ == key_of(
                    packages@[j].name@,
                    packages@[j].version@,
                ),
        decreases packages@.len() - i,
    {
        keys.push(correlation_key(packages[i].name.as_str(), packages[i].version.as_str()));
        i += 1;
    }
    keys
}

/// Finds the record that `key` resolves to among the records with the keys
/// `keys`.
fn find_key(Ghost(packages): Ghost<Seq<PackageView>>, keys: &Vec<Vec<u8>>, key: &Vec<u8>) -> (at:
    Option<usize>)
    requires
        keys@.len() == packages.len(),
        forall|i: int|
            0 <= i < keys@.len() ==> (#[trigger] keys@[i])@ == key_of(
                packages[i].name,
                packages[i].version,
            ),
    ensures
        match at {
            Some(i) => lookup(packages, key@) == Some(i as int) && i < packages.len(),
            None => lookup(packages, key@) is None,
        },
{
    let mut i: usize = keys.len();
    proof {
        assert(packages.take(i as int) =~= packages);
    }
    while i > 0
        invariant
            i <= keys@.len(),
            keys@.len() == packages.len(),
            forall|j: int|
                0 <= j < keys@.len() ==> (#[trigger] keys@[j])@ == key_of(
                    packages[j].name,
                    packages[j].version,
                ),
            lookup(packages, key@) == lookup(packages.take(i as int), key@),
        decreases i,
    {
        proof {
            assert(packages.take(i as int).drop_last() =~= packages.take(i - 1));
        }
        i -= 1;
        if same_bytes(keys[i].as_slice(), key.as_slice()) {
            return Some(i);
        }
    }
    None
}

/// Whether one of `packages` has its manifest at the path `path`.
fn has_path(packages: &Vec<Package>, path: &String) -> (held: bool)
    ensures
        held == holds_path(package_views(packages@), path@),
{
    let mut i: usize = 0;
    while i < packages.len()
        invariant
            i <= packages@.len(),
            forall|j: int|
                0 <= j < i ==> !same_path(
                    (#[trigger] package_views(packages@)[j]).manifest_path,
                    path@,
                ),
        decreases packages@.len() - i,
    {
        if is_same_path(packages[i].manifest_path.as_str(), path.as_str()) {
            assert(same_path(package_views(packages@)[i as int].manifest_path, path@));
            return true;
        }
        i += 1;
    }
    false
}

/// Enumerates the dependency closure of `root`: resolves each line of
/// `listing` against `packages`, keeps each resolved package once, and puts
/// the root at the end.
pub fn enumerate(packages: &Vec<Package>, root: &Package, listing: &[u8]) -> (deps: Vec<Package>)
    ensures
        package_views(deps@) == closure(package_views(packages@), root@, listing@),
{
    let keys = keys_of(packages);
    let ghost records = package_views(packages@);
    let mut deps: Vec<Package> = Vec::new();
    let mut rest = listing;
    let ghost mut done: Seq<Seq<u8>> = Seq::empty();
    while rest.len() > 0
        invariant
            records == package_views(packages@),
            keys@.len() == records.len(),
            forall|i: int|
                0 <= i < keys@.len() ==> (#[trigger] keys@[i])@ == key_of(
                    records[i].name,
                    records[i].version,
                ),
            lines(listing@) == done + lines(rest@),
            package_views(deps@) == gather(records, root@, done),
        decreases rest@.len(),
    {
        let (line, next) = split_line(rest);
        match line_key(line) {
            Some(key) => {
                match find_key(Ghost(records), &keys, &key) {
                    Some(i) => {
                        let package = &packages[i];
                        if !is_same_path(
                            package.manifest_path.as_str(),
                            root.manifest_path.as_str(),
                        ) && !has_path(&deps, &package.manifest_path) {
                            deps.push(package.clone());
                        }
                    },
                    None => {},
                }
            },
            None => {},
        }
        proof {
            assert(done.push(line@).drop_last() =~= done);
            done = done.push(line@);
        }
        rest = next;
    }
    deps.push(root.clone());
    deps
}

/// Enumerates the dependency closure of the package whose manifest is at
/// `manifest_path`, the root included, from the package manager's answers
/// for that manifest.
///
/// Fails with `Metadata` where the metadata query failed, with `RootNotFound`
/// where the resolution names no root, with `ParentNotFound` where the
/// manifest path has no parent directory, and with `CargoTree` where the tree
/// query gave no output or output that is not text.
pub fn get_deps(manifest_path: &str, resolution: &Resolution) -> (outcome: Result<
    Vec<Package>,
    Error,
>)
    ensures
        outcome_view(outcome) == deps_of(manifest_path@, resolution@),
        outcome_view(outcome) matches Ok(deps) ==> holds_once(
            deps,
            resolution@.graph->Ok_0.root->Some_0,
        ) && distinct_paths(deps),
{
    let graph = match &resolution.graph {
        Ok(graph) => graph,
        Err(cause) => {
            return Err(Error::Metadata(cause.clone()));
        },
    };
    let root = match &graph.root {
        Some(root) => root,
        None => {
            return Err(Error::RootNotFound(manifest_path.to_owned()));
        },
    };
    let dir = match parent(manifest_path) {
        Some(dir) => dir,
        None => {
            return Err(Error::ParentNotFound(manifest_path.to_owned()));
        },
    };
    match &resolution.tree {
        Some(listing) => {
            if is_text(listing.as_slice()) {
                proof {
                    lemma_closure_holds_root_once(package_views(graph.packages@), root@, listing@);
                }
                Ok(enumerate(&graph.packages, root, listing.as_slice()))
            } else {
                Err(Error::CargoTree(dir))
            }
        },
        None => Err(Error::CargoTree(dir)),
    }
}

} // verus!
