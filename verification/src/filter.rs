//! The selections from a dependency closure: the packages that carry a tag,
//! with the paths derived for each, and the deployable units that a package
//! depends on.

use crate::deps::{deps_of, get_deps, Resolution, ResolutionView};
use crate::error::{Error, ErrorView};
use crate::package::{package_views, DepKind, Package, PackageExt, PackageView};
use crate::paths::{
    is_same_path, out_dir, out_dir_path, same_path, source_entry, source_entry_path,
};
use vstd::prelude::*;

verus! {

/// The test by which a package of the closure of the manifest at
/// `manifest_path` is a deployable unit that the manifest's package depends
/// on: it carries the tag of deployable units, and its manifest is not at
/// `manifest_path`.
pub open spec fn unit_dep(manifest_path: Seq<char>) -> spec_fn(PackageView) -> bool {
    |package: PackageView|
        package.has_tag(DepKind::Contract) && !same_path(package.manifest_path, manifest_path)
}

/// What the deployable-unit filter gives for the manifest at `manifest_path`:
/// the packages of its closure that pass [`unit_dep`], in the closure's
/// order.
pub open spec fn contract_deps_of(manifest_path: Seq<char>, resolution: ResolutionView) -> Result<
    Seq<PackageView>,
    ErrorView,
> {
    match deps_of(manifest_path, resolution) {
        Ok(deps) => Ok(deps.filter(unit_dep(manifest_path))),
        Err(error) => Err(error),
    }
}

/// The deployable units that the package whose manifest is at `manifest_path`
/// depends on: every package of its dependency closure that carries the tag
/// of deployable units and whose manifest is not at `manifest_path`. Fails as
/// [`get_deps`] does.
pub fn get_contract_deps(manifest_path: &str, resolution: &Resolution) -> (outcome: Result<
    Vec<Package>,
    Error,
>)
    ensures
        crate::deps::outcome_view(outcome) == contract_deps_of(manifest_path@, resolution@),
{
    let deps = match get_deps(manifest_path, resolution) {
        Ok(deps) => deps,
        Err(error) => {
            return Err(error);
        },
    };
    let ghost all = package_views(deps@);
    let ghost keep = unit_dep(manifest_path@);
    let mut units: Vec<Package> = Vec::new();
    let mut i: usize = 0;
    while i < deps.len()
        invariant
            i <= deps@.len(),
            all == package_views(deps@),
            keep == unit_dep(manifest_path@),
            package_views(units@) == all.take(i as int).filter(keep),
        decreases deps@.len() - i,
    {
        proof {
            assert(all.take(i + 1) =~= all.take(i as int).push(all[i as int]));
            all.take(i as int).lemma_filter_push(all[i as int], keep);
        }
        if deps[i].is_dep(&DepKind::Contract) && !is_same_path(
            deps[i].manifest_path.as_str(),
            manifest_path,
        ) {
            units.push(deps[i].clone());
        }
        i += 1;
    }
    proof {
        assert(all.take(i as int) =~= all);
    }
    Ok(units)
}

/// The test by which a package of the closure of the manifest at
/// `manifest_path` is selected for the tag `kind`: it carries the tag, or
/// its manifest is at `manifest_path`.
pub open spec fn selected(manifest_path: Seq<char>, kind: DepKind) -> spec_fn(PackageView) -> bool {
    |package: PackageView|
        package.has_tag(kind) || same_path(package.manifest_path, manifest_path)
}

/// The name of the synthetic build-output root of a package: its name, then
/// its version.
pub open spec fn synthetic_dir(package: PackageView) -> Seq<char> {
    package.name + package.version
}

/// Whether the paths of `package` can be derived: its manifest path has a
/// parent directory.
pub open spec fn locatable(package: PackageView) -> bool {
    source_entry_path(package.manifest_path) is Some
}

/// The paths derived for a locatable package: its source entry, and its
/// output directory under its synthetic build-output root.
pub open spec fn location(package: PackageView) -> (Seq<char>, Seq<char>) {
    (
        source_entry_path(package.manifest_path)->Some_0,
        out_dir_path(synthetic_dir(package), package.name),
    )
}

/// Whether `at` is the index of the first of `packages` that is not
/// locatable.
pub open spec fn first_stray(packages: Seq<PackageView>, at: int) -> bool {
    &&& 0 <= at < packages.len()
    &&& !locatable(packages[at])
    &&& forall|i: int| 0 <= i < at ==> locatable(#[trigger] packages[i])
}

/// `items` without the repetitions: each item once, at the place of its first
/// occurrence.
pub open spec fn distinct<A>(items: Seq<A>) -> Seq<A>
    decreases items.len(),
{
    if items.len() == 0 {
        Seq::empty()
    } else {
        let before = distinct(items.drop_last());
        if before.contains(items.last()) {
            before
        } else {
            before.push(items.last())
        }
    }
}

/// What the tag filter gives for the manifest at `manifest_path` and the tag
/// `kind`: the distinct locations of the selected packages of the closure,
/// or the failure for the first selected package that is not locatable.
pub open spec fn loam_deps_of(
    manifest_path: Seq<char>,
    kind: DepKind,
    resolution: ResolutionView,
) -> Result<Seq<(Seq<char>, Seq<char>)>, ErrorView> {
    match deps_of(manifest_path, resolution) {
        Ok(deps) => {
            let chosen = deps.filter(selected(manifest_path, kind));
            if exists|at: int| first_stray(chosen, at) {
                let at = choose|at: int| first_stray(chosen, at);
                Err(ErrorView::ParentNotFound(chosen[at].manifest_path))
            } else {
                Ok(distinct(chosen.map_values(|package: PackageView| location(package))))
            }
        },
        Err(error) => Err(error),
    }
}

/// The views of a sequence of pairs of paths, in the same order.
pub open spec fn pair_views(pairs: Seq<(String, String)>) -> Seq<(Seq<char>, Seq<char>)> {
    pairs.map_values(|pair: (String, String)| (pair.0@, pair.1@))
}

/// The mathematical value of what the tag filter returns.
pub open spec fn pairs_outcome_view(outcome: Result<Vec<(String, String)>, Error>) -> Result<
    Seq<(Seq<char>, Seq<char>)>,
    ErrorView,
> {
    match outcome {
        Ok(pairs) => Ok(pair_views(pairs@)),
        Err(error) => Err(error@),
    }
}

/// Derives the paths of `package`: its source entry and its output directory.
/// There are none where the package's manifest path has no parent directory.
pub fn locate(package: &Package) -> (pair: Option<(String, String)>)
    ensures
        match pair {
            Some(p) => locatable(package@) && (p.0@, p.1@) == location(package@),
            None => !locatable(package@),
        },
{
    match source_entry(package.manifest_path.as_str()) {
        Some(entry) => {
            let mut dir = package.name.clone();
            dir.append(package.version.as_str());
            Some((entry, out_dir(dir.as_str(), package.name.as_str())))
        },
        None => None,
    }
}

/// Whether `pairs` holds `pair`.
fn holds_pair(pairs: &Vec<(String, String)>, pair: &(String, String)) -> (held: bool)
    ensures
        held == pair_views(pairs@).contains((pair.0@, pair.1@)),
{
    let mut i: usize = 0;
    while i < pairs.len()
        invariant
            i <= pairs@.len(),
            forall|j: int| 0 <= j < i ==> pair_views(pairs@)[j] != (pair.0@, pair.1@),
        decreases pairs@.len() - i,
    {
        if pairs[i].0 == pair.0 && pairs[i].1 == pair.1 {
            assert(pair_views(pairs@)[i as int] == (pair.0@, pair.1@));
            return true;
        }
        i += 1;
    }
    false
}

/// Removes the repetitions from `pairs`, keeping each pair at the place of
/// its first occurrence.
pub fn distinct_pairs(pairs: &Vec<(String, String)>) -> (unique: Vec<(String, String)>)
    ensures
        pair_views(unique@) == distinct(pair_views(pairs@)),
{
    let ghost all = pair_views(pairs@);
    let mut unique: Vec<(String, String)> = Vec::new();
    let mut i: usize = 0;
    while i < pairs.len()
        invariant
            i <= pairs@.len(),
            all == pair_views(pairs@),
            pair_views(unique@) == distinct(all.take(i as int)),
        decreases pairs@.len() - i,
    {
        proof {
            assert(all.take(i + 1).drop_last() =~= all.take(i as int));
        }
        if !holds_pair(&unique, &pairs[i]) {
            unique.push((pairs[i].0.clone(), pairs[i].1.clone()));
        }
        i += 1;
    }
    proof {
        assert(all.take(i as int) =~= all);
    }
    unique
}

/// The source entry and the output directory of every package of the
/// dependency closure of the manifest at `manifest_path` that carries the tag
/// `kind`, and of the manifest's own package; each pair once, in the order of
/// the closure. Fails as [`get_deps`] does, and with `ParentNotFound` for
/// the first selected package whose manifest path has no parent directory.
pub fn get_loam_deps(manifest_path: &str, kind: DepKind, resolution: &Resolution) -> (outcome:
    Result<Vec<(String, String)>, Error>)
    ensures
        pairs_outcome_view(outcome) == loam_deps_of(manifest_path@, kind, resolution@),
{
    let deps = match get_deps(manifest_path, resolution) {
        Ok(deps) => deps,
        Err(error) => {
            return Err(error);
        },
    };
    let ghost all = package_views(deps@);
    let ghost keep = selected(manifest_path@, kind);
    let ghost place = |package: PackageView| location(package);
    let mut pairs: Vec<(String, String)> = Vec::new();
    let mut i: usize = 0;
    while i < deps.len()
        invariant
            i <= deps@.len(),
            all == package_views(deps@),
            keep == selected(manifest_path@, kind),
            place == (|package: PackageView| location(package)),
            deps_of(manifest_path@, resolution@) == Ok::<Seq<PackageView>, ErrorView>(all),
            pair_views(pairs@) == all.take(i as int).filter(keep).map_values(place),
            forall|j: int|
                0 <= j < all.take(i as int).filter(keep).len() ==> locatable(
                    #[trigger] all.take(i as int).filter(keep)[j],
                ),
        decreases deps@.len() - i,
    {
        let ghost before = pair_views(pairs@);
        let ghost chosen = all.take(i as int).filter(keep);
        proof {
            assert(all.take(i + 1) =~= all.take(i as int).push(all[i as int]));
            all.take(i as int).lemma_filter_push(all[i as int], keep);
        }
        if deps[i].is_dep(&kind) || is_same_path(deps[i].manifest_path.as_str(), manifest_path) {
            match locate(&deps[i]) {
                Some(pair) => {
                    pairs.push(pair);
                    proof {
                        assert(pair_views(pairs@) =~= before.push(location(all[i as int])));
                    }
                },
                None => {
                    proof {
                        let whole = all.filter(keep);
                        assert(all =~= all.take(i + 1) + all.skip(i + 1));
                        let at = chosen.len() as int;
                        assert(first_stray(whole, at));
                    }
                    return Err(Error::ParentNotFound(deps[i].manifest_path.clone()));
                },
            }
        }
        i += 1;
    }
    proof {
        assert(all.take(i as int) =~= all);
    }
    Ok(distinct_pairs(&pairs))
}

/// The tag filter for the tag of pluggable components: see
/// [`get_loam_deps`].
pub fn get_riff_deps(manifest_path: &str, resolution: &Resolution) -> (outcome: Result<
    Vec<(String, String)>,
    Error,
>)
    ensures
        pairs_outcome_view(outcome) == loam_deps_of(manifest_path@, DepKind::Riff, resolution@),
{
    get_loam_deps(manifest_path, DepKind::Riff, resolution)
}

/// `distinct` keeps exactly the items that there are, each once.
pub proof fn lemma_distinct<A>(items: Seq<A>)
    ensures
        distinct(items).no_duplicates(),
        forall|item: A| distinct(items).contains(item) <==> items.contains(item),
    decreases items.len(),
{
    if items.len() > 0 {
        let front = items.drop_last();
        let last = items.last();
        let before = distinct(front);
        let all = distinct(items);
        lemma_distinct(front);
        assert forall|item: A| all.contains(item) <==> items.contains(item) by {
            if items.contains(item) {
                let i = choose|i: int| 0 <= i < items.len() && items[i] == item;
                if i < front.len() {
                    assert(front[i] == item);
                    assert(front.contains(item));
                    let j = choose|j: int| 0 <= j < before.len() && before[j] == item;
                    assert(all[j] == item);
                } else if before.contains(last) {
                } else {
                    assert(all[before.len() as int] == item);
                }
            }
            if all.contains(item) {
                let j = choose|j: int| 0 <= j < all.len() && all[j] == item;
                if j < before.len() {
                    assert(front.contains(item));
                }
            }
        }
    }
}

/// What the tag filter returns is a set: no pair comes twice, and the pairs
/// are exactly the locations of the selected packages of the closure. So the
/// filter gives the same set of pairs whenever it is asked the same, whatever
/// the order in which a caller reads them.
pub proof fn lemma_tag_filter_gives_a_set(
    manifest_path: Seq<char>,
    kind: DepKind,
    resolution: ResolutionView,
)
    requires
        loam_deps_of(manifest_path, kind, resolution) is Ok,
    ensures
        ({
            let pairs = loam_deps_of(manifest_path, kind, resolution)->Ok_0;
            let chosen = deps_of(manifest_path, resolution)->Ok_0.filter(
                selected(manifest_path, kind),
            );
            &&& deps_of(manifest_path, resolution) is Ok
            &&& pairs.no_duplicates()
            &&& forall|pair: (Seq<char>, Seq<char>)|
                pairs.contains(pair) <==> exists|i: int|
                    0 <= i < chosen.len() && location(#[trigger] chosen[i]) == pair
        }),
{
    let pairs = loam_deps_of(manifest_path, kind, resolution)->Ok_0;
    let chosen = deps_of(manifest_path, resolution)->Ok_0.filter(selected(manifest_path, kind));
    let places = chosen.map_values(|package: PackageView| location(package));
    lemma_distinct(places);
    assert forall|pair: (Seq<char>, Seq<char>)|
        pairs.contains(pair) <==> exists|i: int|
            0 <= i < chosen.len() && location(#[trigger] chosen[i]) == pair by {
        if places.contains(pair) {
        }
        if exists|i: int| 0 <= i < chosen.len() && location(#[trigger] chosen[i]) == pair {
            let i = choose|i: int| 0 <= i < chosen.len() && location(#[trigger] chosen[i]) == pair;
            assert(places[i] == pair);
        }
    }
}

/// Asking the tag filter twice for the same tag gives the same pairs, read as
/// sets, or the same failure.
pub proof fn lemma_tag_filter_twice(
    manifest_path: Seq<char>,
    kind: DepKind,
    resolution: ResolutionView,
    first: Result<Seq<(Seq<char>, Seq<char>)>, ErrorView>,
    second: Result<Seq<(Seq<char>, Seq<char>)>, ErrorView>,
)
    requires
        first == loam_deps_of(manifest_path, kind, resolution),
        second == loam_deps_of(manifest_path, kind, resolution),
    ensures
        match first {
            Ok(pairs) => second is Ok && second->Ok_0.to_set() == pairs.to_set(),
            Err(error) => second == Err::<Seq<(Seq<char>, Seq<char>)>, ErrorView>(error),
        },
{
}

/// A package without tagged dependencies has no deployable units to wait
/// for: where no package of the closure but one whose manifest is at
/// `manifest_path` carries the tag of deployable units, the deployable-unit
/// filter gives nothing.
pub proof fn lemma_no_tagged_dependency(manifest_path: Seq<char>, resolution: ResolutionView)
    requires
        deps_of(manifest_path, resolution) is Ok,
        forall|i: int|
            0 <= i < deps_of(manifest_path, resolution)->Ok_0.len() ==> {
                let package = #[trigger] deps_of(manifest_path, resolution)->Ok_0[i];
                !same_path(package.manifest_path, manifest_path) ==> !package.has_tag(
                    DepKind::Contract,
                )
            },
    ensures
        contract_deps_of(manifest_path, resolution) == Ok::<Seq<PackageView>, ErrorView>(
            Seq::empty(),
        ),
{
    let deps = deps_of(manifest_path, resolution)->Ok_0;
    deps.lemma_all_neg_filter_empty(unit_dep(manifest_path));
    assert(deps.filter(unit_dep(manifest_path)) =~= Seq::empty());
}

} // verus!
