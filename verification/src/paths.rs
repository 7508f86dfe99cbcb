//! Where a package's sources are read and where its build output goes.
//!
//! Paths are held as text. Taking a parent, joining and comparing are left to
//! the path library, so a path is cut, put together and told from another by
//! the rules of the platform.

use cargo_metadata::camino::Utf8Path;
use vstd::prelude::*;

verus! {

/// The directory under a build-output root that holds this tool's outputs.
pub const OUTPUT_NAMESPACE: &'static str = "loam";

/// The directory of a package that holds its sources.
pub const SOURCE_DIR: &'static str = "src";

/// The file of [`SOURCE_DIR`] at which a package's sources start.
pub const SOURCE_ENTRY: &'static str = "lib.rs";

/// What `Utf8Path::parent` returns for the path written `path`: the path
/// without its last component, or nothing where there is no such component to
/// take away.
pub uninterp spec fn path_parent(path: Seq<char>) -> Option<Seq<char>>;

/// What `Utf8Path::join` returns for the path written `base` and the path
/// written `part`: `part` adjoined to `base`.
pub uninterp spec fn path_join(base: Seq<char>, part: Seq<char>) -> Seq<char>;

/// Whether `Utf8Path`'s `==` holds of the path written `a` and the path
/// written `b`: whether the two are the same path, however each is written.
pub uninterp spec fn same_path(a: Seq<char>, b: Seq<char>) -> bool;

/// Calls `Utf8Path::parent` on `path`. The contract only names the result:
/// whether there is a parent, and which, follows the path rules of the
/// platform that the library is built for.
#[verifier::external_body]
pub(crate) fn parent(path: &str) -> (dir: Option<String>)
    ensures
        match dir {
            Some(d) => path_parent(path@) == Some(d@),
            None => path_parent(path@) is None,
        },
{
    match Utf8Path::new(path).parent() {
        Some(dir) => Some(dir.as_str().to_owned()),
        None => None,
    }
}

/// Calls `Utf8Path::join` on `base` with `part`. The contract only names the
/// result: which separator is put between the two, and when `part` replaces
/// `base`, follows the path rules of the platform that the library is built
/// for.
#[verifier::external_body]
pub(crate) fn join(base: &str, part: &str) -> (joined: String)
    ensures
        joined@ == path_join(base@, part@),
{
    Utf8Path::new(base).join(part).into_string()
}

/// Compares the paths `a` and `b` with `Utf8Path`'s `==`. The contract only
/// names the result: which ways of writing a path count as the same follows
/// the path rules of the platform that the library is built for.
#[verifier::external_body]
pub(crate) fn is_same_path(a: &str, b: &str) -> (same: bool)
    ensures
        same == same_path(a@, b@),
{
    Utf8Path::new(a) == Utf8Path::new(b)
}

/// `name` with every `-` replaced by `_`.
pub open spec fn dashes_replaced(name: Seq<char>) -> Seq<char> {
    name.map_values(
        |c: char|
            if c == '-' {
                '_'
            } else {
                c
            },
    )
}

/// The output directory of the package `name` under the build-output root
/// `target_dir`.
pub open spec fn out_dir_path(target_dir: Seq<char>, name: Seq<char>) -> Seq<char> {
    path_join(path_join(target_dir, OUTPUT_NAMESPACE@), dashes_replaced(name))
}

/// The source-entry path of the package whose manifest is at `manifest_path`,
/// if that path has a parent directory.
pub open spec fn source_entry_path(manifest_path: Seq<char>) -> Option<Seq<char>> {
    match path_parent(manifest_path) {
        Some(dir) => Some(path_join(path_join(dir, SOURCE_DIR@), SOURCE_ENTRY@)),
        None => None,
    }
}

/// Replaces every `-` of `name` by `_`, as identifiers of output modules ask.
pub fn replace_dashes(name: &str) -> (replaced: String)
    ensures
        replaced@ == dashes_replaced(name@),
{
    let n = name.unicode_len();
    let mut replaced = String::new();
    let mut i: usize = 0;
    while i < n
        invariant
            i <= n,
            n == name@.len(),
            replaced@ == dashes_replaced(name@.subrange(0, i as int)),
        decreases n - i,
    {
        if name.get_char(i) == '-' {
            proof {
                reveal_strlit("_");
            }
            replaced.append("_");
        } else {
            replaced.append(name.substring_char(i, i + 1));
        }
        i += 1;
    }
    assert(name@.subrange(0, n as int) =~= name@);
    replaced
}

/// The output directory of the package `name` under the build-output root
/// `target_dir`: the root, joined with [`OUTPUT_NAMESPACE`], joined with the
/// name in which every `-` is replaced by `_`.
pub fn out_dir(target_dir: &str, name: &str) -> (dir: String)
    ensures
        dir@ == out_dir_path(target_dir@, name@),
{
    let namespace = join(target_dir, OUTPUT_NAMESPACE);
    let module = replace_dashes(name);
    join(namespace.as_str(), module.as_str())
}

/// The source-entry path of the package whose manifest is at `manifest_path`:
/// the manifest's directory, joined with [`SOURCE_DIR`] and [`SOURCE_ENTRY`].
/// There is none where the manifest path has no parent directory.
pub fn source_entry(manifest_path: &str) -> (entry: Option<String>)
    ensures
        match entry {
            Some(e) => source_entry_path(manifest_path@) == Some(e@),
            None => source_entry_path(manifest_path@) is None,
        },
{
    match parent(manifest_path) {
        Some(dir) => {
            let sources = join(dir.as_str(), SOURCE_DIR);
            Some(join(sources.as_str(), SOURCE_ENTRY))
        },
        None => None,
    }
}

} // verus!
