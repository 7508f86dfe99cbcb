//! The record of one resolved package, and the tags that its manifest's
//! custom metadata may carry.

use vstd::prelude::*;

verus! {

/// The key of a manifest's custom metadata under which this tool's tags
/// stand.
pub const NAMESPACE: &'static str = "loam";

/// A node of the freeform custom-metadata tree of a manifest. Only objects and
/// booleans are ever read; every other kind of value is `Other`.
#[derive(Debug, PartialEq, Eq)]
pub enum MetaValue {
    Bool(bool),
    Object(Vec<(String, MetaValue)>),
    Other,
}

/// The mathematical value of a [`MetaValue`].
pub enum MetaView {
    Bool(bool),
    Object(Seq<(Seq<char>, MetaView)>),
    Other,
}

/// The mathematical value of a metadata node.
pub open spec fn meta_view(value: MetaValue) -> MetaView
    decreases value,
{
    match value {
        MetaValue::Bool(b) => MetaView::Bool(b),
        MetaValue::Object(entries) => MetaView::Object(entries_view(entries@)),
        MetaValue::Other => MetaView::Other,
    }
}

/// The mathematical value of the entries of an object: entry by entry, the key
/// and the value of the node stored under it.
pub open spec fn entries_view(entries: Seq<(String, MetaValue)>) -> Seq<(Seq<char>, MetaView)>
    decreases entries,
{
    if entries.len() == 0 {
        Seq::empty()
    } else {
        entries_view(entries.drop_last()).push((entries.last().0@, meta_view(entries.last().1)))
    }
}

/// `entries_view` keeps the length and maps each entry by itself.
pub proof fn lemma_entries_view(entries: Seq<(String, MetaValue)>)
    ensures
        entries_view(entries).len() == entries.len(),
        forall|i: int|
            0 <= i < entries.len() ==> #[trigger] entries_view(entries)[i] == (
                entries[i].0@,
                meta_view(entries[i].1),
            ),
    decreases entries.len(),
{
    if entries.len() > 0 {
        lemma_entries_view(entries.drop_last());
    }
}

impl View for MetaValue {
    type V = MetaView;

    open spec fn view(&self) -> MetaView {
        meta_view(*self)
    }
}

/// The value stored under `key` in the entries of an object: that of the first
/// entry with this key, if there is one.
pub open spec fn field(entries: Seq<(Seq<char>, MetaView)>, key: Seq<char>) -> Option<MetaView>
    decreases entries.len(),
{
    if entries.len() == 0 {
        None
    } else if entries[0].0 == key {
        Some(entries[0].1)
    } else {
        field(entries.drop_first(), key)
    }
}

/// The member `key` of `value`, if `value` is an object that has one.
pub open spec fn member(value: MetaView, key: Seq<char>) -> Option<MetaView> {
    match value {
        MetaView::Object(entries) => field(entries, key),
        _ => None,
    }
}

/// Whether the metadata tree `metadata` sets the tag `tag`: the tree is an
/// object, its member [`NAMESPACE`] is an object, and that object's member
/// `tag` is the boolean `true`. Any other shape leaves the tag unset.
pub open spec fn tag_set(metadata: MetaView, tag: Seq<char>) -> bool {
    match member(metadata, NAMESPACE@) {
        Some(namespace) => member(namespace, tag) == Some(MetaView::Bool(true)),
        None => false,
    }
}

impl MetaValue {
    /// The member `key` of this value, if it is an object that has one.
    pub fn get(&self, key: &String) -> (found: Option<&MetaValue>)
        ensures
            match found {
                Some(value) => member(self@, key@) == Some(value@),
                None => member(self@, key@) is None,
            },
    {
        match self {
            MetaValue::Object(entries) => {
                let ghost all = self@->Object_0;
                proof {
                    lemma_entries_view(entries@);
                    assert(all.subrange(0, all.len() as int) =~= all);
                }
                let mut i: usize = 0;
                while i < entries.len()
                    invariant
                        i <= entries.len(),
                        self@ == MetaView::Object(all),
                        all.len() == entries@.len(),
                        forall|j: int|
                            0 <= j < all.len() ==> all[j] == (
                                #[trigger] entries@[j].0@,
                                entries@[j].1@,
                            ),
                        field(all, key@) == field(all.subrange(i as int, all.len() as int), key@),
                    decreases entries.len() - i,
                {
                    let ghost rest = all.subrange(i as int, all.len() as int);
                    proof {
                        assert(rest.drop_first() == all.subrange(i + 1, all.len() as int));
                    }
                    if entries[i].0 == *key {
                        return Some(&entries[i].1);
                    }
                    i += 1;
                }
                None
            },
            _ => None,
        }
    }

    /// Whether this value is the boolean `true`.
    pub fn is_true(&self) -> (yes: bool)
        ensures
            yes == (self@ == MetaView::Bool(true)),
    {
        match self {
            MetaValue::Bool(b) => *b,
            _ => false,
        }
    }
}

impl Clone for MetaValue {
    fn clone(&self) -> (copy: Self)
        ensures
            copy@ == self@,
        decreases self,
    {
        match self {
            MetaValue::Bool(b) => MetaValue::Bool(*b),
            MetaValue::Object(entries) => {
                let mut copies: Vec<(String, MetaValue)> = Vec::new();
                let mut i: usize = 0;
                while i < entries.len()
                    invariant
                        i <= entries.len(),
                        *self == MetaValue::Object(*entries),
                        copies@.len() == i,
                        forall|j: int|
                            0 <= j < i ==> (#[trigger] copies@[j]).0@ == entries@[j].0@
                                && copies@[j].1@ == entries@[j].1@,
                    decreases entries.len() - i,
                {
                    let key = entries[i].0.clone();
                    proof {
                        assert(decreases_to!(*self => self->Object_0));
                    }
                    let value = entries[i].1.clone();
                    copies.push((key, value));
                    i += 1;
                }
                let copy = MetaValue::Object(copies);
                proof {
                    lemma_entries_view(entries@);
                    lemma_entries_view(copies@);
                    assert(copy@->Object_0 =~= self@->Object_0);
                }
                copy
            },
            MetaValue::Other => MetaValue::Other,
        }
    }
}

/// The two tags that a manifest can set.
#[derive(Debug, Clone, Copy, PartialEq, Eq)]
pub enum DepKind {
    /// The package is a pluggable component.
    Riff,
    /// The package is a deployable unit.
    Contract,
}

impl DepKind {
    /// The name under which the tag stands in the metadata.
    pub open spec fn name(self) -> Seq<char> {
        match self {
            DepKind::Riff => "riff"@,
            DepKind::Contract => "contract"@,
        }
    }

    /// The name under which the tag stands in the metadata.
    pub fn to_string(&self) -> (name: String)
        ensures
            name@ == self.name(),
    {
        match self {
            DepKind::Riff => "riff".to_owned(),
            DepKind::Contract => "contract".to_owned(),
        }
    }
}

/// One resolved package of a dependency closure.
#[derive(Debug, PartialEq, Eq)]
pub struct Package {
    /// The identifier that the package manager gave the package; unique within
    /// one resolution.
    pub id: String,
    pub name: String,
    /// The version, as it is written beside the name in a dependency tree,
    /// without the marker before it.
    pub version: String,
    /// The path of the package's manifest. Two records describe the same
    /// package exactly when their manifests are at the same path.
    pub manifest_path: String,
    /// The custom metadata of the manifest.
    pub metadata: MetaValue,
}

/// The mathematical value of a [`Package`].
pub struct PackageView {
    pub id: Seq<char>,
    pub name: Seq<char>,
    pub version: Seq<char>,
    pub manifest_path: Seq<char>,
    pub metadata: MetaView,
}

impl PackageView {
    /// Whether the package's manifest sets the tag `kind`.
    pub open spec fn has_tag(self, kind: DepKind) -> bool {
        tag_set(self.metadata, kind.name())
    }
}

impl View for Package {
    type V = PackageView;

    open spec fn view(&self) -> PackageView {
        PackageView {
            id: self.id@,
            name: self.name@,
            version: self.version@,
            manifest_path: self.manifest_path@,
            metadata: self.metadata@,
        }
    }
}

impl Clone for Package {
    fn clone(&self) -> (copy: Self)
        ensures
            copy@ == self@,
    {
        Package {
            id: self.id.clone(),
            name: self.name.clone(),
            version: self.version.clone(),
            manifest_path: self.manifest_path.clone(),
            metadata: self.metadata.clone(),
        }
    }
}

/// The views of a sequence of packages, in the same order.
pub open spec fn package_views(packages: Seq<Package>) -> Seq<PackageView> {
    packages.map_values(|p: Package| p@)
}

/// Tag lookup on a package record.
pub trait PackageExt {
    /// Whether the record's metadata sets the tag `key`.
    spec fn tagged(&self, key: DepKind) -> bool;

    /// Whether the record's metadata sets the tag `key`. A record without
    /// metadata, without the tool's namespace, or with a value there that is
    /// not a boolean, does not.
    fn is_dep(&self, key: &DepKind) -> (set: bool)
        ensures
            set == self.tagged(*key),
    ;
}

impl PackageExt for Package {
    open spec fn tagged(&self, key: DepKind) -> bool {
        self@.has_tag(key)
    }

    fn is_dep(&self, key: &DepKind) -> (set: bool) {
        let namespace = NAMESPACE.to_owned();
        match self.metadata.get(&namespace) {
            Some(tags) => {
                let name = key.to_string();
                match tags.get(&name) {
                    Some(value) => value.is_true(),
                    None => false,
                }
            },
            None => false,
        }
    }
}

} // verus!
