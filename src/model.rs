//! The manifest document: packages, their dependency edges and payloads.
use vstd::prelude::*;

verus! {

/// How a dependency edge is qualified; a qualified edge is not followed
/// when packages are resolved.
#[derive(Clone, Copy, Debug, PartialEq, Eq, Structural)]
pub enum DependencyType {
    Optional,
    Recommended,
}

/// The architecture a dependency edge is meant for; informational only.
#[derive(Clone, Copy, Debug, PartialEq, Eq, Structural)]
pub enum DependencyChip {
    X86,
    X64,
    Arm,
    Arm64,
}

/// The closed set of package kinds the manifest declares.
#[derive(Clone, Copy, Debug, PartialEq, Eq, Structural)]
pub enum PackageType {
    Component,
    Exe,
    Group,
    Msi,
    Msu,
    Nupkg,
    Product,
    Vsix,
    WindowsFeature,
    Workload,
    Zip,
}

/// A dependency edge as the rest of the library sees it.
#[derive(Debug)]
pub struct Dependency {
    pub version: String,
    pub ty: Option<DependencyType>,
    pub chip: Option<DependencyChip>,
}

/// The two shapes a dependency takes in the document: a bare version
/// string, or an object with optional qualifiers.
#[derive(Debug)]
pub enum DependencyRaw {
    Version(String),
    Detailed { version: String, ty: Option<DependencyType>, chip: Option<DependencyChip> },
}

/// The normalised record for each shape of a dependency.
pub open spec fn dependency_of_raw(raw: DependencyRaw) -> Dependency {
    match raw {
        DependencyRaw::Version(version) => Dependency { version, ty: None, chip: None },
        DependencyRaw::Detailed { version, ty, chip } => Dependency { version, ty, chip },
    }
}

impl From<DependencyRaw> for Dependency {
    fn from(value: DependencyRaw) -> (r: Dependency)
        ensures
            r == dependency_of_raw(value),
    {
        match value {
            DependencyRaw::Version(version) => Dependency { version, ty: None, chip: None },
            DependencyRaw::Detailed { version, ty, chip } => Dependency { version, ty, chip },
        }
    }
}

impl vstd::std_specs::convert::FromSpecImpl<DependencyRaw> for Dependency {
    open spec fn obeys_from_spec() -> bool {
        true
    }

    open spec fn from_spec(v: DependencyRaw) -> Dependency {
        dependency_of_raw(v)
    }
}


/// indexmap::IndexMap, held opaque: a package's dependency edges, keyed by
/// target id, in the order of the document. What the library reads of it
/// goes through `dependency_entries` and the two functions below.
#[verifier::external_type_specification]
#[verifier::external_body]
#[verifier::reject_recursive_types(K)]
#[verifier::reject_recursive_types(V)]
#[verifier::reject_recursive_types(S)]
pub struct ExIndexMap<K, V, S>(indexmap::IndexMap<K, V, S>);

/// url::Url, held opaque: a payload's address, which the library only carries
/// to the code that downloads it.
#[verifier::external_type_specification]
#[verifier::external_body]
pub struct ExUrl(url::Url);

/// The entries of a map of dependency edges, in the map's order: each is
/// the target id and the edge.
pub uninterp spec fn dependency_entries(m: indexmap::IndexMap<String, Dependency>) -> Seq<(Seq<char>, Dependency)>;

/// Relies on indexmap::IndexMap::len: the number of entries.
#[verifier::external_body]
pub(crate) fn dependency_count(m: &indexmap::IndexMap<String, Dependency>) -> (n: usize)
    ensures
        n == dependency_entries(*m).len(),
{
    m.len()
}

/// Relies on indexmap::IndexMap::get_index: the entry at a position of the
/// insertion order, or nothing past the end.
#[verifier::external_body]
pub(crate) fn dependency_at(m: &indexmap::IndexMap<String, Dependency>, i: usize) -> (r: Option<(&String, &Dependency)>)
    ensures
        i < dependency_entries(*m).len() ==> r is Some && r.unwrap().0@ == dependency_entries(*m)[i as int].0 && *r.unwrap().1 == dependency_entries(*m)[i as int].1,
        i >= dependency_entries(*m).len() ==> r is None,
{
    m.get_index(i)
}

/// One downloadable file of a package.
#[derive(Debug)]
pub struct Payload {
    /// The name the file is staged under; may use `\` as a separator.
    pub file_name: String,
    /// The declared SHA-256 digest of the file's bytes.
    pub sha256: [u8; 32],
    pub size: u64,
    pub url: url::Url,
}

/// A named, versioned unit with dependency edges and payloads.
#[derive(Debug)]
pub struct Package {
    pub id: String,
    pub version: String,
    pub ty: PackageType,
    pub dependencies: indexmap::IndexMap<String, Dependency>,
    pub payloads: Vec<Payload>,
}

/// The document that lists every available package.
#[derive(Debug)]
pub struct Manifest {
    pub manifest_version: String,
    pub engine_version: String,
    pub packages: Vec<Package>,
}

/// The kind of an item of a release channel; only the manifest matters here.
#[derive(Clone, Copy, Debug, PartialEq, Eq, Structural)]
pub enum ChannelItemType {
    Manifest,
    Other,
}

/// One item of a release channel.
#[derive(Debug)]
pub struct ChannelItem {
    pub id: String,
    pub version: String,
    pub ty: ChannelItemType,
    pub payloads: Option<Vec<Payload>>,
}

/// A release channel: the list of versioned items, one of which points at
/// the manifest.
#[derive(Debug)]
pub struct Channel {
    pub channel_items: Vec<ChannelItem>,
}

} // verus!
