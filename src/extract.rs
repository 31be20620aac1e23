//! Extraction planning: how each payload of a package is staged and which
//! unpacking strategy it goes to.
//!
//! A payload is staged under its file name with `\` separators turned into
//! `/`. It goes to installer extraction when its name ends in `.msi`, to
//! archive extraction when it ends in `.vsix`, and otherwise by its
//! package's type when that type is an installer or an archive; everything
//! else is left alone. Of an archive, only what lies under its `Contents/`
//! directory reaches the output tree.
use vstd::prelude::*;
use crate::fetch::{cache_file_name, hex_lower};
use crate::model::{Package, PackageType, Payload};

verus! {

/// The unpacking strategy for a payload.
#[derive(Clone, Copy, Debug, PartialEq, Eq, Structural)]
pub enum ExtractionKind {
    /// An installer database, expanded straight into the output tree.
    Msi,
    /// A zip archive, of which the `Contents/` directory is copied.
    Vsix,
}

/// `s` ends with `suffix`.
pub open spec fn ends_with(s: Seq<char>, suffix: Seq<char>) -> bool {
    suffix.len() <= s.len() && s.subrange(s.len() - suffix.len(), s.len() as int) == suffix
}

/// `s` starts with `prefix`.
pub open spec fn starts_with(s: Seq<char>, prefix: Seq<char>) -> bool {
    prefix.len() <= s.len() && s.subrange(0, prefix.len() as int) == prefix
}

/// Relies on str::ends_with: whether the string ends with the given one.
#[verifier::external_body]
fn str_ends_with(s: &str, suffix: &str) -> (r: bool)
    ensures
        r == ends_with(s@, suffix@),
{
    s.ends_with(suffix)
}

/// Relies on str::strip_prefix: the rest of the string after the given
/// prefix, or nothing if it does not start with it.
#[verifier::external_body]
fn str_strip_prefix<'a>(s: &'a str, prefix: &str) -> (r: Option<&'a str>)
    ensures
        r is Some <==> starts_with(s@, prefix@),
        r is Some ==> r.unwrap()@ == s@.subrange(prefix@.len() as int, s@.len() as int),
{
    s.strip_prefix(prefix)
}

/// A character of a file name as staged: `\` becomes `/`.
pub open spec fn slash(c: char) -> char {
    if c == '\\' {
        '/'
    } else {
        c
    }
}

/// Relies on str::replace with a character pattern: every `\` replaced by
/// `/`, every other character kept.
#[verifier::external_body]
fn backslashes_to_slashes(s: &str) -> (r: String)
    ensures
        r@ == s@.map_values(|c: char| slash(c)),
{
    s.replace('\\', "/")
}

/// The unpacking strategy for a payload of a package of type `ty`.
pub open spec fn extraction_kind(file_name: Seq<char>, ty: PackageType) -> Option<ExtractionKind> {
    if ends_with(file_name, ".msi"@) {
        Some(ExtractionKind::Msi)
    } else if ends_with(file_name, ".vsix"@) {
        Some(ExtractionKind::Vsix)
    } else {
        match ty {
            PackageType::Msi => Some(ExtractionKind::Msi),
            PackageType::Vsix => Some(ExtractionKind::Vsix),
            _ => None,
        }
    }
}

/// Routes a payload to its unpacking strategy, or to none.
pub fn classify_payload(file_name: &str, ty: PackageType) -> (r: Option<ExtractionKind>)
    ensures
        r == extraction_kind(file_name@, ty),
        ends_with(file_name@, ".msi"@) ==> r == Some(ExtractionKind::Msi),
        ends_with(file_name@, ".vsix"@) ==> r == Some(ExtractionKind::Vsix),
        !ends_with(file_name@, ".msi"@) && !ends_with(file_name@, ".vsix"@) && ty != PackageType::Msi && ty
            != PackageType::Vsix ==> r is None,
{
    proof {
        reveal_strlit(".msi");
        reveal_strlit(".vsix");
        let n = file_name@.len();
        if ends_with(file_name@, ".vsix"@) && ends_with(file_name@, ".msi"@) {
            assert(file_name@.subrange(n - 4, n as int)[3] == file_name@[n - 1]);
            assert(file_name@.subrange(n - 5, n as int)[4] == file_name@[n - 1]);
        }
    }
    if str_ends_with(file_name, ".msi") {
        Some(ExtractionKind::Msi)
    } else if str_ends_with(file_name, ".vsix") {
        Some(ExtractionKind::Vsix)
    } else {
        match ty {
            PackageType::Msi => Some(ExtractionKind::Msi),
            PackageType::Vsix => Some(ExtractionKind::Vsix),
            _ => None,
        }
    }
}

/// The relative path a payload is staged under.
pub fn staged_path(payload: &Payload) -> (r: String)
    ensures
        r@ == payload.file_name@.map_values(|c: char| slash(c)),
{
    backslashes_to_slashes(payload.file_name.as_str())
}

/// How one payload is handled: the cache file it is read from, the relative
/// path it is staged under, and its unpacking strategy.
#[derive(Debug)]
pub struct StagedPayload {
    pub cache_name: String,
    pub path: String,
    pub kind: Option<ExtractionKind>,
}

/// The handling of payload `p` of a package of type `ty`.
pub open spec fn staged_as(s: StagedPayload, p: Payload, ty: PackageType) -> bool {
    &&& s.cache_name@ == hex_lower(p.sha256@)
    &&& s.path@ == p.file_name@.map_values(|c: char| slash(c))
    &&& s.kind == extraction_kind(p.file_name@, ty)
}

/// The handling of each payload of a package, in the order of its payloads.
pub fn plan_package(package: &Package) -> (r: Vec<StagedPayload>)
    ensures
        r@.len() == package.payloads@.len(),
        forall|i: int| 0 <= i < r@.len() ==> staged_as(#[trigger] r@[i], package.payloads@[i], package.ty),
{
    let mut r: Vec<StagedPayload> = Vec::new();
    for i in 0..package.payloads.len()
        invariant
            r@.len() == i,
            forall|j: int| 0 <= j < i ==> staged_as(#[trigger] r@[j], package.payloads@[j], package.ty),
    {
        let p = &package.payloads[i];
        let s = StagedPayload {
            cache_name: cache_file_name(p),
            path: staged_path(p),
            kind: classify_payload(p.file_name.as_str(), package.ty),
        };
        r.push(s);
    }
    r
}

/// Where a file of an archive, at the relative path `entry`, lands in the
/// output tree: its path below `Contents/`; nothing for the archive's other
/// files and for `Contents/` itself.
pub fn archive_output_path(entry: &str) -> (r: Option<String>)
    ensures
        r is Some <==> starts_with(entry@, "Contents/"@) && entry@.len() > "Contents/"@.len(),
        r is Some ==> r.unwrap()@ == entry@.subrange("Contents/"@.len() as int, entry@.len() as int),
{
    match str_strip_prefix(entry, "Contents/") {
        Some(rest) => {
            if rest.is_empty() {
                None
            } else {
                Some(rest.to_owned())
            }
        },
        None => None,
    }
}

} // verus!
