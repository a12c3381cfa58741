//! Registry sources and full package identities as the package manager names them.
use vstd::prelude::*;
use vstd::string::*;
use crate::level::Version;
use crate::text::same_text;

verus! {

/// The package manager's name for the default public registry.
pub const CRATES_IO_INDEX: &'static str = "registry+https://github.com/rust-lang/crates.io-index";

/// The short literal that package identities use for the default public registry.
pub const PROJECT_SOURCE_CRATES_IO: &'static str = "https://crates.io";

/// The source id that package identities use for the registry at `url`.
pub open spec fn source_id_of(url: Seq<char>) -> Seq<char> {
    if url == CRATES_IO_INDEX@ {
        PROJECT_SOURCE_CRATES_IO@
    } else {
        url
    }
}

/// Source id for the registry whose package-manager URL is `source_url`: the default
/// registry maps to its short literal, every other source stays as it is.
pub fn cargo_registry_to_crev_source_id(source_url: &str) -> (r: String)
    ensures
        r@ == source_id_of(source_url@),
{
    if same_text(source_url, CRATES_IO_INDEX) {
        PROJECT_SOURCE_CRATES_IO.to_string()
    } else {
        source_url.to_string()
    }
}

/// A package version named by source, name and version.
pub struct PackageVersionId {
    pub source: String,
    pub name: String,
    pub version: Version,
}

/// The package identity of the package `name` at `version` from the registry `source_url`.
pub fn cargo_pkg_id_to_crev_pkg_id(source_url: &str, name: &str, version: Version) -> (r:
    PackageVersionId)
    ensures
        r.source@ == source_id_of(source_url@),
        r.name@ == name@,
        r.version == version,
{
    PackageVersionId {
        source: cargo_registry_to_crev_source_id(source_url),
        name: name.to_string(),
        version,
    }
}

} // verus!
