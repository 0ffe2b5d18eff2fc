//! Semantic versions, as the `semver` crate reads them.

use vstd::prelude::*;
use semver::{Version, VersionReq};

verus! {

use crate::text::opt_view;

/// The message of the error that `semver::Version::parse` gives for a text;
/// nothing for a text that is a version.
pub uninterp spec fn version_fault(text: Seq<char>) -> Option<Seq<char>>;

/// The message of the error that `semver::VersionReq::parse` gives for a
/// text; nothing for a text that is a version requirement.
pub uninterp spec fn requirement_fault(text: Seq<char>) -> Option<Seq<char>>;

/// Whether `semver::VersionReq::matches` accepts a version, both read from
/// their texts.
pub uninterp spec fn requirement_allows(requirement: Seq<char>, version: Seq<char>) -> bool;

/// `semver::Version::parse`: why a text is not a version. Both whether it is
/// one and the message depend on the text alone.
#[verifier::external_body]
pub(crate) fn version_error(text: &str) -> (out: Option<String>)
    ensures
        opt_view(out) == version_fault(text@),
{
    Version::parse(text).err().map(|e| e.to_string())
}

/// `semver::VersionReq::parse`: why a text is not a version requirement. Both
/// whether it is one and the message depend on the text alone.
#[verifier::external_body]
pub(crate) fn requirement_error(text: &str) -> (out: Option<String>)
    ensures
        opt_view(out) == requirement_fault(text@),
{
    VersionReq::parse(text).err().map(|e| e.to_string())
}

/// `semver::VersionReq::matches`: whether a version satisfies a requirement.
/// Both texts must parse; the answer depends on them alone.
#[verifier::external_body]
pub(crate) fn allows(requirement: &str, version: &str) -> (yes: bool)
    requires
        requirement_fault(requirement@) is None,
        version_fault(version@) is None,
    ensures
        yes == requirement_allows(requirement@, version@),
{
    VersionReq::parse(requirement).unwrap().matches(&Version::parse(version).unwrap())
}

} // verus!
