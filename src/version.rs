//! Server versions, read with the `semver` crate.
use vstd::prelude::*;

verus! {

/// A semantic version: `major.minor.patch`, with pre-release and build text.
#[derive(Clone, Debug)]
pub struct Version {
    pub major: u64,
    pub minor: u64,
    pub patch: u64,
    pub pre: String,
    pub build: String,
}

/// What `semver` reads from a version string: the three numbers and the
/// pre-release and build text, or nothing when the string is not a version.
pub uninterp spec fn semver_of(s: Seq<char>) -> Option<(u64, u64, u64, Seq<char>, Seq<char>)>;

pub open spec fn version_matches(v: Version, m: (u64, u64, u64, Seq<char>, Seq<char>)) -> bool {
    v.major == m.0 && v.minor == m.1 && v.patch == m.2 && v.pre@ == m.3 && v.build@ == m.4
}

/// Relies on `semver::Version::parse`: the version's fields, or an error for
/// text that is not a semantic version.
#[verifier::external_body]
pub(crate) fn parse_semver(s: &str) -> (r: Option<Version>)
    ensures
        match semver_of(s@) {
            Some(m) => r is Some && version_matches(r->0, m),
            None => r is None,
        },
{
    match semver::Version::parse(s) {
        Ok(v) => Some(
            Version {
                major: v.major,
                minor: v.minor,
                patch: v.patch,
                pre: v.pre.as_str().to_string(),
                build: v.build.as_str().to_string(),
            },
        ),
        Err(_) => None,
    }
}

} // verus!
