//! Telling a release from a beta and from a development build by the
//! version that the build carries.

use regex::Regex;
use vstd::prelude::*;

verus! {

/// What kind of build a version names.
#[derive(Clone, Copy, Debug, PartialEq, Eq, Structural)]
pub enum WebsiteMode {
    Dev,
    Beta,
    Release,
}

/// What a pattern finds in a text.
#[derive(Clone, Copy, Debug, PartialEq, Eq, Structural)]
pub enum Captured {
    /// The pattern is no regular expression.
    BadPattern,
    /// The pattern does not match the text.
    NoMatch,
    /// The pattern matches, and the group asked for took part or did not.
    Matched { with_group: bool },
}

/// What `pattern` finds in `text` as a regular expression of the `regex`
/// crate, and whether its group number `group` took part in the match.
pub uninterp spec fn captured(pattern: Seq<char>, text: Seq<char>, group: usize) -> Captured;

/// Compiles `pattern` with `Regex::new`, matches `text` with
/// `Regex::captures` and asks `Captures::get` for the group `group`. The
/// contract names the outcome `captured(pattern, text, group)`: it is a
/// function of the two texts and the number alone.
#[verifier::external_body]
fn capture(pattern: &str, text: &str, group: usize) -> (r: Captured)
    ensures
        r == captured(pattern@, text@, group),
{
    match Regex::new(pattern) {
        Err(_) => Captured::BadPattern,
        Ok(re) => match re.captures(text) {
            None => Captured::NoMatch,
            Some(c) => Captured::Matched { with_group: c.get(group).is_some() },
        },
    }
}

/// The group of the version pattern that holds the suffix.
pub const SUFFIX_GROUP: usize = 2;

/// The kind of build for what the version pattern found: a release where
/// the version stands alone, a beta where a suffix follows it, a
/// development build where there is no version.
pub open spec fn spec_mode_of(found: Captured) -> WebsiteMode {
    match found {
        Captured::Matched { with_group: true } => WebsiteMode::Beta,
        Captured::Matched { with_group: false } => WebsiteMode::Release,
        _ => WebsiteMode::Dev,
    }
}

/// The kind of build for what the version pattern found.
pub fn mode_of(found: Captured) -> (mode: WebsiteMode)
    ensures
        mode == spec_mode_of(found),
{
    match found {
        Captured::Matched { with_group } => if with_group {
            WebsiteMode::Beta
        } else {
            WebsiteMode::Release
        },
        _ => WebsiteMode::Dev,
    }
}

/// The pattern of a version: `v`, three numbers with dots between them,
/// and, as the second group, a suffix that starts with a hyphen.
pub open spec fn version_pattern() -> Seq<char> {
    "^(v\\d+\\.\\d+\\.\\d+)(-.*)?$"@
}

/// The kind of build that a version names.
pub fn parse_semver(semver: &str) -> (mode: WebsiteMode)
    ensures
        mode == spec_mode_of(captured(version_pattern(), semver@, SUFFIX_GROUP)),
{
    mode_of(capture("^(v\\d+\\.\\d+\\.\\d+)(-.*)?$", semver, SUFFIX_GROUP))
}

} // verus!
