//! Comparing data versions ("v0.13.1") by the rules of `version_compare`.
use vstd::prelude::*;
use crate::text::{chars_of, starts_with, string_of, sub_chars};

verus! {

/// How a first version stands to a second one.
#[derive(Debug, Clone, Copy, PartialEq, Eq)]
pub enum VersionOrder {
    /// The first version is older.
    Older,
    /// Both are the same version.
    Same,
    /// The first version is newer.
    Newer,
}

/// Whether `s` parses as a version (`version_compare::Version::from`
/// gives one).
pub uninterp spec fn parses_as_version(s: Seq<char>) -> bool;

/// How version `a` stands to version `b` by `version_compare::compare`,
/// for two texts that parse as versions.
pub uninterp spec fn version_order(a: Seq<char>, b: Seq<char>) -> VersionOrder;

/// Calls `version_compare::Version::from` and tells whether it gave a
/// version; the answer is named `parses_as_version`.
#[verifier::external_body]
fn version_parses(s: &str) -> (r: bool)
    ensures
        r == parses_as_version(s@),
{
    version_compare::Version::from(s).is_some()
}

/// Calls `version_compare::compare` on two texts that parse as versions:
/// it then returns `Ok` of `Lt`, `Eq` or `Gt` (the only answers its
/// comparison gives), which become `Older`, `Same` and `Newer`. The
/// result is named `version_order`.
#[verifier::external_body]
fn compare_versions(a: &str, b: &str) -> (r: Option<VersionOrder>)
    requires
        parses_as_version(a@),
        parses_as_version(b@),
    ensures
        r == Some(version_order(a@, b@)),
{
    match version_compare::compare(a, b) {
        Ok(version_compare::Cmp::Lt) => Some(VersionOrder::Older),
        Ok(version_compare::Cmp::Eq) => Some(VersionOrder::Same),
        Ok(version_compare::Cmp::Gt) => Some(VersionOrder::Newer),
        _ => None,
    }
}

/// The version without its leading "v", or `None` when it does not begin with one.
fn without_v(v: &str) -> (r: Option<String>)
    ensures
        r is Some <==> starts_with(v@, "v"@),
        r matches Some(t) ==> t@ == v@.drop_first(),
{
    proof {
        reveal_strlit("v");
    }
    let cs = chars_of(v);
    if cs.len() == 0 || cs[0] != 'v' {
        assert(!starts_with(v@, "v"@)) by {
            if cs.len() > 0 {
                assert(v@.subrange(0, 1)[0] == v@[0]);
            }
        }
        return None;
    }
    assert(v@.subrange(0, 1) =~= "v"@);
    let rest = sub_chars(&cs, 1, cs.len());
    assert(rest@ =~= v@.drop_first());
    Some(string_of(&rest))
}

/// A data version: a leading "v", then a text that parses as a version.
pub open spec fn data_version(v: Seq<char>) -> bool {
    starts_with(v, "v"@) && parses_as_version(v.drop_first())
}

/// How data version `v1` stands to `v2`: the versions after the leading
/// "v" compared by `version_compare`.
pub fn cmp_version(v1: &str, v2: &str) -> (r: VersionOrder)
    requires
        data_version(v1@),
        data_version(v2@),
    ensures
        r == version_order(v1@.drop_first(), v2@.drop_first()),
{
    let a = match without_v(v1) {
        Some(a) => a,
        None => {
            return VersionOrder::Same;
        },
    };
    let b = match without_v(v2) {
        Some(b) => b,
        None => {
            return VersionOrder::Same;
        },
    };
    match compare_versions(a.as_str(), b.as_str()) {
        Some(order) => order,
        None => VersionOrder::Same,
    }
}

/// Whether `v` is a data version: a leading "v" and a version after it.
pub fn is_data_version(v: &str) -> (r: bool)
    ensures
        r == data_version(v@),
{
    match without_v(v) {
        Some(rest) => version_parses(rest.as_str()),
        None => false,
    }
}

/// How data version `v1` stands to `v2`, or `None` where either is not a
/// data version (where `cmp_version` does not apply).
pub fn compare_data_versions(v1: &str, v2: &str) -> (r: Option<VersionOrder>)
    ensures
        r == (if data_version(v1@) && data_version(v2@) {
            Some(version_order(v1@.drop_first(), v2@.drop_first()))
        } else {
            None
        }),
{
    if is_data_version(v1) && is_data_version(v2) {
        Some(cmp_version(v1, v2))
    } else {
        None
    }
}

} // verus!
