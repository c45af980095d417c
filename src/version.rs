use vstd::prelude::*;
use core::cmp::Ordering;

verus! {

/// Whether the text is accepted by `semver::Version::parse`.
pub uninterp spec fn semver_valid(text: Seq<u8>) -> bool;

/// How `semver::Version`'s `Ord` ranks the versions that two texts spell.
pub uninterp spec fn semver_order(a: Seq<u8>, b: Seq<u8>) -> Ordering;

/// Relies on `semver::Version::parse`: whether the text (as UTF-8) is a semantic version.
#[verifier::external_body]
pub(crate) fn is_semver(text: &[u8]) -> (r: bool)
    ensures
        r == semver_valid(text@),
{
    match std::str::from_utf8(text) {
        Ok(s) => semver::Version::parse(s).is_ok(),
        Err(_) => false,
    }
}

/// Relies on `Ord for semver::Version` (major, minor, patch, pre-release, build) on the
/// values that `semver::Version::parse` gives for two valid texts.
#[verifier::external_body]
pub(crate) fn compare_semver(a: &[u8], b: &[u8]) -> (r: Ordering)
    requires
        semver_valid(a@),
        semver_valid(b@),
    ensures
        r == semver_order(a@, b@),
{
    let x = semver::Version::parse(std::str::from_utf8(a).unwrap()).unwrap();
    let y = semver::Version::parse(std::str::from_utf8(b).unwrap()).unwrap();
    x.cmp(&y)
}

pub open spec fn is_digit(b: u8) -> bool {
    48 <= b <= 57
}

/// A calendar date written `YYYY-MM-DD`.
pub open spec fn is_date(s: Seq<u8>) -> bool {
    &&& s.len() == 10
    &&& forall|i: int| 0 <= i < 10 && i != 4 && i != 7 ==> is_digit(#[trigger] s[i])
    &&& s[4] == '-' as u8
    &&& s[7] == '-' as u8
}

pub fn check_date(s: &[u8]) -> (r: bool)
    ensures
        r == is_date(s@),
{
    if s.len() != 10 || s[4] != '-' as u8 || s[7] != '-' as u8 {
        return false;
    }
    let mut i: usize = 0;
    while i < 10
        invariant
            s@.len() == 10,
            i <= 10,
            forall|j: int| 0 <= j < i && j != 4 && j != 7 ==> is_digit(#[trigger] s@[j]),
        decreases 10 - i,
    {
        if i != 4 && i != 7 && !(48 <= s[i] && s[i] <= 57) {
            return false;
        }
        i = i + 1;
    }
    true
}

} // verus!
