//! The decision at the heart of the yank and unyank endpoints: whether a
//! request may flip a version's yanked flag, and what is recorded when it
//! does.
//!
//! Authentication, the database reads that establish the caller's rights
//! and the version's current state, and the update itself happen at the
//! application edge; the decision over those inputs is taken here.

use vstd::prelude::*;

verus! {

/// The rights the requesting user holds over the crate.
#[derive(PartialEq, Eq, Structural, Clone, Copy, Debug)]
pub enum Rights {
    /// No ownership rights at all.
    NoAccess,
    /// May publish, yank and unyank versions.
    Publish,
    /// Full control, publishing included.
    Full,
}

/// Whether the rights suffice to yank or unyank: publishing rights at
/// least.
pub open spec fn rights_allow_yank(r: Rights) -> bool {
    r == Rights::Publish || r == Rights::Full
}

/// The audit action recorded when a version's yanked flag flips.
#[derive(PartialEq, Eq, Structural, Clone, Copy, Debug)]
pub enum VersionAction {
    /// The version was yanked.
    Yank,
    /// The version was unyanked.
    Unyank,
}

/// What a yank or unyank request is decided to do.
#[derive(PartialEq, Eq, Structural, Clone, Copy, Debug)]
pub enum YankDecision {
    /// The version string is not valid semver; the request is rejected.
    InvalidSemver,
    /// The requester lacks publishing rights; the request is rejected.
    NotAnOwner,
    /// The version already is in the requested state; nothing to do.
    AlreadySet,
    /// Flip the yanked flag and record this action.
    Update(VersionAction),
}

/// Whether a text is a valid semver version, as the version strings of
/// published crates must be.
pub uninterp spec fn semver_valid(s: Seq<char>) -> bool;

/// Relies on semver's `Version::parse`: whether a text parses as a semver
/// version is a function of the text alone.
#[verifier::external_body]
fn is_valid_semver(version: &str) -> (r: bool)
    ensures
        r == semver_valid(version@),
{
    semver::Version::parse(version).is_ok()
}

/// Changes the `yanked` flag on a crate version record — the decision
/// part: an invalid version string is rejected first, then insufficient
/// rights; a version already in the requested state is left alone, and
/// otherwise the flag flips and the matching audit action is recorded.
pub fn modify_yank(version: &str, rights: Rights, currently_yanked: bool, yank: bool) -> (d:
    YankDecision)
    ensures
        !semver_valid(version@) ==> d == YankDecision::InvalidSemver,
        semver_valid(version@) && !rights_allow_yank(rights) ==> d == YankDecision::NotAnOwner,
        semver_valid(version@) && rights_allow_yank(rights) && currently_yanked == yank ==> d
            == YankDecision::AlreadySet,
        semver_valid(version@) && rights_allow_yank(rights) && currently_yanked != yank ==> d
            == YankDecision::Update(
            if yank {
                VersionAction::Yank
            } else {
                VersionAction::Unyank
            },
        ),
{
    if !is_valid_semver(version) {
        return YankDecision::InvalidSemver;
    }
    let allowed = match rights {
        Rights::Publish => true,
        Rights::Full => true,
        Rights::NoAccess => false,
    };
    if !allowed {
        return YankDecision::NotAnOwner;
    }
    if currently_yanked == yank {
        return YankDecision::AlreadySet;
    }
    if yank {
        YankDecision::Update(VersionAction::Yank)
    } else {
        YankDecision::Update(VersionAction::Unyank)
    }
}

} // verus!
