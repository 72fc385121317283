use cargo_registry::yank::modify_yank;
use cargo_registry::yank::Rights;
use cargo_registry::yank::VersionAction;
use cargo_registry::yank::YankDecision;

#[test]
fn yank_rejects_invalid_semver() {
    assert_eq!(
        YankDecision::InvalidSemver,
        modify_yank("not a version", Rights::Full, false, true)
    );
    assert_eq!(
        YankDecision::InvalidSemver,
        modify_yank("1.0", Rights::Full, false, true)
    );
}

#[test]
fn yank_requires_publish_rights() {
    assert_eq!(
        YankDecision::NotAnOwner,
        modify_yank("1.0.0", Rights::NoAccess, false, true)
    );
}

#[test]
fn yank_of_already_yanked_version_does_nothing() {
    assert_eq!(
        YankDecision::AlreadySet,
        modify_yank("1.0.0", Rights::Publish, true, true)
    );
    assert_eq!(
        YankDecision::AlreadySet,
        modify_yank("1.0.0", Rights::Publish, false, false)
    );
}

#[test]
fn yank_and_unyank_record_their_actions() {
    assert_eq!(
        YankDecision::Update(VersionAction::Yank),
        modify_yank("1.0.0", Rights::Publish, false, true)
    );
    assert_eq!(
        YankDecision::Update(VersionAction::Unyank),
        modify_yank("1.0.0-beta.1", Rights::Full, true, false)
    );
}
