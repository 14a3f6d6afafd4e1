use bottlerocket_settings::migration::{
    ExtensionDescriptor, MigrationError, MigrationStep, RegistrationError,
};

fn s(x: &str) -> String {
    x.to_string()
}

fn chain(downgrades: Vec<bool>) -> ExtensionDescriptor {
    ExtensionDescriptor::linear(s("ext"), vec![s("v1"), s("v2"), s("v3")], downgrades).unwrap()
}

fn u12(v: i64) -> i64 {
    v * 10 + 1
}

fn u23(v: i64) -> i64 {
    v * 100 + 2
}

fn step(st: MigrationStep, v: i64) -> Result<i64, String> {
    match st {
        MigrationStep::Upgrade(0) => Ok(u12(v)),
        MigrationStep::Upgrade(1) => Ok(u23(v)),
        MigrationStep::Downgrade(1) => Ok(v - 2),
        MigrationStep::Downgrade(0) => Ok(v - 1),
        other => Err(format!("no such step {:?}", other)),
    }
}

#[test]
fn upgrade_chain_applies_each_step_in_order() {
    let d = chain(vec![false, false]);
    let r = d.migrate(&s("v1"), &s("v3"), 7, step).unwrap();
    assert_eq!(r, u23(u12(7)));
    assert_eq!(
        d.plan(&s("v1"), &s("v3")).unwrap(),
        vec![MigrationStep::Upgrade(0), MigrationStep::Upgrade(1)]
    );
}

#[test]
fn downgrade_without_registered_step_is_unsupported() {
    let d = chain(vec![false, false]);
    match d.migrate(&s("v3"), &s("v1"), 7, step) {
        Err(MigrationError::UnsupportedMigration { from, to }) => {
            assert_eq!(from, "v3");
            assert_eq!(to, "v2");
        }
        other => panic!("unexpected {:?}", other),
    }
}

#[test]
fn downgrade_names_the_first_missing_step() {
    let d = chain(vec![false, true]);
    match d.plan(&s("v3"), &s("v1")) {
        Err(MigrationError::UnsupportedMigration { from, to }) => {
            assert_eq!(from, "v2");
            assert_eq!(to, "v1");
        }
        other => panic!("unexpected {:?}", other),
    }
}

#[test]
fn downgrades_run_in_descending_order() {
    let d = chain(vec![true, true]);
    assert_eq!(
        d.plan(&s("v3"), &s("v1")).unwrap(),
        vec![MigrationStep::Downgrade(1), MigrationStep::Downgrade(0)]
    );
    assert_eq!(d.migrate(&s("v3"), &s("v1"), 100, step).unwrap(), 97);
}

#[test]
fn same_version_is_returned_unchanged() {
    let d = chain(vec![false, false]);
    assert_eq!(d.plan(&s("v2"), &s("v2")).unwrap(), vec![]);
    assert_eq!(d.migrate(&s("v2"), &s("v2"), 5, step).unwrap(), 5);
}

#[test]
fn single_version_rejects_other_tags() {
    let d = ExtensionDescriptor::no_migration(s("ext"), s("v1"));
    match d.migrate(&s("v2"), &s("v1"), 1, step) {
        Err(MigrationError::UnknownVersion { version }) => assert_eq!(version, "v2"),
        other => panic!("unexpected {:?}", other),
    }
    assert_eq!(d.migrate(&s("v1"), &s("v1"), 1, step).unwrap(), 1);
}

#[test]
fn unregistered_tag_is_unknown_even_on_a_chain() {
    let d = chain(vec![true, true]);
    match d.plan(&s("v1"), &s("v9")) {
        Err(MigrationError::UnknownVersion { version }) => assert_eq!(version, "v9"),
        other => panic!("unexpected {:?}", other),
    }
}

#[test]
fn failing_step_reports_the_version_reached() {
    let d = chain(vec![false, false]);
    let failing = |st: MigrationStep, v: i64| match st {
        MigrationStep::Upgrade(0) => Ok(v + 1),
        _ => Err("broken".to_string()),
    };
    match d.migrate(&s("v1"), &s("v3"), 0, failing) {
        Err(MigrationError::StepFailed { reached, cause }) => {
            assert_eq!(reached, "v2");
            assert_eq!(cause, "broken");
        }
        other => panic!("unexpected {:?}", other),
    }
}

#[test]
fn registration_refuses_bad_chains() {
    assert_eq!(
        ExtensionDescriptor::linear(s("e"), vec![], vec![]).err(),
        Some(RegistrationError::NoVersions)
    );
    assert_eq!(
        ExtensionDescriptor::linear(s("e"), vec![s("v1"), s("v2"), s("v1")], vec![true, true]).err(),
        Some(RegistrationError::DuplicateVersion(0, 2))
    );
    assert_eq!(
        ExtensionDescriptor::linear(s("e"), vec![s("v1"), s("v2")], vec![]).err(),
        Some(RegistrationError::DowngradeCount)
    );
}

#[test]
fn descriptors_report_name_and_versions() {
    let d = chain(vec![true, false]);
    assert_eq!(d.name(), "ext");
    assert_eq!(d.versions(), &vec![s("v1"), s("v2"), s("v3")]);
    let single = ExtensionDescriptor::no_migration(s("motd"), s("v1"));
    assert_eq!(single.versions(), &vec![s("v1")]);
}
