use bottlerocket_settings::bootstrap::{
    ApiclientCommand, BootstrapCommandsSettingsV1, BootstrapMode, Identifier, SchemaError,
};
use bottlerocket_settings::model::{GenerateResult, SettingsModel};
use bottlerocket_settings::plugin::{BottlerocketSettingsPluginRef, LoadStep};
use bottlerocket_settings::schemas::NvidiaContainerRuntimeSettingsV1;

#[test]
fn test_generate_bootstrap_command_settings() {
    let generated = BootstrapCommandsSettingsV1::generate(None, None).unwrap();

    assert_eq!(
        generated,
        GenerateResult::Complete(BootstrapCommandsSettingsV1 {
            bootstrap_commands: Vec::new(),
        })
    )
}

#[test]
fn test_generate_nvidia_container_runtime() {
    assert_eq!(
        NvidiaContainerRuntimeSettingsV1::generate(None, None).unwrap(),
        GenerateResult::Complete(NvidiaContainerRuntimeSettingsV1 {
            visible_devices_as_volume_mounts: None,
            visible_devices_envvar_when_unprivileged: None,
        })
    )
}

#[test]
fn generate_twice_gives_the_same_defaults() {
    let first = NvidiaContainerRuntimeSettingsV1::generate(None, None).unwrap();
    let second = NvidiaContainerRuntimeSettingsV1::generate(None, None).unwrap();
    assert_eq!(first, second);
    let first = BootstrapCommandsSettingsV1::generate(None, None).unwrap();
    let second = BootstrapCommandsSettingsV1::generate(None, None).unwrap();
    assert_eq!(first, second);
}

#[test]
fn generate_keeps_an_existing_value() {
    let partial = NvidiaContainerRuntimeSettingsV1 {
        visible_devices_as_volume_mounts: Some(true),
        visible_devices_envvar_when_unprivileged: None,
    };
    assert_eq!(
        NvidiaContainerRuntimeSettingsV1::generate(Some(partial), None).unwrap(),
        GenerateResult::Complete(partial)
    );
}

#[test]
fn versions_set_and_validate_accept_anything() {
    assert_eq!(NvidiaContainerRuntimeSettingsV1::get_version(), "v1");
    assert_eq!(BootstrapCommandsSettingsV1::get_version(), "v1");
    let v = NvidiaContainerRuntimeSettingsV1::default();
    assert!(NvidiaContainerRuntimeSettingsV1::set(None, v).is_ok());
    assert!(NvidiaContainerRuntimeSettingsV1::validate(v, None).is_ok());
    assert!(BootstrapCommandsSettingsV1::set(None, BootstrapCommandsSettingsV1::default()).is_ok());
    assert!(BootstrapCommandsSettingsV1::validate(BootstrapCommandsSettingsV1::default(), None).is_ok());
}

#[test]
fn identifiers_allow_letters_digits_dash_and_underscore() {
    assert_eq!(Identifier::new("my-bootstrap_1").unwrap().as_str(), "my-bootstrap_1");
    assert_eq!(
        Identifier::new("bad name"),
        Err(SchemaError::InvalidIdentifier { input: "bad name".to_string() })
    );
    assert!(Identifier::new("caf\u{e9}").is_err());
}

#[test]
fn commands_must_run_apiclient() {
    let ok = ApiclientCommand::new(vec!["apiclient".to_string(), "motd=hello".to_string()]).unwrap();
    assert_eq!(ok.args(), &vec!["apiclient".to_string(), "motd=hello".to_string()]);
    assert_eq!(
        ApiclientCommand::new(vec!["/usr/bin/touch".to_string(), "helloworld".to_string()]),
        Err(SchemaError::InvalidCommand)
    );
    assert_eq!(ApiclientCommand::new(vec![]), Err(SchemaError::InvalidCommand));
    assert_eq!(
        ApiclientCommand::new(vec!["apiclien".to_string()]),
        Err(SchemaError::InvalidCommand)
    );
}

#[test]
fn modes_are_off_once_always() {
    assert_eq!(BootstrapMode::parse("once"), Ok(BootstrapMode::Once));
    assert_eq!(BootstrapMode::parse("off"), Ok(BootstrapMode::Off));
    assert_eq!(BootstrapMode::parse("always"), Ok(BootstrapMode::Always));
    assert_eq!(
        BootstrapMode::parse("twice"),
        Err(SchemaError::InvalidMode { input: "twice".to_string() })
    );
    assert_eq!(BootstrapMode::Always.as_str(), "always");
}

#[test]
fn module_load_is_attempted_once_and_failure_is_kept() {
    let mut plugin = BottlerocketSettingsPluginRef::new();
    assert_eq!(plugin.load(), LoadStep::Attempt);
    assert_eq!(plugin.load(), LoadStep::Pending);
    plugin.record(Err("missing libsettings.so".to_string()));
    for _ in 0..3 {
        assert_eq!(
            plugin.load(),
            LoadStep::Unavailable { reason: "missing libsettings.so".to_string() }
        );
    }
}

#[test]
fn module_load_success_is_kept() {
    let mut plugin = BottlerocketSettingsPluginRef::new();
    assert_eq!(plugin.load(), LoadStep::Attempt);
    plugin.record(Ok(()));
    assert_eq!(plugin.load(), LoadStep::Ready);
    assert_eq!(plugin.load(), LoadStep::Ready);
}
