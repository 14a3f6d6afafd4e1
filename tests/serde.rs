use bottlerocket_settings::bootstrap::{
    ApiclientCommand, BootstrapCommand, BootstrapCommandsSettingsV1, BootstrapMode, Identifier,
};
use bottlerocket_settings::json::{parse_json, render_json, DecodeError, Json};
use bottlerocket_settings::schemas::NvidiaContainerRuntimeSettingsV1;

fn value(text: &str) -> serde_json::Value {
    serde_json::from_str(text).unwrap()
}

#[test]
fn test_serde_bootstrap_command() {
    let test_json = r#"{
        "mybootstrap": {
            "commands": [ ["apiclient", "motd=hello"] ],
            "mode": "once",
            "essential": true
        }
    }"#;

    let bootstrap_commands = BootstrapCommandsSettingsV1::deserialize(test_json).unwrap();

    let expected_bootstrap_commands = vec![(
        Identifier::new("mybootstrap").unwrap(),
        BootstrapCommand {
            commands: Some(vec![ApiclientCommand::new(vec![
                "apiclient".to_string(),
                "motd=hello".to_string(),
            ])
            .unwrap()]),
            mode: Some(BootstrapMode::parse("once").unwrap()),
            essential: Some(true),
        },
    )];

    assert_eq!(
        bootstrap_commands,
        BootstrapCommandsSettingsV1 {
            bootstrap_commands: expected_bootstrap_commands
        }
    );

    let serialized_json = value(&bootstrap_commands.serialize());

    assert_eq!(serialized_json, value(test_json));
}

#[test]
fn test_serde_invalid_bootstrap_command() {
    let test_err_json = r#"{
        "mybootstrap1": {
            "commands": [ ["/usr/bin/touch", "helloworld"] ],
            "mode": "once",
            "essential": true
        }
    }"#;

    let bootstrap_commands_err = BootstrapCommandsSettingsV1::deserialize(test_err_json);

    // This has invalid command. It should fail.
    assert!(bootstrap_commands_err.is_err());
}

#[test]
fn test_serde_nvidia_container_runtime() {
    let test_json = r#"{"visible-devices-as-volume-mounts":true,"visible-devices-envvar-when-unprivileged":true}"#;

    let nvidia_runtime = NvidiaContainerRuntimeSettingsV1::deserialize(test_json).unwrap();
    assert_eq!(
        nvidia_runtime,
        NvidiaContainerRuntimeSettingsV1 {
            visible_devices_as_volume_mounts: Some(true),
            visible_devices_envvar_when_unprivileged: Some(true),
        }
    );

    let results = nvidia_runtime.serialize();
    assert_eq!(results, test_json);
}

#[test]
fn empty_bootstrap_commands_serialize_to_an_empty_object() {
    let empty = BootstrapCommandsSettingsV1::default();
    assert_eq!(empty.serialize(), "{}");
}

#[test]
fn bootstrap_commands_text_round_trips() {
    let text = r#"{"job1":{"commands":[["apiclient","motd=hello"]],"mode":"once","essential":true}}"#;
    let first = BootstrapCommandsSettingsV1::deserialize(text).unwrap();
    let rendered = first.serialize();
    assert_eq!(value(&rendered), value(text));
    let second = BootstrapCommandsSettingsV1::deserialize(&rendered).unwrap();
    assert_eq!(first, second);
}

#[test]
fn defaults_and_deserialized_values_round_trip() {
    let d = NvidiaContainerRuntimeSettingsV1::default();
    assert_eq!(d.serialize(), "{}");
    assert_eq!(NvidiaContainerRuntimeSettingsV1::deserialize(&d.serialize()).unwrap(), d);
    let v = NvidiaContainerRuntimeSettingsV1::deserialize(r#"{"visible-devices-envvar-when-unprivileged":false}"#)
        .unwrap();
    assert_eq!(v.visible_devices_as_volume_mounts, None);
    assert_eq!(v.visible_devices_envvar_when_unprivileged, Some(false));
    assert_eq!(NvidiaContainerRuntimeSettingsV1::deserialize(&v.serialize()).unwrap(), v);
    let b = BootstrapCommandsSettingsV1::default();
    assert_eq!(BootstrapCommandsSettingsV1::deserialize(&b.serialize()).unwrap(), b);
}

#[test]
fn nulls_leave_fields_unset() {
    let v = NvidiaContainerRuntimeSettingsV1::deserialize(r#"{"visible-devices-as-volume-mounts":null}"#)
        .unwrap();
    assert_eq!(v, NvidiaContainerRuntimeSettingsV1::default());
    let b = BootstrapCommandsSettingsV1::deserialize(r#"{"a":{"mode":null}}"#).unwrap();
    assert_eq!(b.bootstrap_commands.len(), 1);
    assert_eq!(b.bootstrap_commands[0].1.mode, None);
}

#[test]
fn schema_violations_are_refused() {
    assert_eq!(
        NvidiaContainerRuntimeSettingsV1::deserialize(r#"{"unknown":true}"#),
        Err(DecodeError::UnknownField { name: "unknown".to_string() })
    );
    assert_eq!(
        NvidiaContainerRuntimeSettingsV1::deserialize(r#"{"visible-devices-as-volume-mounts":"yes"}"#),
        Err(DecodeError::UnexpectedShape)
    );
    assert!(matches!(
        NvidiaContainerRuntimeSettingsV1::deserialize("{"),
        Err(DecodeError::Json(_))
    ));
    assert!(matches!(
        BootstrapCommandsSettingsV1::deserialize(r#"{"a":{"mode":"twice"}}"#),
        Err(DecodeError::Invalid(_))
    ));
    assert!(matches!(
        BootstrapCommandsSettingsV1::deserialize(r#"{"bad name":{}}"#),
        Err(DecodeError::Invalid(_))
    ));
    assert_eq!(
        BootstrapCommandsSettingsV1::deserialize(r#"{"a":{"commands":[[1]]}}"#),
        Err(DecodeError::UnexpectedShape)
    );
    assert_eq!(
        BootstrapCommandsSettingsV1::deserialize(r#"{"a":{"extra":1}}"#),
        Err(DecodeError::UnknownField { name: "extra".to_string() })
    );
}

#[test]
fn json_documents_round_trip_through_text() {
    let text = r#"{"a":[1,2.5,"x",null,true],"b":{"c":{}}}"#;
    let j = parse_json(text).unwrap();
    match &j {
        Json::Object(members) => {
            assert_eq!(members.len(), 2);
            assert_eq!(members[0].0, "a");
        }
        other => panic!("unexpected {:?}", other),
    }
    assert_eq!(value(&render_json(j)), value(text));
}

#[test]
fn empty_documents_round_trip_through_text() {
    let j = parse_json("{}").unwrap();
    assert_eq!(render_json(j), "{}");
}

#[test]
fn bootstrap_command_names_must_not_repeat() {
    let doubled = Json::Object(vec![
        ("a".to_string(), Json::Object(vec![])),
        ("a".to_string(), Json::Object(vec![])),
    ]);
    assert!(matches!(
        BootstrapCommandsSettingsV1::from_json(&doubled),
        Err(DecodeError::Invalid(_))
    ));
}
