use bottlerocket_settings::bootstrap::SchemaError;
use bottlerocket_settings::json::{parse_json, DecodeError, Json};
use bottlerocket_settings::kubernetes::{deserialize_node_taints, node_taints_member};

fn taints(text: &str) -> Result<Vec<(String, Vec<String>)>, DecodeError> {
    deserialize_node_taints(&parse_json(text).unwrap())
}

/// The node taints of a settings document, as the settings reader sees them.
fn settings_taints(text: &str) -> Result<Option<Vec<(String, Vec<String>)>>, DecodeError> {
    node_taints_member(&parse_json(text).unwrap())
}

fn get<'a>(t: &'a [(String, Vec<String>)], key: &str) -> &'a Vec<String> {
    &t.iter().find(|(k, _)| k == key).unwrap().1
}

#[test]
fn node_taints_list_representation() {
    let t = settings_taints(
        r#"{"node-taints": {"key1": ["value1:NoSchedule", "value1:NoExecute"], "key2": ["value2:NoSchedule"]}}"#,
    )
    .unwrap()
    .unwrap();
    assert_eq!(
        get(&t, "key1").to_owned(),
        vec!["value1:NoSchedule".to_string(), "value1:NoExecute".to_string()]
    );
    assert_eq!(get(&t, "key2").to_owned(), vec!["value2:NoSchedule".to_string()]);
}

#[test]
fn node_taint_single_representation() {
    let t = settings_taints(
        r#"{"node-taints": {"key1": "value1:NoSchedule", "key2": "value2:NoExecute"}}"#,
    )
    .unwrap()
    .unwrap();
    assert_eq!(get(&t, "key1").to_owned(), vec!["value1:NoSchedule".to_string()]);
    assert_eq!(get(&t, "key2").to_owned(), vec!["value2:NoExecute".to_string()]);
}

#[test]
fn node_taint_none_representation() {
    assert!(settings_taints("{}").unwrap().is_none());
}

#[test]
fn node_taint_empty_list() {
    assert!(settings_taints(r#"{"node-taints": {"key1": []}}"#).is_err());
    assert_eq!(
        taints(r#"{"key1": []}"#),
        Err(DecodeError::EmptyList { name: "key1".to_string() })
    );
}

#[test]
fn node_taint_other_types_are_refused() {
    assert_eq!(taints(r#"{"key1": 3}"#), Err(DecodeError::UnexpectedShape));
    assert_eq!(taints(r#"{"key1": ["a:NoSchedule", 1]}"#), Err(DecodeError::UnexpectedShape));
    assert_eq!(taints(r#"["key1"]"#), Err(DecodeError::UnexpectedShape));
}

#[test]
fn node_taint_values_need_an_effect() {
    assert_eq!(
        taints(r#"{"key1": "no effect here"}"#),
        Err(DecodeError::Invalid(SchemaError::InvalidTaint { input: "no effect here".to_string() }))
    );
    assert!(taints(r#"{"key1": ["value1:NoSchedule", "value1:Sometimes"]}"#).is_err());
    assert!(taints(r#"{"key1": ":NoExecute"}"#).is_ok());
    assert!(taints(r#"{"key1": "bad value!:NoExecute"}"#).is_err());
    assert!(taints(r#"{"key1": "v:PreferNoSchedule"}"#).is_ok());
}

#[test]
fn node_taint_keys_must_be_label_keys() {
    assert!(taints(r#"{"example.com/key-1": "v:NoSchedule"}"#).is_ok());
    assert_eq!(
        taints(r#"{"bad key": "v:NoSchedule"}"#),
        Err(DecodeError::Invalid(SchemaError::InvalidLabelKey { input: "bad key".to_string() }))
    );
    assert!(taints(r#"{"Upper.Case/key": "v:NoSchedule"}"#).is_err());
    assert!(taints(r#"{"-key": "v:NoSchedule"}"#).is_err());
}

#[test]
fn node_taint_labels_must_not_repeat() {
    let taint = |s: &str| Json::Str(s.to_string());
    let doubled = Json::Object(vec![
        ("key1".to_string(), taint("a:NoSchedule")),
        ("key1".to_string(), taint("b:NoSchedule")),
    ]);
    assert_eq!(
        deserialize_node_taints(&doubled),
        Err(DecodeError::Invalid(SchemaError::DuplicateName { input: "key1".to_string() }))
    );
}
