use bottlerocket_settings::defaults::{merge_in_order, merge_sources, order_by_name, DefaultsSource};
use bottlerocket_settings::document::Document;
use bottlerocket_settings::toml_defaults::{generate_defaults, is_toml_file_name, DefaultsError};

fn leaf(v: i64) -> Document<i64> {
    Document::Leaf(v)
}

fn table(entries: Vec<(&str, Document<i64>)>) -> Document<i64> {
    Document::Table(entries.into_iter().map(|(k, v)| (k.to_string(), v)).collect())
}

fn walk(prefix: &str, d: &Document<i64>, out: &mut Vec<(String, String)>) {
    match d {
        Document::Leaf(v) => out.push((prefix.to_string(), v.to_string())),
        Document::Table(entries) => {
            if entries.is_empty() {
                out.push((prefix.to_string(), "{}".to_string()));
            }
            for (k, v) in entries {
                walk(&format!("{}.{}", prefix, k), v, out);
            }
        }
    }
}

/// Every leaf of `d` with its dotted path, in the order of the entries.
fn keys_and_leaves(d: &Document<i64>) -> Vec<(String, String)> {
    let mut out = Vec::new();
    walk("", d, &mut out);
    out
}

#[test]
fn merge_overlay_wins_on_leaves_and_unions_tables() {
    let base = table(vec![("a", leaf(1)), ("b", table(vec![("x", leaf(1))]))]);
    let overlay = table(vec![("b", table(vec![("x", leaf(2)), ("y", leaf(3))]))]);
    let merged = base.merge(overlay);
    let expected = table(vec![("a", leaf(1)), ("b", table(vec![("x", leaf(2)), ("y", leaf(3))]))]);
    assert_eq!(keys_and_leaves(&merged), keys_and_leaves(&expected));
}

#[test]
fn merge_leaf_replaces_table_and_table_replaces_leaf() {
    let base = table(vec![("a", table(vec![("x", leaf(1))])), ("b", leaf(5))]);
    let overlay = table(vec![("a", leaf(7)), ("b", table(vec![("z", leaf(9))]))]);
    let merged = base.merge(overlay);
    let expected = table(vec![("a", leaf(7)), ("b", table(vec![("z", leaf(9))]))]);
    assert_eq!(keys_and_leaves(&merged), keys_and_leaves(&expected));
}

#[test]
fn merge_with_empty_overlay_keeps_base() {
    let base = table(vec![("a", leaf(1)), ("b", table(vec![("x", leaf(1))]))]);
    let expected = keys_and_leaves(&base);
    let merged = base.merge(table(vec![]));
    assert_eq!(keys_and_leaves(&merged), expected);
}

fn source(name: &str, d: Document<i64>) -> DefaultsSource<Document<i64>> {
    DefaultsSource { name: name.to_string(), content: d }
}

#[test]
fn sources_merge_in_name_order_whatever_the_listing() {
    let a = || source("00-a.toml", table(vec![("k", leaf(1)), ("only-a", leaf(10))]));
    let b = || source("10-b.toml", table(vec![("k", leaf(2))]));
    let first = merge_sources(vec![a(), b()]);
    let second = merge_sources(vec![b(), a()]);
    assert_eq!(keys_and_leaves(&first), keys_and_leaves(&second));
    let expected = table(vec![("k", leaf(2)), ("only-a", leaf(10))]);
    assert_eq!(keys_and_leaves(&first), keys_and_leaves(&expected));
}

#[test]
fn ordering_by_name_is_lexicographic_and_stable() {
    let ordered = order_by_name(vec![
        source("b", leaf(1)),
        source("a", leaf(2)),
        source("ab", leaf(3)),
        source("a", leaf(4)),
    ]);
    let names: Vec<(String, i64)> = ordered
        .iter()
        .map(|s| match s.content {
            Document::Leaf(v) => (s.name.clone(), v),
            Document::Table(_) => unreachable!(),
        })
        .collect();
    assert_eq!(
        names,
        vec![
            ("a".to_string(), 2),
            ("a".to_string(), 4),
            ("ab".to_string(), 3),
            ("b".to_string(), 1)
        ]
    );
}

#[test]
fn merging_nothing_gives_an_empty_table() {
    let merged = merge_in_order(Vec::<DefaultsSource<Document<i64>>>::new());
    assert_eq!(keys_and_leaves(&merged), vec![("".to_string(), "{}".to_string())]);
}

#[test]
fn toml_names_are_recognised_by_extension() {
    assert!(is_toml_file_name("00-a.toml"));
    assert!(is_toml_file_name(".toml"));
    assert!(!is_toml_file_name("toml"));
    assert!(!is_toml_file_name("00-a.toml.bak"));
    assert!(!is_toml_file_name("README.md"));
}

#[test]
fn defaults_from_toml_files_later_name_wins() {
    let files = vec![
        ("10-b.toml".to_string(), "[b]\nx = 2\ny = 3\n".to_string()),
        ("00-a.toml".to_string(), "a = 1\n[b]\nx = 1\n".to_string()),
        ("notes.txt".to_string(), "not toml at all [".to_string()),
    ];
    let text = generate_defaults(files).unwrap();
    let value: toml::Value = toml::from_str(&text).unwrap();
    let expected: toml::Value = toml::from_str("a = 1\n[b]\nx = 2\ny = 3\n").unwrap();
    assert_eq!(value, expected);
}

#[test]
fn defaults_sequences_are_replaced_not_concatenated() {
    let files = vec![
        ("00-a.toml".to_string(), "list = [1, 2, 3]\n".to_string()),
        ("01-b.toml".to_string(), "list = [4]\n".to_string()),
    ];
    let text = generate_defaults(files).unwrap();
    let value: toml::Value = toml::from_str(&text).unwrap();
    let expected: toml::Value = toml::from_str("list = [4]\n").unwrap();
    assert_eq!(value, expected);
}

#[test]
fn defaults_report_the_malformed_file() {
    let files = vec![
        ("00-a.toml".to_string(), "a = 1\n".to_string()),
        ("05-bad.toml".to_string(), "a = = 1\n".to_string()),
    ];
    match generate_defaults(files) {
        Err(DefaultsError::InvalidToml { name, .. }) => assert_eq!(name, "05-bad.toml"),
        other => panic!("unexpected {:?}", other),
    }
}

#[test]
fn defaults_of_no_files_is_an_empty_document() {
    let text = generate_defaults(Vec::new()).unwrap();
    let value: toml::Value = toml::from_str(&text).unwrap();
    assert_eq!(value, toml::Value::Table(toml::map::Map::new()));
}

#[test]
fn defaults_report_the_first_bad_file_by_name() {
    let files = vec![
        ("20-worse.toml".to_string(), "b = [".to_string()),
        ("10-bad.toml".to_string(), "a = = 1\n".to_string()),
        ("00-a.toml".to_string(), "a = 1\n".to_string()),
    ];
    match generate_defaults(files) {
        Err(DefaultsError::InvalidToml { name, .. }) => assert_eq!(name, "10-bad.toml"),
        other => panic!("unexpected {:?}", other),
    }
}
