use jedit::error::{IndexingError, MutationError};
use jedit::node::{AddNodeKey, IndexKind, Node, NodeKind};

static RAW_JSON: &str = r#"{
  "string": "something",
  "int": 123,
  "float": 100.3,
  "bool": true,
  "other_bool": false,
  "null": null,
  "array": [
    1,
    2,
    3.0
  ],
  "nested_object": {
    "key": "value"
  }
}"#;

fn load(text: &str) -> Node {
    Node::load(text.as_bytes()).unwrap()
}

fn pretty(node: &Node) -> String {
    node.to_string_pretty().unwrap()
}

/// Checks the cached sizes of every node in the tree against the
/// re-serialized text, the oracle the size formulas must reproduce.
fn assert_all_meta(node: &Node) {
    let text = pretty(node);
    let index = node.as_index();
    assert_eq!(text.lines().count(), index.meta.n_lines);
    assert_eq!(text.len(), index.meta.n_bytes);
    match &index.kind {
        IndexKind::Terminal => {}
        IndexKind::Array(n) => {
            for i in 0..*n {
                let seg = i.to_string();
                let child = node.subtree(&[seg.as_str()]).unwrap();
                assert_all_meta(child);
            }
        }
        IndexKind::Object(keys) => {
            for key in keys {
                let child = node.subtree(&[key.as_str()]).unwrap();
                assert_all_meta(child);
            }
        }
    }
}

#[test]
fn round_tripe_test() {
    let res = Node::load(RAW_JSON.as_bytes())
        .unwrap()
        .to_string_pretty()
        .unwrap();
    assert_eq!(res, RAW_JSON);
}

#[test]
fn node_meta_test() {
    let node = load(RAW_JSON);
    assert_all_meta(&node);

    let index = node.as_index();
    match index.kind {
        IndexKind::Object(keys) => assert_eq!(
            keys,
            vec![
                "string",
                "int",
                "float",
                "bool",
                "other_bool",
                "null",
                "array",
                "nested_object",
            ]
        ),
        _ => panic!("root should be an object"),
    }
}

#[test]
fn empty_node_meta_test() {
    for text in ["[]", "{}", "null", "[\n  null\n]", "\"\"", "[\n  \"\"\n]"] {
        let node = load(text);
        assert_all_meta(&node);
    }
}

#[test]
fn keys_test() {
    let node = load(RAW_JSON);

    let root = node.subtree(&[]).unwrap().as_index();
    assert_eq!(root.meta.n_lines, 16);
    assert_eq!(root.meta.n_bytes, 199);
    assert_eq!(root.meta.kind, NodeKind::Object);

    let array = node.subtree(&["array"]).unwrap().as_index();
    assert_eq!(array.meta.n_lines, 5);
    assert_eq!(array.meta.n_bytes, 19);
    assert_eq!(array.meta.kind, NodeKind::Array);
    assert!(matches!(array.kind, IndexKind::Array(3)));

    let first = node.subtree(&["array", "0"]).unwrap().as_index();
    assert_eq!(first.meta.n_lines, 1);
    assert_eq!(first.meta.n_bytes, 1);
    assert_eq!(first.meta.kind, NodeKind::Terminal);

    let nested = node.subtree(&["nested_object"]).unwrap().as_index();
    assert_eq!(nested.meta.n_lines, 3);
    assert_eq!(nested.meta.n_bytes, 20);
    match nested.kind {
        IndexKind::Object(keys) => assert_eq!(keys, vec!["key"]),
        _ => panic!("nested_object should be an object"),
    }

    let leaf = node.subtree(&["nested_object", "key"]).unwrap().as_index();
    assert_eq!(leaf.meta.n_lines, 1);
    assert_eq!(leaf.meta.n_bytes, 7);

    let int = node.subtree(&["int"]).unwrap().as_index();
    assert_eq!(int.meta.n_lines, 1);
    assert_eq!(int.meta.n_bytes, 3);
    assert_eq!(int.meta.kind, NodeKind::Terminal);

    assert!(matches!(
        node.subtree(&["int", "2"]),
        Err(IndexingError::NotIndexable)
    ));
    match node.subtree(&["nested_object", "not_found"]) {
        Err(IndexingError::MissingKey(key)) => assert_eq!(key, "not_found"),
        _ => panic!("lookup of an absent key should fail"),
    }
}

#[test]
fn replace_test() {
    let mut node = load(
        r#"{
  "a": "x",
  "b": "x",
  "nested": {
    "key": "value"
  },
  "array": [
    1,
    2,
    3
  ]
}"#,
    );
    let new_node = load("[\n  \"cat\",\n  \"dog\"\n]");
    let replaced = node.replace(&["nested", "key"], new_node).unwrap();

    assert_eq!(pretty(&replaced), "\"value\"");
    assert_eq!(
        pretty(&node),
        r#"{
  "a": "x",
  "b": "x",
  "nested": {
    "key": [
      "cat",
      "dog"
    ]
  },
  "array": [
    1,
    2,
    3
  ]
}"#
    );
    assert_all_meta(&node);
}

#[test]
fn rename_test() {
    let mut node = load(
        r#"{
  "a": "x",
  "b": "x",
  "nested": {
    "key": "value",
    "other_key": "other_value",
    "tail": "tail_value"
  },
  "array": [
    1,
    2,
    3
  ]
}"#,
    );
    node.rename(&["nested", "other_key"], String::from("new_key"))
        .unwrap();

    assert_eq!(
        pretty(&node),
        r#"{
  "a": "x",
  "b": "x",
  "nested": {
    "key": "value",
    "new_key": "other_value",
    "tail": "tail_value"
  },
  "array": [
    1,
    2,
    3
  ]
}"#
    );
    assert_all_meta(&node);
}

#[test]
fn delete_from_array_test() {
    let mut node = load("{\n  \"array\": [\n    1,\n    2,\n    3\n  ]\n}");
    node.delete(&["array", "0"]).unwrap();
    assert_eq!(pretty(&node), "{\n  \"array\": [\n    2,\n    3\n  ]\n}");
    assert_all_meta(&node);
}

#[test]
fn delete_from_array_last_test() {
    let mut node = load("{\n  \"array\": [\n    1,\n    2,\n    3\n  ]\n}");
    node.delete(&["array", "2"]).unwrap();
    assert_eq!(pretty(&node), "{\n  \"array\": [\n    1,\n    2\n  ]\n}");
    assert_all_meta(&node);
}

#[test]
fn delete_from_array_empty_test() {
    let mut node = load("{\n  \"array\": [\n    1,\n    2,\n    3\n  ]\n}");
    for _ in 0..3 {
        node.delete(&["array", "0"]).unwrap();
    }
    assert_eq!(pretty(&node), "{\n  \"array\": []\n}");
    assert_all_meta(&node);
}

#[test]
fn delete_from_array_object_test() {
    let mut node = load(
        "{\n  \"array\": [\n    1,\n    {\n      \"key\": \"value\"\n    },\n    3\n  ]\n}",
    );
    node.delete(&["array", "1"]).unwrap();
    assert_eq!(pretty(&node), "{\n  \"array\": [\n    1,\n    3\n  ]\n}");
    assert_all_meta(&node);
}

#[test]
fn delete_from_object_test() {
    let mut node = load(
        "{\n  \"key\": \"1\",\n  \"other_key\": \"2\",\n  \"new_key\": {\n    \"nested\": \"value\"\n  }\n}",
    );
    node.delete(&["key"]).unwrap();
    assert_eq!(
        pretty(&node),
        "{\n  \"other_key\": \"2\",\n  \"new_key\": {\n    \"nested\": \"value\"\n  }\n}"
    );
    assert_all_meta(&node);
}

#[test]
fn delete_from_object_nested_test() {
    let mut node = load(
        "{\n  \"key\": \"1\",\n  \"other_key\": \"2\",\n  \"new_key\": {\n    \"nested\": \"value\"\n  }\n}",
    );
    node.delete(&["new_key"]).unwrap();
    assert_eq!(pretty(&node), "{\n  \"key\": \"1\",\n  \"other_key\": \"2\"\n}");
    assert_all_meta(&node);
}

#[test]
fn delete_from_object_empty_test() {
    let mut node = load(
        "{\n  \"key\": \"1\",\n  \"other_key\": \"2\",\n  \"new_key\": {\n    \"nested\": \"value\"\n  }\n}",
    );
    node.delete(&["new_key"]).unwrap();
    node.delete(&["key"]).unwrap();
    node.delete(&["other_key"]).unwrap();
    assert_eq!(pretty(&node), "{}");
    assert_all_meta(&node);
}

#[test]
fn append_after_into_object() {
    let mut node = load(
        "{\n  \"key\": \"1\",\n  \"other_key\": \"2\",\n  \"new_key\": {\n    \"nested\": \"value\"\n  }\n}",
    );
    node.append_after(
        &["other_key"],
        AddNodeKey::Object(String::from("k")),
        load("true"),
    )
    .unwrap();
    assert!(matches!(
        node.append_after(
            &["new_key"],
            AddNodeKey::Object(String::from("k")),
            load("true"),
        ),
        Err(MutationError::DuplicateKey)
    ));

    assert_eq!(
        pretty(&node),
        "{\n  \"key\": \"1\",\n  \"other_key\": \"2\",\n  \"k\": true,\n  \"new_key\": {\n    \"nested\": \"value\"\n  }\n}"
    );
    assert_all_meta(&node);
}

#[test]
fn append_after_into_array() {
    let mut node = load(
        "{\n  \"key\": \"1\",\n  \"other_key\": \"2\",\n  \"new_key\": [\n    true,\n    \"false\"\n  ]\n}",
    );
    node.append_after(&["new_key", "0"], AddNodeKey::Array, Node::null())
        .unwrap();
    node.append_after(&["new_key", "2"], AddNodeKey::Array, Node::null())
        .unwrap();

    assert_eq!(
        pretty(&node),
        "{\n  \"key\": \"1\",\n  \"other_key\": \"2\",\n  \"new_key\": [\n    true,\n    null,\n    \"false\",\n    null\n  ]\n}"
    );
    assert_all_meta(&node);
}
