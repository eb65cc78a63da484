use jedit::action::{Action, Actions, ConfirmAction, WorkSpaceAction};
use jedit::error::{IndexingError, LoadError, MutationError};
use jedit::math::Op;
use jedit::node::{AddNodeKey, IndexKind, Node};
use jedit::preview::{number_format, Content, Preview, PreviewState};
use jedit::worktree::WorkTreeNode;

fn load(text: &str) -> Node {
    Node::load(text.as_bytes()).unwrap()
}

fn pretty(node: &Node) -> String {
    node.to_string_pretty().unwrap()
}

#[test]
fn load_normalizes_compact_text_test() {
    // The parser hands over a real parse tree: printing a compact input
    // back out yields the pretty layout, not the input bytes.
    let node = load("{\"a\":1}");
    assert_eq!(pretty(&node), "{\n  \"a\": 1\n}");
}

#[test]
fn load_rejects_malformed_text_test() {
    assert!(matches!(
        Node::load(b"{\"a\":"),
        Err(LoadError::SerdeJson(_))
    ));
    assert!(matches!(Node::load(b""), Err(LoadError::SerdeJson(_))));
}

#[test]
fn delete_renumbers_array_test() {
    // Deleting element 1 of [a,b,c,d] leaves three elements in their
    // original relative order, addressed as 0, 1 and 2 again.
    let mut doc = load("[\n  \"a\",\n  \"b\",\n  \"c\",\n  \"d\"\n]");
    let mut view = WorkTreeNode::new_empty(String::from("root"));
    view.reindex(0, doc.as_index(), true);
    assert_eq!(view.len(), 5);

    let selector = view.selector(2);
    assert_eq!(selector, vec!["1"]);
    doc.delete(&selector).unwrap();
    let parent_metas = doc.metas(&[]).unwrap();
    view.delete(2, parent_metas);

    assert_eq!(pretty(&doc), "[\n  \"a\",\n  \"c\",\n  \"d\"\n]");
    assert_eq!(
        view.as_tree_string(),
        vec![
            String::from("root"),
            String::from("--0"),
            String::from("--1"),
            String::from("--2"),
        ]
    );
    // The renumbered rows address the renumbered document entries.
    assert_eq!(pretty(doc.subtree(&view.selector(2)).unwrap()), "\"c\"");
}

#[test]
fn expand_and_write_back_subtree_test() {
    // Expanding the root and then the "values" row addresses the array,
    // and writing that subtree back yields exactly its pretty text.
    let doc = load("{\n  \"key\": \"string\",\n  \"values\": [\n    1,\n    2,\n    3\n  ]\n}");
    let mut view = WorkTreeNode::new_empty(String::from("root"));
    view.reindex(0, doc.as_index(), true);
    assert_eq!(
        view.as_tree_string(),
        vec![
            String::from("root"),
            String::from("--key"),
            String::from("--values"),
        ]
    );

    let selector = view.selector(2);
    let subtree = doc.subtree(&selector).unwrap();
    view.reindex(2, subtree.as_index(), true);
    assert_eq!(view.len(), 6);

    assert_eq!(pretty(subtree), "[\n  1,\n  2,\n  3\n]");
}

#[test]
fn append_first_and_second_key_sizes_test() {
    // An empty object has the canonical two-character body; a single-key
    // object has the sizes the append formula must produce; appending a
    // second key must not fall back to the empty-container formula.
    let empty = load("{}");
    assert_eq!(empty.as_index().meta.n_lines, 1);
    assert_eq!(empty.as_index().meta.n_bytes, 2);

    let mut single = load("{\n  \"k\": null\n}");
    assert_eq!(single.as_index().meta.n_lines, 3);
    assert_eq!(single.as_index().meta.n_bytes, 15);
    assert_eq!(pretty(&single).len(), 15);

    single
        .append_after(&["k"], AddNodeKey::Object(String::from("x")), Node::null())
        .unwrap();
    let text = pretty(&single);
    assert_eq!(text, "{\n  \"k\": null,\n  \"x\": null\n}");
    assert_eq!(single.as_index().meta.n_bytes, text.len());
    assert_eq!(single.as_index().meta.n_lines, text.lines().count());
}

#[test]
fn append_duplicate_key_changes_nothing_test() {
    let mut doc = load("{\n  \"a\": 1,\n  \"b\": 2\n}");
    let before = pretty(&doc);
    let res = doc.append_after(&["a"], AddNodeKey::Object(String::from("b")), Node::null());
    assert!(matches!(res, Err(MutationError::DuplicateKey)));
    assert_eq!(pretty(&doc), before);
}

#[test]
fn rename_to_same_name_is_idempotent_test() {
    // Renaming a key to its current name succeeds and leaves the
    // document unchanged, not a duplicate-key error.
    let mut doc = load("{\n  \"a\": 1,\n  \"b\": 2\n}");
    let before = pretty(&doc);
    doc.rename(&["a"], String::from("a")).unwrap();
    assert_eq!(pretty(&doc), before);
}

#[test]
fn rename_collision_test() {
    let mut doc = load("{\n  \"a\": 1,\n  \"b\": 2\n}");
    assert!(matches!(
        doc.rename(&["a"], String::from("b")),
        Err(MutationError::DuplicateKey)
    ));
}

#[test]
fn rename_array_element_test() {
    let mut doc = load("[\n  1,\n  2\n]");
    assert!(matches!(
        doc.rename(&["0"], String::from("x")),
        Err(MutationError::NotRenameable)
    ));
}

#[test]
fn mutation_error_taxonomy_test() {
    let mut doc = load("{\n  \"a\": 1\n}");
    // Descending through a terminal value.
    assert!(matches!(
        doc.subtree(&["a", "deep"]),
        Err(IndexingError::NotIndexable)
    ));
    // The root has no parent to delete it from.
    assert!(matches!(
        doc.delete(&[]),
        Err(MutationError::Indexing(IndexingError::NotIndexable))
    ));
    // A key that is not there.
    match doc.delete(&["missing"]) {
        Err(MutationError::Indexing(IndexingError::MissingKey(k))) => assert_eq!(k, "missing"),
        _ => panic!("deleting an absent key should fail"),
    }
    // An array index that does not parse resolves to nothing.
    let mut arr = load("[\n  1\n]");
    assert!(matches!(
        arr.delete(&["one"]),
        Err(MutationError::Indexing(IndexingError::MissingKey(_)))
    ));
    // An out-of-range index resolves to nothing.
    assert!(matches!(
        arr.delete(&["7"]),
        Err(MutationError::Indexing(IndexingError::MissingKey(_)))
    ));
}

#[test]
fn metas_along_path_test() {
    let doc = load("{\n  \"values\": [\n    1,\n    2,\n    3\n  ]\n}");
    let metas = doc.metas(&["values", "1"]).unwrap();
    assert_eq!(metas.len(), 3);
    assert_eq!(metas[0].n_lines, 7);
    assert_eq!(metas[1].n_lines, 5);
    assert_eq!(metas[2].n_lines, 1);
    assert_eq!(metas[2].n_bytes, 1);
}

#[test]
fn replace_updates_ancestor_sizes_test() {
    let mut doc = load("{\n  \"nested\": {\n    \"key\": \"value\"\n  }\n}");
    doc.replace(&["nested", "key"], load("[\n  1,\n  2\n]"))
        .unwrap();
    let text = pretty(&doc);
    assert_eq!(
        text,
        "{\n  \"nested\": {\n    \"key\": [\n      1,\n      2\n    ]\n  }\n}"
    );
    assert_eq!(doc.as_index().meta.n_bytes, text.len());
    assert_eq!(doc.as_index().meta.n_lines, text.lines().count());
}

#[test]
fn index_selectors_accept_plus_and_zeros_test() {
    // Array segments are read like machine integers: leading zeros and a
    // plus sign are accepted, anything else is a missing key.
    let doc = load("[\n  10,\n  20\n]");
    assert_eq!(pretty(doc.subtree(&["01"]).unwrap()), "20");
    assert_eq!(pretty(doc.subtree(&["+1"]).unwrap()), "20");
    assert!(matches!(
        doc.subtree(&["1.5"]),
        Err(IndexingError::MissingKey(_))
    ));
    assert!(matches!(
        doc.subtree(&["99999999999999999999999999"]),
        Err(IndexingError::MissingKey(_))
    ));
}

#[test]
fn actions_in_order_test() {
    let mut actions = Actions::new();
    actions.push(Action::Workspace(WorkSpaceAction::Edit));
    actions.push(Action::Exit(ConfirmAction::Request(())));
    assert!(matches!(
        actions.next(),
        Some(Action::Workspace(WorkSpaceAction::Edit))
    ));
    assert!(matches!(
        actions.next(),
        Some(Action::Exit(ConfirmAction::Request(())))
    ));
    assert!(matches!(actions.next(), None));
}

#[test]
fn preview_state_scroll_test() {
    let mut state = PreviewState::new();
    state.scroll_down();
    state.scroll_down();
    assert_eq!(state.y(), 10);
    state.scroll_up();
    assert_eq!(state.y(), 5);
    state.scroll_up();
    state.scroll_up();
    assert_eq!(state.y(), 0);
    state.scroll_right();
    assert_eq!(state.x(), 5);
    state.scroll_left();
    state.scroll_left();
    assert_eq!(state.x(), 0);
}

#[test]
fn preview_content_measures_test() {
    let preview = Preview::new(Some(String::from("alpha\nlonger line\nend")));
    match preview.content() {
        Some(c) => {
            assert_eq!(c.n_lines(), 3);
            assert_eq!(c.width(), 11);
        }
        None => panic!("content should be measured"),
    }
    let trailing = Content::new(String::from("one\ntwo\n"));
    assert_eq!(trailing.n_lines(), 2);
    let empty = Content::new(String::new());
    assert_eq!(empty.n_lines(), 0);
    assert_eq!(empty.width(), 0);
}

#[test]
fn number_format_test() {
    assert_eq!(number_format(7, 3), "  7");
    assert_eq!(number_format(123, 3), "123");
    assert_eq!(number_format(1234, 3), "1234");
    assert_eq!(number_format(0, 4), "   0");
}

#[test]
fn op_steps_test() {
    assert_eq!(Op::Add(1).exec_on(13), 15);
    assert_eq!(Op::Sub(1).exec_on(13), 5);
    assert_eq!(Op::Sub(3).exec_on(7), 0);
    assert_eq!(Op::Add(2).exec_on(0), 10);
}

#[test]
fn large_document_round_trip_test() {
    let mut body = String::from("{");
    for i in 0..200 {
        if i > 0 {
            body.push(',');
        }
        body.push_str(&format!("\"key{i}\":[{i},{}]", i * 2));
    }
    body.push('}');
    let node = load(&body);
    let text = pretty(&node);
    assert_eq!(node.as_index().meta.n_bytes, text.len());
    assert_eq!(node.as_index().meta.n_lines, text.lines().count());
    let reloaded = load(&text);
    assert_eq!(pretty(&reloaded), text);
}

#[test]
fn view_selector_resolves_in_document_test() {
    // Every materialized row's selector resolves in the document, and
    // the flat list is exactly len() rows long.
    let doc = load(
        "{\n  \"a\": {\n    \"b\": [\n      1,\n      2\n    ]\n  },\n  \"c\": null\n}",
    );
    let mut view = WorkTreeNode::new_empty(String::from("root"));
    view.reindex(0, doc.as_index(), true);
    let sel = view.selector(1);
    view.reindex(1, doc.subtree(&sel).unwrap().as_index(), true);
    let sel = view.selector(2);
    view.reindex(2, doc.subtree(&sel).unwrap().as_index(), true);

    let rows = view.as_tree_string();
    assert_eq!(rows.len(), view.len());
    for i in 0..view.len() {
        let selector = view.selector(i);
        assert!(doc.subtree(&selector).is_ok());
    }
    match doc.subtree(&view.selector(4)).unwrap().as_index().kind {
        IndexKind::Terminal => {}
        _ => panic!("row 4 should be the second array element"),
    }
}

#[test]
fn loading_text_test() {
    let loading = jedit::loading::Loading::new();
    let text = loading.loading_text();
    assert!(text.starts_with("Loading"));
    assert!(text.len() <= "Loading".len() + 3);
}
