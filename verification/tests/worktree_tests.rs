use jedit::node::{Index, IndexKind, NodeMeta};
use jedit::worktree::{WorkTreeNode, WorkTreeStringIter};

fn obj_index(keys: &[&str]) -> Index {
    Index {
        meta: NodeMeta::null(),
        kind: IndexKind::Object(keys.iter().map(|k| k.to_string()).collect()),
    }
}

fn arr_index(n: usize) -> Index {
    Index { meta: NodeMeta::null(), kind: IndexKind::Array(n) }
}

#[test]
fn work_tree_formatting_test() {
    let mut node = WorkTreeNode::new_empty(String::from("root"));
    node.reindex(0, obj_index(&["a", "b", "c", "d"]), true);
    node.reindex(1, obj_index(&["aa", "ab"]), true);
    node.reindex(4, arr_index(3), true);
    node.reindex(8, arr_index(5), true);
    node.close(8);

    assert_eq!(
        node.as_tree_string(),
        vec![
            String::from("root"),
            String::from("--a"),
            String::from("----aa"),
            String::from("----ab"),
            String::from("--b"),
            String::from("----0"),
            String::from("----1"),
            String::from("----2"),
            String::from("--c"),
            String::from("--d"),
        ]
    );
}

#[test]
fn work_tree_selector_test() {
    let mut node = WorkTreeNode::new_empty(String::from("root"));
    node.reindex(0, obj_index(&["a", "b", "c", "d"]), true);
    node.reindex(1, obj_index(&["aa", "ab"]), true);
    node.reindex(4, arr_index(3), true);

    assert_eq!(node.len(), 10);
    assert_eq!(node.selector(0), Vec::<&str>::new());
    assert_eq!(node.selector(1), vec!["a"]);
    assert_eq!(node.selector(2), vec!["a", "aa"]);
    assert_eq!(node.selector(3), vec!["a", "ab"]);
    assert_eq!(node.selector(4), vec!["b"]);
    assert_eq!(node.selector(5), vec!["b", "0"]);
    assert_eq!(node.selector(8), vec!["c"]);
}

#[test]
fn work_tree_meta_cache_test() {
    let mut node = WorkTreeNode::new_empty(String::from("root"));
    assert!(node.meta(0).is_none());
    node.reindex(0, obj_index(&["a", "b"]), true);
    let cached = node.meta(0).expect("reindex should cache the metadata");
    assert_eq!(cached, NodeMeta::null());
    assert!(node.meta(1).is_none());
    assert!(node.meta(2).is_none());
}

#[test]
fn work_tree_close_keeps_meta_test() {
    let mut node = WorkTreeNode::new_empty(String::from("root"));
    node.reindex(0, obj_index(&["a", "b"]), true);
    assert_eq!(node.len(), 3);
    node.close(0);
    assert_eq!(node.len(), 1);
    assert_eq!(node.meta(0), Some(NodeMeta::null()));
}

#[test]
fn work_tree_rename_test() {
    let mut node = WorkTreeNode::new_empty(String::from("root"));
    node.reindex(0, obj_index(&["a", "b"]), true);
    node.rename(2, String::from("long_name"));
    assert_eq!(
        node.as_tree_string(),
        vec![
            String::from("root"),
            String::from("--a"),
            String::from("--long_name"),
        ]
    );
    assert_eq!(node.selector(2), vec!["long_name"]);
}

#[test]
fn work_tree_delete_renumbers_test() {
    let mut node = WorkTreeNode::new_empty(String::from("root"));
    let meta = Index {
        meta: NodeMeta {
            n_lines: 6,
            n_bytes: 20,
            kind: jedit::node::NodeKind::Array,
        },
        kind: IndexKind::Array(4),
    };
    node.reindex(0, meta, true);
    assert_eq!(node.len(), 5);

    // The document-side metas for the path root..parent of the deleted row.
    node.delete(2, vec![NodeMeta::null()]);

    assert_eq!(
        node.as_tree_string(),
        vec![
            String::from("root"),
            String::from("--0"),
            String::from("--1"),
            String::from("--2"),
        ]
    );
    assert_eq!(node.len(), 4);
    assert_eq!(node.meta(0), Some(NodeMeta::null()));
}

#[test]
fn work_tree_string_iter_test() {
    let mut node = WorkTreeNode::new_empty(String::from("root"));
    node.reindex(0, obj_index(&["a", "b"]), true);
    let mut iter = WorkTreeStringIter::new(&node);
    let mut collected = Vec::new();
    while let Some(row) = iter.next() {
        collected.push(row);
    }
    assert_eq!(collected, node.as_tree_string());
    assert!(iter.next().is_none());
}

#[test]
fn work_tree_rename_patches_meta_test() {
    let mut node = WorkTreeNode::new_empty(String::from("root"));
    let root_index = Index {
        meta: NodeMeta {
            n_lines: 3,
            n_bytes: 20,
            kind: jedit::node::NodeKind::Object,
        },
        kind: IndexKind::Object(vec![String::from("a"), String::from("b")]),
    };
    node.reindex(0, root_index, true);
    // Cache metadata on the row about to be renamed: its own document
    // size excludes its key, so the rename must leave it alone.
    let row_meta = NodeMeta {
        n_lines: 1,
        n_bytes: 4,
        kind: jedit::node::NodeKind::Terminal,
    };
    node.reindex(1, Index { meta: row_meta, kind: IndexKind::Terminal }, false);
    node.rename(1, String::from("xyz"));
    let patched = node.meta(0).expect("root keeps its metadata");
    assert_eq!(patched.n_bytes, 22);
    assert_eq!(patched.n_lines, 3);
    let own = node.meta(1).expect("the renamed row keeps its metadata");
    assert_eq!(own.n_bytes, 4);
    assert_eq!(own.n_lines, 1);
}
