use keith_shareit::frontend::tree::{tree_parts, LibraryTree};

fn ids(t: &LibraryTree) -> Vec<String> {
    t.nodes.iter().map(|n| n.id.clone()).collect()
}

#[test]
fn tree_parts_skip_empty_pieces() {
    assert_eq!(tree_parts("a//b/"), vec!["a", "b"]);
    assert_eq!(tree_parts(""), Vec::<String>::new());
    assert_eq!(tree_parts("/x"), vec!["x"]);
}

#[test]
fn tree_new_has_only_root() {
    let t = LibraryTree::new("/music".to_string());
    assert_eq!(t.nodes.len(), 1);
    assert_eq!(t.nodes[0].id, "");
    assert_eq!(t.nodes[0].label, "/music");
    assert!(!t.nodes[0].is_leaf);
    assert!(t.nodes[0].children.is_empty());
}

#[test]
fn tree_insert_walk_entries() {
    let mut t = LibraryTree::new("root".to_string());
    for rel in ["", "a", "a/b", "a/b/c.mp3", "a/d.mp3", "e.mp3"] {
        t.insert_relative(rel);
    }
    assert_eq!(ids(&t), vec!["", "a", "a/b", "a/b/c.mp3", "a/d.mp3", "e.mp3"]);
    assert_eq!(t.nodes[0].children, vec![1, 5]);
    assert_eq!(t.nodes[1].children, vec![2, 4]);
    assert_eq!(t.nodes[2].children, vec![3]);
    assert_eq!(t.nodes[3].label, "c.mp3");
    assert!(t.nodes[1].is_leaf);
    assert!(t.nodes[3].is_leaf);
}

#[test]
fn tree_law_reinserting_a_path_adds_nothing() {
    let mut t = LibraryTree::new("root".to_string());
    t.insert_relative("a/b/c");
    let before = ids(&t);
    t.insert_relative("a/b/c");
    t.insert_relative("a/b");
    assert_eq!(ids(&t), before);
}

#[test]
fn tree_inner_node_created_by_deeper_path_is_not_leaf() {
    let mut t = LibraryTree::new("root".to_string());
    t.insert_relative("x/y");
    assert_eq!(ids(&t), vec!["", "x", "x/y"]);
    assert!(!t.nodes[1].is_leaf);
    assert!(t.nodes[2].is_leaf);
    t.insert_path(&vec!["x".to_string(), "z".to_string()]);
    assert_eq!(t.nodes[1].children, vec![2, 3]);
    assert_eq!(t.nodes[3].id, "x/z");
}
