use shopkeeper::tree::{collect_subtree, tree, FsNode, ResourceTree};

fn leaf(path: &str) -> FsNode {
    FsNode { path: path.as_bytes().to_vec(), children: vec![] }
}

fn node(path: &str, children: Vec<FsNode>) -> FsNode {
    FsNode { path: path.as_bytes().to_vec(), children }
}

fn paths(tree: &ResourceTree) -> Vec<String> {
    tree.paths.iter().map(|p| String::from_utf8(p.clone()).unwrap()).collect()
}

#[test]
fn a_single_entry_is_resource_zero() {
    let index = tree(&leaf("/srv"));
    assert_eq!(paths(&index), vec!["/srv"]);
    assert_eq!(index.len(), 1);
    assert_eq!(index.index_of(b"/srv"), Some(0));
}

#[test]
fn entries_are_numbered_depth_first_parents_first() {
    let root = node(
        "/srv",
        vec![
            node("/srv/b", vec![leaf("/srv/b/y"), node("/srv/b/x", vec![leaf("/srv/b/x/1")])]),
            leaf("/srv/a"),
            node("/srv/c", vec![]),
        ],
    );
    let index = tree(&root);
    assert_eq!(
        paths(&index),
        vec!["/srv", "/srv/b", "/srv/b/y", "/srv/b/x", "/srv/b/x/1", "/srv/a", "/srv/c"]
    );
    assert_eq!(index.len(), 7);
}

#[test]
fn the_reverse_lookup_inverts_the_numbering() {
    let root = node("/srv", vec![node("/srv/sub", vec![leaf("/srv/sub/f")]), leaf("/srv/a.txt")]);
    let index = tree(&root);
    for (id, path) in index.paths.iter().enumerate() {
        assert_eq!(index.index_of(path), Some(id));
    }
    assert_eq!(index.index_of(b"/srv/sub/f"), Some(2));
    assert_eq!(index.index_of(b"/srv/a.txt"), Some(3));
    assert_eq!(index.index_of(b"/srv/missing"), None);
    assert_eq!(index.index_of(b"/srv/sub/"), None);
    assert_eq!(index.index_of(b""), None);
}

#[test]
fn a_path_indexed_twice_is_found_where_it_was_indexed_last() {
    let index = tree(&node("/srv", vec![leaf("/srv/a"), leaf("/srv/b"), leaf("/srv/a")]));
    assert_eq!(index.index_of(b"/srv/a"), Some(3));
    assert_eq!(index.index_of(b"/srv/b"), Some(2));
}

#[test]
fn collect_subtree_appends_to_what_is_there() {
    let mut collected: Vec<Vec<u8>> = vec![b"first".to_vec()];
    collect_subtree(&node("d", vec![leaf("d/x")]), &mut collected);
    assert_eq!(collected, vec![b"first".to_vec(), b"d".to_vec(), b"d/x".to_vec()]);
}
