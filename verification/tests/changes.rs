use amethystate::changes::{delete_node, levels, set_node};
use amethystate::declared::Declared;
use amethystate::document::{diff_documents, generic_get, generic_set, Node, Occupied};
use amethystate::events::StoreOp;
use amethystate::meta::Role;
use amethystate::path::StorePath;

fn path(joined: &str) -> StorePath {
    let levels: Vec<&str> = joined.split('.').collect();
    StorePath::from_segments(&levels)
}

fn doc(entries: &[(&str, &[u8])]) -> Node {
    let mut root = Node::empty_level();
    for (at, bytes) in entries {
        generic_set(&mut root, &path(at), Node::leaf(bytes.to_vec())).unwrap();
    }
    root
}

fn bytes(n: &Option<Node>) -> Option<Vec<u8>> {
    n.as_ref().and_then(|n| n.value().cloned())
}

#[test]
fn writing_what_already_stands_tells_nobody() {
    let mut d = doc(&[("ui.theme", b"dark")]);
    let told = set_node(&mut d, &path("ui.theme"), &path("ui.theme"), Node::leaf(b"dark".to_vec()), 3).unwrap();
    assert!(told.is_none());
}

#[test]
fn a_write_carries_what_stood_there_and_what_stands_now() {
    let mut d = doc(&[("ui.theme", b"dark")]);
    let told = set_node(&mut d, &path("ui.theme"), &path("ui.theme"), Node::leaf(b"light".to_vec()), 3).unwrap().unwrap();
    assert_eq!(told.op, StoreOp::Put);
    assert_eq!(told.path, path("ui.theme"));
    assert_eq!(bytes(&told.old), Some(b"dark".to_vec()));
    assert_eq!(bytes(&told.new), Some(b"light".to_vec()));
    assert_eq!(told.at, 3);
    assert!(!told.from_disk);

    let fresh = set_node(&mut d, &path("ui.size"), &path("ui.size"), Node::leaf(b"9".to_vec()), 4).unwrap().unwrap();
    assert!(fresh.old.is_none());
    assert_eq!(generic_get(&d, &path("ui.size")).and_then(|n| n.value().cloned()), Some(b"9".to_vec()));
}

#[test]
fn a_write_the_document_refuses_touches_nothing() {
    let mut d = doc(&[("ui", b"flat")]);
    let refused = set_node(&mut d, &path("ui.theme"), &path("ui.theme"), Node::leaf(b"x".to_vec()), 1);
    assert_eq!(refused.err(), Some(Occupied::Value { level: path("ui") }));
}

#[test]
fn two_readings_that_agree_differ_in_nothing() {
    let a = doc(&[("ui.theme", b"dark"), ("net.port", b"80")]);
    let b = doc(&[("ui.theme", b"dark"), ("net.port", b"80")]);
    assert!(diff_documents(&a, &b, &Declared::new(), 5).is_empty());
}

#[test]
fn each_value_that_moved_is_told_once() {
    let before = doc(&[("ui.theme", b"dark"), ("ui.size", b"10"), ("net.port", b"80")]);
    let after = doc(&[("ui.theme", b"light"), ("net.port", b"80"), ("net.host", b"h")]);
    let told = diff_documents(&before, &after, &Declared::new(), 5);

    let seen: Vec<(Vec<String>, bool, Option<Vec<u8>>, Option<Vec<u8>>)> = told
        .iter()
        .map(|e| {
            assert_eq!(e.at, 5);
            assert!(e.from_disk);
            (e.path.segments.clone(), e.op == StoreOp::Put, bytes(&e.old), bytes(&e.new))
        })
        .collect();
    // in path order, as told
    let s = |x: &str| x.split('.').map(String::from).collect::<Vec<_>>();
    assert_eq!(
        seen,
        vec![
            (s("net.host"), true, None, Some(b"h".to_vec())),
            (s("ui.size"), false, Some(b"10".to_vec()), None),
            (s("ui.theme"), true, Some(b"dark".to_vec()), Some(b"light".to_vec())),
        ]
    );
}

#[test]
fn a_declared_field_is_told_whole() {
    let declared = Declared::of_places(vec![(path("ui"), Role::Field)]);
    let before = doc(&[("ui.theme", b"dark"), ("ui.size", b"10")]);
    let after = doc(&[("ui.theme", b"light"), ("ui.size", b"10")]);
    let told = diff_documents(&before, &after, &declared, 1);
    assert_eq!(told.len(), 1);
    assert_eq!(told[0].path, path("ui"));
    assert_eq!(told[0].op, StoreOp::Put);
}

#[test]
fn a_delete_tells_of_what_stood_there_and_puts_back_a_declared_map() {
    let declared = Declared::of_places(vec![(path("ui.recent"), Role::Entries)]);
    let mut d = doc(&[("ui.recent.one", b"1")]);
    let done = delete_node(&mut d, &declared, &path("ui.recent.one"), &path("ui.recent.one"), 7).unwrap();
    let e = done.event.unwrap();
    assert_eq!(e.op, StoreOp::Delete);
    assert_eq!(e.path, path("ui.recent.one"));
    assert_eq!(bytes(&e.old), Some(b"1".to_vec()));
    assert!(e.new.is_none());
    assert_eq!(e.at, 7);
    assert_eq!(done.put_back, Some(path("ui.recent")));
    assert!(generic_get(&d, &path("ui.recent")).unwrap().is_level());
}

#[test]
fn a_delete_of_nothing_tells_nobody() {
    let mut d = doc(&[("ui.theme", b"dark")]);
    let done = delete_node(&mut d, &Declared::new(), &path("ui.size"), &path("ui.size"), 2).unwrap();
    assert!(done.event.is_none());
    assert!(done.put_back.is_none());
    assert_eq!(generic_get(&d, &path("ui.theme")).and_then(|n| n.value().cloned()), Some(b"dark".to_vec()));
}

#[test]
fn a_declared_path_is_written_where_it_is_and_any_other_as_a_whole_key() {
    let declared = Declared::of_places(vec![(path("ui.theme"), Role::Field)]);
    let mut d = Node::empty_level();
    assert_eq!(levels(&d, &declared, &path("ui.theme"), "ui.theme", false), path("ui.theme"));
    assert_eq!(levels(&d, &declared, &path("ui"), "ui", false), path("ui"));
    assert_eq!(levels(&d, &declared, &StorePath::root(), "", false), StorePath::root());
    assert_eq!(levels(&d, &declared, &path("net.port"), "net.port", false), StorePath::segment("net.port"));

    generic_set(&mut d, &StorePath::segment("a b"), Node::leaf(b"1".to_vec())).unwrap();
    assert_eq!(levels(&d, &declared, &StorePath::segment("a b"), "a\\ b", true), StorePath::segment("a b"), "the bare name the file holds");
    assert_eq!(levels(&d, &declared, &StorePath::segment("a b"), "a\\ b", false), StorePath::segment("a\\ b"));
}

#[test]
fn a_write_at_a_whole_key_is_told_under_the_name_the_caller_gave() {
    let mut d = Node::empty_level();
    let told = set_node(&mut d, &StorePath::segment("net.port"), &path("net.port"), Node::leaf(b"80".to_vec()), 1).unwrap().unwrap();
    assert_eq!(told.path, path("net.port"));
    assert!(generic_get(&d, &StorePath::segment("net.port")).is_some());
    assert!(generic_get(&d, &path("net.port")).is_none());
}
