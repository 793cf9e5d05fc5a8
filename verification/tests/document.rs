use amethystate::document::{
    generic_delete, generic_delete_subtree, generic_get, generic_scan, generic_scan_keys,
    generic_set, Node, Occupied,
};
use amethystate::path::StorePath;

fn path(joined: &str) -> StorePath {
    if joined.is_empty() {
        return StorePath::root();
    }
    let levels: Vec<&str> = joined.split('.').collect();
    StorePath::from_segments(&levels)
}

fn value(bytes: &[u8]) -> Node {
    Node::leaf(bytes.to_vec())
}

fn read(root: &Node, at: &str) -> Option<Vec<u8>> {
    generic_get(root, &path(at)).and_then(|n| n.value().cloned())
}

fn names(root: &Node, at: &str) -> Vec<String> {
    generic_scan_keys(root, &path(at))
        .iter()
        .map(|p| p.segments.join("."))
        .collect()
}

#[test]
fn a_write_reads_back_and_makes_the_levels_on_its_way() {
    let mut doc = Node::empty_level();
    generic_set(&mut doc, &path("ui.theme.name"), value(b"dark")).unwrap();

    assert_eq!(read(&doc, "ui.theme.name"), Some(b"dark".to_vec()));
    assert!(generic_get(&doc, &path("ui")).unwrap().is_level());
    assert!(generic_get(&doc, &path("ui.theme")).unwrap().is_level());
    assert_eq!(read(&doc, "ui.other"), None);
    assert!(generic_get(&doc, &path("ui.other")).is_none());
}

#[test]
fn a_second_write_replaces_the_first_where_it_stood() {
    let mut doc = Node::empty_level();
    generic_set(&mut doc, &path("a"), value(b"1")).unwrap();
    generic_set(&mut doc, &path("b"), value(b"2")).unwrap();
    generic_set(&mut doc, &path("a"), value(b"3")).unwrap();

    assert_eq!(read(&doc, "a"), Some(b"3".to_vec()));
    assert_eq!(names(&doc, ""), ["a", "b"], "the file's order is kept");
}

#[test]
fn a_value_on_the_way_refuses_the_write() {
    let mut doc = Node::empty_level();
    generic_set(&mut doc, &path("ui"), value(b"1")).unwrap();

    let refused = generic_set(&mut doc, &path("ui.theme.name"), value(b"x")).unwrap_err();
    assert_eq!(refused, Occupied::Value { level: path("ui") });
    assert_eq!(read(&doc, "ui"), Some(b"1".to_vec()), "nothing was touched");
}

#[test]
fn a_value_over_a_level_holding_values_is_refused() {
    let mut doc = Node::empty_level();
    generic_set(&mut doc, &path("ui.theme"), value(b"dark")).unwrap();

    let refused = generic_set(&mut doc, &path("ui"), value(b"x")).unwrap_err();
    assert_eq!(refused, Occupied::Branch { level: path("ui") });
    assert_eq!(read(&doc, "ui.theme"), Some(b"dark".to_vec()));

    generic_set(&mut doc, &path("ui"), Node::empty_level()).expect("a level may replace a level");
    assert_eq!(read(&doc, "ui.theme"), None);
}

#[test]
fn a_value_may_replace_a_level_holding_nothing() {
    let mut doc = Node::empty_level();
    generic_set(&mut doc, &path("ui"), Node::empty_level()).unwrap();
    generic_set(&mut doc, &path("ui"), value(b"1")).unwrap();
    assert_eq!(read(&doc, "ui"), Some(b"1".to_vec()));
}

#[test]
fn writing_at_the_root_replaces_the_document() {
    let mut doc = Node::empty_level();
    generic_set(&mut doc, &path("a"), value(b"1")).unwrap();
    generic_set(&mut doc, &StorePath::root(), Node::empty_level()).unwrap();
    assert!(names(&doc, "").is_empty());
}

#[test]
fn a_delete_takes_the_levels_it_emptied_with_it() {
    let mut doc = Node::empty_level();
    generic_set(&mut doc, &path("keep"), value(b"k")).unwrap();
    generic_set(&mut doc, &path("a.b.c"), value(b"v")).unwrap();

    let gone = generic_delete(&mut doc, &path("a.b.c")).expect("it stood there");
    assert_eq!(gone.value(), Some(&b"v".to_vec()));
    assert!(generic_get(&doc, &path("a")).is_none(), "the levels it emptied went with it");
    assert_eq!(names(&doc, ""), ["keep"]);
}

#[test]
fn a_delete_stops_at_a_level_that_still_holds_something() {
    let mut doc = Node::empty_level();
    generic_set(&mut doc, &path("a.b.c"), value(b"1")).unwrap();
    generic_set(&mut doc, &path("a.x"), value(b"2")).unwrap();

    generic_delete(&mut doc, &path("a.b.c")).unwrap();
    assert!(generic_get(&doc, &path("a.b")).is_none());
    assert_eq!(names(&doc, "a"), ["a.x"]);
}

#[test]
fn a_level_written_empty_and_never_added_to_is_left_alone() {
    let mut doc = Node::empty_level();
    generic_set(&mut doc, &path("a.empty"), Node::empty_level()).unwrap();
    generic_set(&mut doc, &path("a.v"), value(b"1")).unwrap();

    assert!(generic_delete(&mut doc, &path("a.missing")).is_none());
    assert!(generic_get(&doc, &path("a.empty")).is_some(), "nothing was removed from it");
}

#[test]
fn deleting_what_is_not_there_changes_nothing() {
    let mut doc = Node::empty_level();
    generic_set(&mut doc, &path("a"), value(b"1")).unwrap();
    assert!(generic_delete(&mut doc, &path("a.b")).is_none());
    assert!(generic_delete(&mut doc, &path("z")).is_none());
    assert!(generic_delete(&mut doc, &StorePath::root()).is_none());
    assert_eq!(read(&doc, "a"), Some(b"1".to_vec()));
}

#[test]
fn a_write_then_a_delete_leaves_the_document_as_it_was() {
    let mut doc = Node::empty_level();
    generic_set(&mut doc, &path("x.y"), value(b"1")).unwrap();
    generic_set(&mut doc, &path("z"), value(b"2")).unwrap();

    generic_set(&mut doc, &path("x.new.deep"), value(b"3")).unwrap();
    generic_delete(&mut doc, &path("x.new.deep")).unwrap();

    assert_eq!(names(&doc, ""), ["x", "z"]);
    assert_eq!(names(&doc, "x"), ["x.y"]);
}

#[test]
fn sweeping_a_subtree_leaves_the_levels_above_it() {
    let mut doc = Node::empty_level();
    generic_set(&mut doc, &path("a.b.c"), value(b"1")).unwrap();
    generic_set(&mut doc, &path("a.b.d"), value(b"2")).unwrap();

    generic_delete_subtree(&mut doc, &path("a.b"));
    assert!(generic_get(&doc, &path("a.b")).is_none());
    assert!(generic_get(&doc, &path("a")).unwrap().is_level(), "not pruned");

    generic_delete_subtree(&mut doc, &StorePath::root());
    assert!(names(&doc, "").is_empty());
}

#[test]
fn a_scan_lists_the_children_of_a_level_in_file_order() {
    let mut doc = Node::empty_level();
    generic_set(&mut doc, &path("ui.zeta"), value(b"1")).unwrap();
    generic_set(&mut doc, &path("ui.alpha"), value(b"2")).unwrap();
    generic_set(&mut doc, &path("ui.mid.deep"), value(b"3")).unwrap();

    let found = generic_scan(&doc, &path("ui"));
    let listed: Vec<(String, bool)> = found
        .iter()
        .map(|(p, n)| (p.segments.join("."), n.is_level()))
        .collect();
    assert_eq!(
        listed,
        [
            ("ui.zeta".to_string(), false),
            ("ui.alpha".to_string(), false),
            ("ui.mid".to_string(), true)
        ]
    );
    assert_eq!(found[1].1.value(), Some(&b"2".to_vec()));
    assert!(generic_scan(&doc, &path("ui.zeta")).is_empty(), "a value has no children");
    assert!(generic_scan(&doc, &path("nowhere")).is_empty());
}

#[test]
fn a_copy_holds_the_same_and_is_its_own() {
    let mut doc = Node::empty_level();
    generic_set(&mut doc, &path("a.b"), value(b"1")).unwrap();
    let mut copy = doc.copied();
    generic_set(&mut copy, &path("a.b"), value(b"2")).unwrap();
    assert_eq!(read(&doc, "a.b"), Some(b"1".to_vec()));
    assert_eq!(read(&copy, "a.b"), Some(b"2".to_vec()));
    assert!(doc.has_children());
}
