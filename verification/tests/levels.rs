use amethystate::declared::Declared;
use amethystate::document::{generic_delete, generic_get, generic_set, Node, Occupied};
use amethystate::levels::keep_a_declared_level;
use amethystate::meta::Role;
use amethystate::path::StorePath;

fn path(joined: &str) -> StorePath {
    let levels: Vec<&str> = joined.split('.').collect();
    StorePath::from_segments(&levels)
}

fn a_map_at(joined: &str) -> Declared {
    Declared::of_places(vec![(path(joined), Role::Entries)])
}

#[test]
fn deleting_a_declared_maps_last_entry_leaves_the_map_standing() {
    let declared = a_map_at("ui.recent");
    let mut doc = Node::empty_level();
    generic_set(&mut doc, &path("ui.recent.one"), Node::leaf(b"1".to_vec())).unwrap();

    generic_delete(&mut doc, &path("ui.recent.one")).unwrap();
    assert!(generic_get(&doc, &path("ui")).is_none(), "the delete took every level it emptied");

    let put = keep_a_declared_level(&mut doc, &declared, &path("ui.recent.one")).unwrap();
    assert_eq!(put.map(|p| p.segments), Some(vec!["ui".to_string(), "recent".to_string()]));
    let level = generic_get(&doc, &path("ui.recent")).unwrap();
    assert!(level.is_level());
    assert!(!level.has_children());
}

#[test]
fn a_level_that_stands_or_is_not_a_map_is_left_alone() {
    let declared = a_map_at("ui.recent");
    let mut doc = Node::empty_level();
    generic_set(&mut doc, &path("ui.recent.two"), Node::leaf(b"2".to_vec())).unwrap();

    assert_eq!(keep_a_declared_level(&mut doc, &declared, &path("ui.recent.one")), Ok(None));
    assert_eq!(keep_a_declared_level(&mut doc, &declared, &path("ui.other.one")), Ok(None));
    assert_eq!(keep_a_declared_level(&mut doc, &declared, &StorePath::root()), Ok(None));
    assert!(generic_get(&doc, &path("ui.other")).is_none());
}

#[test]
fn a_value_where_the_map_would_stand_refuses_putting_it_back() {
    let declared = a_map_at("ui.recent");
    let mut doc = Node::empty_level();
    generic_set(&mut doc, &path("ui"), Node::leaf(b"x".to_vec())).unwrap();

    let refused = keep_a_declared_level(&mut doc, &declared, &path("ui.recent.one"));
    assert_eq!(refused, Err(Occupied::Value { level: path("ui") }));
}
