use amethystate::document::{generic_get, generic_set, Node, Occupied};
use amethystate::laying::lay_over;
use amethystate::path::StorePath;

fn path(joined: &str) -> StorePath {
    let levels: Vec<&str> = joined.split('.').collect();
    StorePath::from_segments(&levels)
}

fn doc(entries: &[(&str, &[u8])]) -> Node {
    let mut root = Node::empty_level();
    for (at, bytes) in entries {
        generic_set(&mut root, &path(at), Node::leaf(bytes.to_vec())).unwrap();
    }
    root
}

fn read(root: &Node, at: &str) -> Option<Vec<u8>> {
    generic_get(root, &path(at)).and_then(|n| n.value().cloned())
}

#[test]
fn what_this_store_wrote_goes_back_over_an_outside_edit() {
    let on_disk = doc(&[("ui.theme", b"light"), ("ui.size", b"12"), ("net.port", b"80")]);
    let mine = doc(&[("ui.theme", b"dark"), ("ui.size", b"10")]);

    let laid = lay_over(on_disk, &mine, &vec![], &vec![], &vec![path("ui.theme")]).unwrap();

    assert_eq!(read(&laid, "ui.theme"), Some(b"dark".to_vec()), "this store's write");
    assert_eq!(read(&laid, "ui.size"), Some(b"12".to_vec()), "the outside edit, untouched");
    assert_eq!(read(&laid, "net.port"), Some(b"80".to_vec()));
}

#[test]
fn a_place_this_store_emptied_comes_off_the_file() {
    let on_disk = doc(&[("ui.theme", b"light"), ("net.port", b"80")]);
    let mine = doc(&[("net.port", b"80")]);

    let laid = lay_over(on_disk, &mine, &vec![], &vec![], &vec![path("ui.theme")]).unwrap();

    assert!(generic_get(&laid, &path("ui.theme")).is_none());
    assert!(generic_get(&laid, &path("ui")).is_none(), "the level it emptied goes with it");
    assert_eq!(read(&laid, "net.port"), Some(b"80".to_vec()));
}

#[test]
fn a_swept_level_comes_off_whole_and_what_was_written_after_goes_back() {
    let on_disk = doc(&[("cache.a", b"1"), ("cache.b", b"2"), ("keep", b"k")]);
    let mine = doc(&[("cache.c", b"3"), ("keep", b"k")]);

    let laid = lay_over(on_disk, &mine, &vec![], &vec![path("cache")], &vec![path("cache.c")]).unwrap();

    assert!(generic_get(&laid, &path("cache.a")).is_none());
    assert!(generic_get(&laid, &path("cache.b")).is_none());
    assert_eq!(read(&laid, "cache.c"), Some(b"3".to_vec()));
    assert_eq!(read(&laid, "keep"), Some(b"k".to_vec()));
}

#[test]
fn a_write_that_will_not_go_back_on_is_refused() {
    let on_disk = doc(&[("ui", b"flat")]);
    let mine = doc(&[("ui.theme", b"dark")]);

    let refused = lay_over(on_disk, &mine, &vec![], &vec![], &vec![path("ui.theme")]);

    assert_eq!(refused.err(), Some(Occupied::Value { level: path("ui") }));
}

#[test]
fn a_swept_level_takes_the_whole_keys_under_it_at_the_root() {
    let mut on_disk = Node::empty_level();
    generic_set(&mut on_disk, &StorePath::segment("cache.a"), Node::leaf(b"1".to_vec())).unwrap();
    generic_set(&mut on_disk, &StorePath::segment("cache"), Node::leaf(b"whole".to_vec())).unwrap();
    generic_set(&mut on_disk, &StorePath::segment("other.b"), Node::leaf(b"2".to_vec())).unwrap();
    let mine = Node::empty_level();
    let spellings = vec![
        ("cache.a".to_string(), Some(path("cache.a"))),
        ("cache".to_string(), Some(path("cache"))),
        ("other.b".to_string(), Some(path("other.b"))),
    ];

    let laid = lay_over(on_disk, &mine, &spellings, &vec![path("cache")], &vec![]).unwrap();

    assert!(generic_get(&laid, &StorePath::segment("cache.a")).is_none(), "a whole key under the level");
    assert!(generic_get(&laid, &StorePath::segment("cache")).is_none(), "the level itself");
    assert_eq!(read_one(&laid, "other.b"), Some(b"2".to_vec()));
}

fn read_one(root: &Node, name: &str) -> Option<Vec<u8>> {
    generic_get(root, &StorePath::segment(name)).and_then(|n| n.value().cloned())
}
