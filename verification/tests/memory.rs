use amethystate::memory::{Held, Wrote};
use amethystate::path::StorePath;

fn path(joined: &str) -> StorePath {
    let levels: Vec<&str> = joined.split('.').collect();
    StorePath::from_segments(&levels)
}

fn joined(p: &StorePath) -> String {
    p.segments.join(".")
}

#[test]
fn what_is_written_reads_back() {
    let mut held = Held::new();
    assert_eq!(held.set(&path("ui.theme"), b"dark".to_vec()), Wrote::Changed(None));
    assert_eq!(held.get(&path("ui.theme")), Some(&b"dark".to_vec()));
    assert_eq!(held.get(&path("ui")), None);
}

#[test]
fn the_same_bytes_again_change_nothing() {
    let mut held = Held::new();
    held.set(&path("a"), b"1".to_vec());
    assert_eq!(held.set(&path("a"), b"1".to_vec()), Wrote::Unchanged);
    assert_eq!(
        held.set(&path("a"), b"2".to_vec()),
        Wrote::Changed(Some(b"1".to_vec()))
    );
    assert_eq!(held.get(&path("a")), Some(&b"2".to_vec()));
}

#[test]
fn a_delete_hands_back_what_stood_there() {
    let mut held = Held::new();
    held.set(&path("a"), b"1".to_vec());
    assert_eq!(held.delete(&path("a")), Some(b"1".to_vec()));
    assert_eq!(held.delete(&path("a")), None);
    assert_eq!(held.get(&path("a")), None);
}

#[test]
fn a_scan_finds_a_prefix_and_what_is_under_it_in_path_order() {
    let mut held = Held::new();
    for at in ["ui.theme", "ui", "uix", "ui!x", "ui.a.b", "other"] {
        held.set(&path(at), at.as_bytes().to_vec());
    }

    let found: Vec<String> = held
        .scan_prefix(&path("ui"))
        .iter()
        .map(|(p, _)| joined(p))
        .collect();
    assert_eq!(found, ["ui", "ui.a.b", "ui.theme"]);

    let keys: Vec<String> = held.scan_keys(&path("ui")).iter().map(joined).collect();
    assert_eq!(keys, ["ui", "ui.a.b", "ui.theme"]);

    let all: Vec<String> = held.scan_keys(&StorePath::root()).iter().map(joined).collect();
    assert_eq!(all, ["other", "ui", "ui.a.b", "ui.theme", "ui!x", "uix"]);
}

#[test]
fn deleting_a_prefix_takes_it_and_what_is_under_it() {
    let mut held = Held::new();
    for at in ["ui.theme", "ui", "uix", "ui.a.b", "other"] {
        held.set(&path(at), b"v".to_vec());
    }
    held.delete_prefix(&path("ui"));
    let all: Vec<String> = held.scan_keys(&StorePath::root()).iter().map(joined).collect();
    assert_eq!(all, ["other", "uix"]);
}

#[test]
fn a_namespace_is_seeded_until_it_is_unmarked() {
    let mut held = Held::new();
    assert!(!held.is_initialized(&path("cfg")));
    held.set_initialized(&path("cfg"), true);
    held.set_initialized(&path("cfg"), true);
    assert!(held.is_initialized(&path("cfg")));
    assert!(!held.is_initialized(&path("other")));
    held.set_initialized(&path("cfg"), false);
    assert!(!held.is_initialized(&path("cfg")));
}
