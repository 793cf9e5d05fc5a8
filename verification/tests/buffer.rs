use amethystate::buffer::{
    bookkeeping_at, clear_committed, init_at, pending_prefix, Pending, PendingOp,
};
use amethystate::overlay::merge_buffered;
use amethystate::path::StorePath;
use std::collections::BTreeMap;

fn path(joined: &str) -> StorePath {
    let levels: Vec<&str> = joined.split('.').collect();
    StorePath::from_segments(&levels)
}

fn joined(p: &StorePath) -> String {
    p.segments.join(".")
}

fn buffer(entries: &[(&str, Option<&[u8]>)]) -> Pending {
    let mut held = Pending::new();

    for (k, v) in entries {
        held.insert(
            path(k),
            match v {
                Some(b) => PendingOp::Put(b.to_vec()),
                None => PendingOp::Delete,
            },
        );
    }

    held
}

fn same_op(a: Option<&PendingOp>, b: Option<&PendingOp>) -> bool {
    match (a, b) {
        (None, None) => true,
        (Some(x), Some(y)) => x.same_as(y),
        _ => false,
    }
}

#[test]
fn what_is_taken_carries_the_op_it_was_buffered_with() {
    let pending = buffer(&[("a.x", Some(b"1")), ("a.y", None)]);

    let taken = pending_prefix(&pending, &path("a"));

    assert!(same_op(
        taken.get(&path("a.x")),
        Some(&PendingOp::Put(b"1".to_vec()))
    ));
    assert!(
        same_op(taken.get(&path("a.y")), Some(&PendingOp::Delete)),
        "a buffered delete that came back as a write would resurrect the key"
    );
    assert_eq!(
        pending.len(),
        2,
        "entries must survive until the write lands, or a failure below \
         loses them from memory and disk both"
    );
}

#[test]
fn the_root_means_everything() {
    let pending = buffer(&[("a.x", Some(b"1")), ("b.y", Some(b"2"))]);
    assert_eq!(pending_prefix(&pending, &StorePath::root()).len(), 2);
}

#[test]
fn a_prefix_matches_its_own_key_and_its_children() {
    let pending = buffer(&[
        ("a", Some(b"root")),
        ("a.x", Some(b"child")),
        ("ab", Some(b"sibling")),
    ]);

    let taken = pending_prefix(&pending, &path("a"));

    assert!(taken.holds(&path("a")));
    assert!(taken.holds(&path("a.x")));
    assert!(!taken.holds(&path("ab")), "a prefix is not a substring");
}

#[test]
fn committed_entries_are_dropped() {
    let mut pending = buffer(&[("a.x", Some(b"1")), ("a.y", Some(b"2"))]);
    let committed = pending.copied();

    clear_committed(&mut pending, &committed);

    assert!(pending.is_empty());
}

#[test]
fn a_value_that_changed_during_the_commit_survives() {
    let committed = buffer(&[("a.x", Some(b"old"))]);
    let mut pending = buffer(&[("a.x", Some(b"new"))]);

    clear_committed(&mut pending, &committed);

    assert!(
        same_op(
            pending.get(&path("a.x")),
            Some(&PendingOp::Put(b"new".to_vec()))
        ),
        "the newer write is not on disk, so dropping it would lose it"
    );
}

#[test]
fn a_key_written_after_the_commit_survives() {
    let committed = buffer(&[("a.x", Some(b"1"))]);
    let mut pending = buffer(&[("a.x", Some(b"1")), ("a.z", Some(b"9"))]);

    clear_committed(&mut pending, &committed);

    assert!(!pending.holds(&path("a.x")));
    assert!(pending.holds(&path("a.z")), "it was never committed");
}

#[test]
fn a_pending_delete_is_committed_like_any_other_entry() {
    let mut pending = buffer(&[("a.x", None)]);
    let committed = pending.copied();

    clear_committed(&mut pending, &committed);

    assert!(pending.is_empty());
}

fn stored(entries: &[(&str, &[u8])]) -> Vec<(StorePath, Vec<u8>)> {
    entries.iter().map(|(k, v)| (path(k), v.to_vec())).collect()
}

fn pending(entries: &[(&str, Option<&[u8]>)]) -> Vec<(StorePath, Option<Vec<u8>>)> {
    entries
        .iter()
        .map(|(k, v)| (path(k), v.map(<[u8]>::to_vec)))
        .collect()
}

fn names(merged: &[(StorePath, Vec<u8>)]) -> Vec<String> {
    merged.iter().map(|(k, _)| joined(k)).collect()
}

#[test]
fn an_empty_buffer_gives_back_what_the_engine_holds() {
    let committed = stored(&[("a", b"1"), ("b", b"2")]);
    assert_eq!(merge_buffered(committed.clone(), Vec::new()), committed);
}

#[test]
fn an_empty_engine_side_gives_back_the_buffer_without_its_deletes() {
    let merged = merge_buffered(
        Vec::new(),
        pending(&[("a", Some(b"1")), ("b", None), ("c", Some(b"3"))]),
    );
    assert_eq!(names(&merged), ["a", "c"]);
}

#[test]
fn the_two_lists_interleave_by_key() {
    let merged = merge_buffered(
        stored(&[("a", b"1"), ("c", b"3"), ("e", b"5")]),
        pending(&[("b", Some(b"2")), ("d", Some(b"4"))]),
    );
    assert_eq!(names(&merged), ["a", "b", "c", "d", "e"]);
}

#[test]
fn a_buffered_write_replaces_the_committed_value_at_that_key() {
    let merged = merge_buffered(
        stored(&[("a", b"old"), ("b", b"kept")]),
        pending(&[("a", Some(b"new"))]),
    );
    assert_eq!(
        merged,
        vec![(path("a"), b"new".to_vec()), (path("b"), b"kept".to_vec()),]
    );
}

#[test]
fn a_buffered_delete_takes_the_committed_value_with_it() {
    let merged = merge_buffered(
        stored(&[("a", b"1"), ("b", b"2"), ("c", b"3")]),
        pending(&[("b", None)]),
    );
    assert_eq!(names(&merged), ["a", "c"]);
}

#[test]
fn a_delete_of_a_key_the_engine_never_had_adds_nothing() {
    let merged = merge_buffered(stored(&[("a", b"1")]), pending(&[("z", None)]));
    assert_eq!(names(&merged), ["a"]);
}

#[test]
fn deleting_everything_leaves_nothing() {
    let merged = merge_buffered(
        stored(&[("a", b"1"), ("b", b"2")]),
        pending(&[("a", None), ("b", None)]),
    );
    assert!(merged.is_empty());
}

#[test]
fn it_answers_what_a_map_of_the_two_would() {
    let entries: Vec<(u8, Option<Option<u8>>)> = vec![
        (3, None),
        (1, Some(Some(2))),
        (5, None),
        (5, Some(None)),
        (7, Some(Some(0))),
        (0, None),
        (9, Some(None)),
        (11, None),
        (11, Some(Some(3))),
        (2, None),
    ];

    let mut committed = BTreeMap::new();
    let mut buffered = BTreeMap::new();
    for (key, op) in entries {
        let key = format!("k{key:02}");
        match op {
            None => {
                committed.insert(key, vec![0u8]);
            }
            Some(value) => {
                buffered.insert(key, value.map(|v| vec![v]));
            }
        }
    }

    let mut expected: BTreeMap<String, Vec<u8>> = committed.clone();
    for (key, op) in &buffered {
        match op {
            Some(value) => {
                expected.insert(key.clone(), value.clone());
            }
            None => {
                expected.remove(key);
            }
        }
    }

    let merged = merge_buffered(
        committed.into_iter().map(|(k, v)| (path(&k), v)).collect(),
        buffered.into_iter().map(|(k, v)| (path(&k), v)).collect(),
    );

    let got: Vec<(String, Vec<u8>)> = merged.into_iter().map(|(k, v)| (joined(&k), v)).collect();
    let want: Vec<(String, Vec<u8>)> = expected.into_iter().collect();
    assert_eq!(got, want);
}

#[test]
fn paths_sort_level_by_level() {
    let merged = merge_buffered(
        stored(&[("a", b"1"), ("a.b", b"2"), ("a!x", b"3"), ("ab", b"4")]),
        pending(&[("a.a", Some(b"5")), ("a.c", None)]),
    );
    assert_eq!(names(&merged), ["a", "a.a", "a.b", "a!x", "ab"]);
}

#[test]
fn a_marker_and_a_value_at_one_path_are_held_apart() {
    let mut held = Pending::new();
    held.insert(path("cfg"), PendingOp::Put(b"1".to_vec()));
    held.mark(path("cfg"), true);

    assert!(held.holds(&path("cfg")));
    assert_eq!(held.marked(&path("cfg")), Some(true));
    assert_eq!(held.len(), 2);

    held.mark(path("cfg"), false);
    assert_eq!(held.marked(&path("cfg")), Some(false));
    assert_eq!(held.len(), 2, "a marker replaces the one before it");

    let unsaved = held.unsaved();
    assert_eq!(unsaved.len(), 2);
    assert!(unsaved.iter().all(|p| *p == path("cfg")));
}

#[test]
fn a_later_write_at_a_path_replaces_the_earlier_one() {
    let mut held = Pending::new();
    held.insert(path("a"), PendingOp::Put(b"1".to_vec()));
    held.insert(path("a"), PendingOp::Delete);
    assert_eq!(held.len(), 1);
    assert_eq!(held.get(&path("a")).and_then(|op| op.value()), None);
    held.insert(path("a"), PendingOp::Put(b"2".to_vec()));
    assert_eq!(
        held.get(&path("a")).and_then(|op| op.value()),
        Some(&b"2"[..])
    );
    assert_eq!(held.values().len(), 1);
}

#[test]
fn markers_under_a_prefix_go_with_it_and_clear_when_they_land() {
    let mut held = buffer(&[("a.x", Some(b"1"))]);
    held.mark(path("a"), true);
    held.mark(path("b"), true);

    let taken = pending_prefix(&held, &path("a"));
    assert_eq!(taken.marked(&path("a")), Some(true));
    assert_eq!(taken.marked(&path("b")), None);
    assert_eq!(taken.markings().len(), 1);

    clear_committed(&mut held, &taken);
    assert_eq!(held.marked(&path("a")), None);
    assert_eq!(held.marked(&path("b")), Some(true));
    assert!(!held.holds(&path("a.x")));
}

#[test]
fn a_bookkeeping_row_is_its_kind_and_then_its_path() {
    assert_eq!(bookkeeping_at("meta", &path("ui.theme")), path("meta.ui.theme"));
    assert_eq!(init_at(&path("cfg")), path("init.cfg"));
    assert_eq!(init_at(&StorePath::root()), path("init"));
    assert_ne!(bookkeeping_at("meta", &path("init.foo")), init_at(&path("foo")));
}
