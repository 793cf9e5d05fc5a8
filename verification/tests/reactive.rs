use amethystate::check::Invalid;
use amethystate::events::StoreOp;
use amethystate::path::StorePath;
use amethystate::reactive::{
    field_hears, field_start, map_hears, seeds_defaults, Decoded, FieldAction, FieldStart,
    MapCache, MapChange, NotifyRefusal, OnDelete, OpenRefusal, Read, Reason, StartsOn,
};

fn path(joined: &str) -> StorePath {
    let levels: Vec<&str> = joined.split('.').collect();
    StorePath::from_segments(&levels)
}

#[test]
fn a_field_starts_on_what_is_stored_when_it_reads_and_passes() {
    let started = field_start(&path("ui.theme"), Read::Found, Some(Ok(())), false, None);
    assert_eq!(started, Ok(FieldStart { on: StartsOn::Stored, reason: None }));
    let unchecked = field_start(&path("ui.theme"), Read::Found, None, true, None);
    assert_eq!(unchecked, Ok(FieldStart { on: StartsOn::Stored, reason: None }));
}

#[test]
fn a_refused_value_starts_the_field_on_its_default_or_refuses_the_build() {
    let at = path("ui.size");
    let soft = field_start(&at, Read::Found, Some(Err(Invalid::new("too small"))), false, None);
    assert_eq!(
        soft,
        Ok(FieldStart { on: StartsOn::Default, reason: Some(Reason::Refused("too small".to_string())) })
    );
    let hard = field_start(&at, Read::Found, Some(Err(Invalid::new("too small"))), true, None);
    assert_eq!(hard, Err(OpenRefusal::Refused { at: path("ui.size"), said: "too small".to_string() }));
}

#[test]
fn a_missing_value_starts_on_the_default_and_names_what_was_in_the_way() {
    let at = path("ui.size");
    assert_eq!(
        field_start(&at, Read::Missing, None, false, None),
        Ok(FieldStart { on: StartsOn::Default, reason: None })
    );
    assert_eq!(
        field_start(&at, Read::Missing, None, false, Some("a value at ui".to_string())),
        Ok(FieldStart { on: StartsOn::Default, reason: Some(Reason::Occupied("a value at ui".to_string())) })
    );
}

#[test]
fn an_unreadable_value_is_answered_by_the_rule_or_refused() {
    let at = path("ui.size");
    let unreadable = |covered, will_not_read| Read::Unreadable { covered, will_not_read, why: "bad bytes".to_string() };
    assert_eq!(
        field_start(&at, unreadable(true, true), None, false, None),
        Ok(FieldStart { on: StartsOn::Default, reason: Some(Reason::WillNotRead("bad bytes".to_string())) })
    );
    assert_eq!(
        field_start(&at, unreadable(false, true), None, false, None),
        Err(OpenRefusal::WillNotRead { at: path("ui.size"), why: "bad bytes".to_string() })
    );
    assert_eq!(
        field_start(&at, unreadable(false, false), None, false, None),
        Err(OpenRefusal::Store("bad bytes".to_string()))
    );
}

#[test]
fn a_field_hears_each_kind_of_change() {
    assert_eq!(field_hears(Some(Decoded::Read), false, None, OnDelete::UseDefault), FieldAction::Take);
    assert_eq!(
        field_hears(Some(Decoded::Read), true, Some(Err(Invalid::new("no"))), OnDelete::UseDefault),
        FieldAction::Refuse("no".to_string())
    );
    assert_eq!(
        field_hears(Some(Decoded::Read), false, Some(Err(Invalid::new("no"))), OnDelete::UseDefault),
        FieldAction::Take,
        "a write made here was checked where it was made"
    );
    assert_eq!(
        field_hears(Some(Decoded::WillNotRead("eof".to_string())), true, None, OnDelete::Keep),
        FieldAction::KeepUnreadable("eof".to_string())
    );
    assert_eq!(field_hears(None, true, None, OnDelete::UseDefault), FieldAction::Default);
    assert_eq!(field_hears(None, true, None, OnDelete::Keep), FieldAction::Ignore);
}

#[test]
fn defaults_are_written_only_into_a_map_never_written() {
    assert!(seeds_defaults(false, true));
    assert!(!seeds_defaults(true, true));
    assert!(!seeds_defaults(false, false));
}

fn declared() -> Vec<(String, Vec<u8>)> {
    vec![("a".to_string(), b"1".to_vec())]
}

#[test]
fn a_map_inserts_updates_and_removes_its_entries() {
    let map = path("ui.recent");
    let mut cache = MapCache::new();

    let put = map_hears(&mut cache, &map, StoreOp::Put, &path("ui.recent.x"), true, Some(Ok(b"7".to_vec())), None, &declared());
    assert_eq!(put, Ok(vec![MapChange::Insert { key: "x".to_string(), value: b"7".to_vec() }]));
    assert_eq!(cache.get("x"), Some(&b"7".to_vec()));

    let again = map_hears(&mut cache, &map, StoreOp::Put, &path("ui.recent.x"), true, Some(Ok(b"8".to_vec())), None, &declared());
    assert_eq!(
        again,
        Ok(vec![MapChange::Update { key: "x".to_string(), old_value: Some(b"7".to_vec()), new_value: b"8".to_vec() }])
    );

    let gone = map_hears(&mut cache, &map, StoreOp::Delete, &path("ui.recent.x"), true, None, Some(b"8".to_vec()), &declared());
    assert_eq!(gone, Ok(vec![MapChange::Remove { key: "x".to_string(), old_value: Some(b"8".to_vec()) }]));
    assert_eq!(cache.len(), 0);
}

#[test]
fn a_map_whose_level_goes_is_cleared_and_takes_its_declared_entries() {
    let map = path("ui.recent");
    let mut cache = MapCache::new();
    cache.insert("x".to_string(), b"7".to_vec());

    let cleared = map_hears(&mut cache, &map, StoreOp::DeletePrefix, &map, true, None, None, &declared());
    assert_eq!(
        cleared,
        Ok(vec![MapChange::Clear, MapChange::Insert { key: "a".to_string(), value: b"1".to_vec() }])
    );
    assert_eq!(cache.get("x"), None);
    assert_eq!(cache.get("a"), Some(&b"1".to_vec()));
}

#[test]
fn a_map_refuses_what_it_cannot_take_and_keeps_what_it_had() {
    let map = path("ui.recent");
    let mut cache = MapCache::new();
    cache.insert("x".to_string(), b"7".to_vec());
    let no = &declared();

    assert_eq!(map_hears(&mut cache, &map, StoreOp::Put, &path("ui.recent.x.y"), true, Some(Ok(b"1".to_vec())), None, no), Err(NotifyRefusal::NotAnEntry));
    assert_eq!(map_hears(&mut cache, &map, StoreOp::Put, &path("ui.recent.x"), false, Some(Ok(b"1".to_vec())), None, no), Err(NotifyRefusal::KeyWillNotRead));
    assert_eq!(
        map_hears(&mut cache, &map, StoreOp::Put, &path("ui.recent.x"), true, Some(Err("eof".to_string())), None, no),
        Err(NotifyRefusal::WillNotDecode("eof".to_string()))
    );
    assert_eq!(map_hears(&mut cache, &map, StoreOp::Put, &path("ui.recent.x"), true, None, None, no), Err(NotifyRefusal::SetWithoutValue));
    assert_eq!(cache.get("x"), Some(&b"7".to_vec()));
    assert_eq!(cache.len(), 1);
}
