use amethystate::check::Invalid;
use amethystate::closing::{write_gate, ClosingRecord, WriteRefusal};
use amethystate::events::{answered, matches_kind, SubscriptionKind};
use amethystate::filename::{file_name_of, has_extension, set_extension};
use amethystate::instances::short_type_name;
use amethystate::opening::{what_to_do_about, Unreadable, WhenItWillNotRead, WillNotOpen};
use amethystate::path::StorePath;
use amethystate::text::text_precedes;
use amethystate::text_error::TextStoreError;

fn path(joined: &str) -> StorePath {
    let levels: Vec<&str> = joined.split('.').collect();
    StorePath::from_segments(&levels)
}

#[test]
fn an_invalid_value_names_its_fields_or_all_of_them() {
    let all = Invalid::new("too wide");
    assert_eq!(all.reason(), "too wide");
    assert_eq!(all.fields(), None);

    let some = Invalid::new("left is past right").at(&["left", "right"]);
    assert_eq!(some.reason(), "left is past right");
    assert_eq!(
        some.fields().map(|f| f.clone()),
        Some(vec!["left".to_string(), "right".to_string()])
    );

    assert_eq!(Invalid::new("x").at(&[]).fields(), None);
}

#[test]
fn a_type_name_is_shortened_to_its_last_segment() {
    assert_eq!(short_type_name("my_app::config::Ui"), "Ui");
    assert_eq!(short_type_name("Ui"), "Ui");
    assert_eq!(short_type_name(""), "");
}

#[test]
fn an_unreadable_store_is_waited_for_by_default() {
    assert_eq!(
        WhenItWillNotRead::default(),
        WhenItWillNotRead::TryAgainFor(5000)
    );
    assert_eq!(WillNotOpen::default(), WillNotOpen::Refuse);
}

#[test]
fn a_file_that_will_not_read_is_waited_for_then_set_aside() {
    let window = WhenItWillNotRead::TryAgainFor(5000);
    assert_eq!(what_to_do_about(window, 0), Unreadable::Wait);
    assert_eq!(what_to_do_about(window, 4999), Unreadable::Wait);
    assert_eq!(what_to_do_about(window, 5000), Unreadable::SetAside);
    assert_eq!(
        what_to_do_about(WhenItWillNotRead::SetAside, 0),
        Unreadable::SetAside
    );
    assert_eq!(what_to_do_about(WhenItWillNotRead::Refuse, 9), Unreadable::Refuse);
    assert_eq!(
        what_to_do_about(WhenItWillNotRead::Overwrite, 9),
        Unreadable::Overwrite
    );
}

#[test]
fn a_path_is_a_file_name_and_an_extension() {
    assert!(has_extension("a/b.json"));
    assert!(!has_extension("a/b"));
    assert!(!has_extension("a/.hidden"));
    assert_eq!(set_extension("a/b", "redb"), "a/b.redb");
    assert_eq!(set_extension("a/b.json", "toml"), "a/b.toml");
    assert_eq!(file_name_of("a/b.json"), "b.json");
}

#[test]
fn names_sort_by_code_point_a_name_before_those_it_begins() {
    assert!(text_precedes("a", "b"));
    assert!(text_precedes("a", "ab"));
    assert!(!text_precedes("ab", "a"));
    assert!(!text_precedes("a", "a"));
    assert!(text_precedes("a!x", "ab"));
    assert!(path("a.b").precedes(&path("a!x")));
    assert!(path("a").precedes(&path("a.b")));
    assert!(!path("b").precedes(&path("a.z")));
}

#[test]
fn a_path_knows_its_parent_and_what_lies_under_it() {
    let p = path("ui.theme.dark");
    assert_eq!(p.parent(), Some(path("ui.theme")));
    assert_eq!(StorePath::root().parent(), None);
    assert_eq!(p.prefix(1), path("ui"));
    assert!(p.starts_with(&path("ui.theme")));
    assert!(!path("uix.width").starts_with(&path("ui")));
    assert!(path("ui").overlaps(&p));
    assert_eq!(path("ui").join(&path("theme")), path("ui.theme"));
}

#[test]
fn a_write_is_turned_away_once_the_store_is_closed_or_failing() {
    assert!(matches!(write_gate(true, None, false), Err(WriteRefusal::Closed)));
    assert!(matches!(
        write_gate(true, Some("disk full"), true),
        Err(WriteRefusal::Closed)
    ));
    match write_gate(false, Some("disk full"), false) {
        Err(WriteRefusal::CommitFailed { reason }) => assert_eq!(reason, "disk full"),
        other => panic!("expected a refusal: {other:?}"),
    }
    assert!(write_gate(false, None, false).is_ok());
}

#[test]
fn a_second_close_is_told_what_the_first_close_met() {
    let mut record: ClosingRecord<u8> = ClosingRecord::new();
    assert_eq!(record.again(), Ok(()));

    assert_eq!(record.settled(Ok(())), Ok(()));
    assert_eq!(record.again(), Ok(()));

    let failed = record.settled(Err((3, "disk full".to_string())));
    assert_eq!(failed, Err((3, "disk full".to_string())));
    assert_eq!(
        record.again(),
        Err((3, "the closing flush had already failed: disk full".to_string()))
    );
}

#[test]
fn a_subscriber_hears_what_it_asked_for() {
    let at = path("ui.theme");
    assert!(matches_kind(&SubscriptionKind::Any, &at));
    assert!(matches_kind(&SubscriptionKind::ExactPath(path("ui.theme")), &at));
    assert!(!matches_kind(&SubscriptionKind::ExactPath(path("ui")), &at));
    assert!(matches_kind(&SubscriptionKind::Prefix(path("ui")), &at));
    assert!(!matches_kind(&SubscriptionKind::Prefix(path("u")), &at));
}

#[test]
fn every_subscriber_is_told_and_the_first_refusal_is_what_comes_back() {
    assert_eq!(answered::<&str>(vec![Ok(()), Ok(())]), Ok(()));
    assert_eq!(answered::<&str>(Vec::new()), Ok(()));
    assert_eq!(
        answered(vec![Ok(()), Err("first"), Ok(()), Err("second"), Err("third")]),
        Err(("first", 2))
    );
    assert_eq!(answered(vec![Err("only")]), Err(("only", 0)));
}

#[test]
fn a_text_store_failure_reads_as_it_was_raised() {
    assert_eq!(
        TextStoreError::Io("denied".to_string()).describe(),
        "Text store IO error: denied"
    );
    assert_eq!(TextStoreError::Codec("bad".to_string()).describe(), "bad");
    assert_eq!(
        TextStoreError::RootMustBeObject.describe(),
        "Text root must be an object/mapping"
    );
    assert_eq!(
        TextStoreError::Watch("gone".to_string()).describe(),
        "File watcher error: gone"
    );
}
