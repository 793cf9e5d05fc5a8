use amethystate::meta::{FieldDescriptor, Role, SchemaSnapshot, StoredFieldEntry, StoredShape};
use amethystate::moved::{
    between, contradiction, record_into, recording, Moved, Recording, Verdict, What,
};
use amethystate::path::StorePath;

fn path(joined: &str) -> StorePath {
    let levels: Vec<&str> = joined.split('.').collect();
    StorePath::from_segments(&levels)
}

fn stored(name: &str, shape: StoredShape) -> StoredFieldEntry {
    StoredFieldEntry {
        name: path(name),
        type_label: "T".to_string(),
        shape,
    }
}

fn node(children: Vec<StoredFieldEntry>, flattened: bool) -> StoredShape {
    StoredShape {
        role: Role::Node,
        optional: false,
        children,
        flattened,
    }
}

fn child(segments: &[&str], joined: &str) -> FieldDescriptor {
    FieldDescriptor::leaf(segments, joined, "T")
}

fn snapshot(version: u32, fields: Vec<StoredFieldEntry>) -> SchemaSnapshot {
    SchemaSnapshot {
        version,
        struct_name: Some("Ui".to_string()),
        fields,
    }
}

fn named(who: &str, version: u32, fields: Vec<StoredFieldEntry>) -> SchemaSnapshot {
    SchemaSnapshot {
        version,
        struct_name: Some(who.to_string()),
        fields,
    }
}

fn moved(at: StorePath, what: What) -> Moved {
    Moved { at, what }
}

#[test]
fn two_declarations_at_one_version_owning_a_place_in_common_is_a_contradiction() {
    let held = vec![
        named("Ui", 2, vec![stored("theme", StoredShape::field())]),
        named(
            "Panels",
            2,
            vec![
                stored("theme", StoredShape::field()),
                stored("left", StoredShape::field()),
            ],
        ),
    ];

    let said = contradiction(&held).expect("both own `theme` at version 2");

    assert_eq!(said.version, 2);
    assert_eq!(said.at, StorePath::segment("theme"));
    assert_eq!(
        said.between,
        (Some("Ui".to_string()), Some("Panels".to_string()))
    );
}

#[test]
fn the_same_place_at_two_versions_is_the_history_it_is_meant_to_be() {
    let held = vec![
        named("Ui", 1, vec![stored("theme", StoredShape::field())]),
        named("Ui", 2, vec![stored("theme", StoredShape::field())]),
    ];

    assert_eq!(contradiction(&held), None);
}

#[test]
fn two_declarations_at_one_version_owning_nothing_in_common_stand_together() {
    let held = vec![
        named("Ui", 2, vec![stored("theme", StoredShape::field())]),
        named("Panels", 2, vec![stored("left", StoredShape::field())]),
    ];

    assert_eq!(contradiction(&held), None);
}

#[test]
fn recording_what_is_already_recorded_writes_nothing() {
    let one = snapshot(1, vec![stored("theme", StoredShape::field())]);
    let mut held = vec![one.copied()];

    assert_eq!(recording(&held, &one), Recording::Unchanged);
    assert!(!record_into(&mut held, &one));
    assert_eq!(held.len(), 1);
}

#[test]
fn a_declaration_that_changed_replaces_the_one_recorded_for_it() {
    let held_at_v1 = snapshot(1, vec![stored("theme", StoredShape::field())]);
    let mut held = vec![held_at_v1];

    let now = snapshot(
        2,
        vec![
            stored("theme", StoredShape::field()),
            stored("scale", StoredShape::field()),
        ],
    );

    assert_eq!(recording(&held, &now), Recording::Replacing(0));
    assert!(record_into(&mut held, &now));
    assert_eq!(held, vec![now], "it stands where it stood, not beside itself");
}

#[test]
fn a_declaration_sharing_no_place_joins_the_rest() {
    let theirs = snapshot(1, vec![stored("theme", StoredShape::field())]);
    let mut held = vec![theirs.copied()];

    let ours = snapshot(1, vec![stored("host", StoredShape::field())]);

    assert_eq!(recording(&held, &ours), Recording::Appending);
    assert!(record_into(&mut held, &ours));
    assert_eq!(held, vec![theirs, ours]);
}

#[test]
fn the_same_tree_twice_has_not_moved() {
    let now = vec![child(&["theme"], "theme"), child(&["scale"], "scale")];

    let was = vec![
        stored("theme", StoredShape::field()),
        stored("scale", StoredShape::field()),
    ];

    assert_eq!(between(&was, &now), Vec::<Moved>::new());
}

#[test]
fn a_rename_reads_as_a_release_beside_a_claim() {
    let now = vec![child(&["nickname"], "nickname")];

    let was = vec![stored("handle", StoredShape::field())];

    assert_eq!(
        between(&was, &now),
        vec![
            moved(StorePath::segment("handle"), What::Released),
            moved(StorePath::segment("nickname"), What::Taken),
        ]
    );
}

#[test]
fn a_leaf_that_became_a_map_breaks() {
    let now = vec![FieldDescriptor {
        role: Role::Entries,
        ..child(&["open"], "open")
    }];

    let was = vec![stored("open", StoredShape::field())];

    let found = between(&was, &now);

    assert_eq!(
        found,
        vec![moved(
            StorePath::segment("open"),
            What::Role {
                was: Role::Field,
                now: Role::Entries
            }
        )]
    );
    assert_eq!(found[0].verdict(), Verdict::Breaks);
}

#[test]
fn a_node_that_lost_its_segment_moves_every_place_beneath_it() {
    let now = vec![FieldDescriptor {
        role: Role::Node,
        children: vec![child(&["theme"], "theme")],
        flattened: true,
        ..child(&["ui"], "ui")
    }];

    let was = vec![stored(
        "ui",
        node(vec![stored("theme", StoredShape::field())], false),
    )];

    let found = between(&was, &now);

    assert_eq!(
        found,
        vec![
            moved(StorePath::from_segments(&["ui", "theme"]), What::Released),
            moved(StorePath::segment("theme"), What::Taken),
        ],
        "nothing was ever stored at `ui`, and the place that did hold \
         something is the one that moved"
    );
    assert_eq!(found[0].verdict(), Verdict::Breaks);
}

#[test]
fn a_place_under_a_node_is_named_by_its_whole_path() {
    let now = vec![FieldDescriptor {
        role: Role::Node,
        children: vec![child(&["scale"], "scale")],
        ..child(&["ui"], "ui")
    }];

    let was = vec![stored(
        "ui",
        node(vec![stored("theme", StoredShape::field())], false),
    )];

    assert_eq!(
        between(&was, &now),
        vec![
            moved(StorePath::from_segments(&["ui", "theme"]), What::Released),
            moved(StorePath::from_segments(&["ui", "scale"]), What::Taken),
        ]
    );
}

#[test]
fn a_flattened_node_lends_its_children_no_segment() {
    let now = vec![FieldDescriptor {
        role: Role::Node,
        children: vec![child(&["scale"], "scale")],
        flattened: true,
        ..child(&["ui"], "ui")
    }];

    let was = vec![stored(
        "ui",
        node(vec![stored("theme", StoredShape::field())], true),
    )];

    assert_eq!(
        between(&was, &now),
        vec![
            moved(StorePath::segment("theme"), What::Released),
            moved(StorePath::segment("scale"), What::Taken),
        ]
    );
}

#[test]
fn a_place_that_may_now_hold_nothing_is_harmless() {
    let now = vec![FieldDescriptor {
        optional: true,
        ..child(&["nickname"], "nickname")
    }];

    let was = vec![stored("nickname", StoredShape::field())];

    let found = between(&was, &now);

    assert_eq!(
        found,
        vec![moved(
            StorePath::segment("nickname"),
            What::Optional { now: true }
        )]
    );
    assert_eq!(found[0].verdict(), Verdict::Harmless);
}

#[test]
fn a_node_is_not_a_place_so_what_is_claimed_is_under_it() {
    let now = vec![FieldDescriptor {
        role: Role::Node,
        children: vec![child(&["theme"], "theme")],
        ..child(&["ui"], "ui")
    }];

    assert_eq!(
        between(&Vec::new(), &now),
        vec![moved(StorePath::from_segments(&["ui", "theme"]), What::Taken)],
        "nothing is stored at `ui`, and a write beside `ui.theme` is not this struct's"
    );
}

#[test]
fn a_map_is_a_place_and_takes_everything_under_it() {
    let now = vec![FieldDescriptor {
        role: Role::Entries,
        ..child(&["open"], "open")
    }];

    assert_eq!(
        between(&Vec::new(), &now),
        vec![moved(StorePath::segment("open"), What::Taken)]
    );
}

#[test]
fn a_flattened_node_is_claimed_as_what_it_brings() {
    let now = vec![FieldDescriptor {
        role: Role::Node,
        children: vec![child(&["theme"], "theme")],
        flattened: true,
        ..child(&["ui"], "ui")
    }];

    assert_eq!(
        between(&Vec::new(), &now),
        vec![moved(StorePath::segment("theme"), What::Taken)]
    );
}

#[test]
fn a_flattened_node_that_is_gone_releases_what_it_brought() {
    let was = vec![stored(
        "ui",
        node(vec![stored("theme", StoredShape::field())], true),
    )];

    assert_eq!(
        between(&was, &Vec::new()),
        vec![moved(StorePath::segment("theme"), What::Released)]
    );
}

#[test]
fn a_node_flattened_on_both_sides_says_nothing_about_itself() {
    let now = vec![FieldDescriptor {
        role: Role::Node,
        children: vec![child(&["theme"], "theme")],
        flattened: true,
        optional: true,
        ..child(&["ui"], "ui")
    }];

    let was = vec![stored(
        "ui",
        node(vec![stored("theme", StoredShape::field())], true),
    )];

    assert_eq!(between(&was, &now), Vec::<Moved>::new());
}

#[test]
fn a_leaf_reached_where_a_node_stood_takes_ground_nobody_held() {
    let now = vec![FieldDescriptor {
        role: Role::Node,
        children: vec![child(&["a"], "a")],
        flattened: true,
        ..child(&["a"], "a")
    }];

    let was = vec![stored("a", node(vec![], false))];

    let found = between(&was, &now);

    assert_eq!(
        found,
        vec![moved(StorePath::segment("a"), What::Taken)],
        "the old `a` was a node holding nothing, so nothing was released"
    );
    assert_eq!(found[0].verdict(), Verdict::LookAtTheGround);
}

#[test]
fn a_leaf_that_became_a_node_releases_its_place_and_claims_what_is_under_it() {
    let now = vec![FieldDescriptor {
        role: Role::Node,
        children: vec![child(&["theme"], "theme")],
        ..child(&["ui"], "ui")
    }];

    let was = vec![stored("ui", StoredShape::field())];

    let found = between(&was, &now);

    assert_eq!(
        found,
        vec![
            moved(StorePath::segment("ui"), What::Released),
            moved(StorePath::from_segments(&["ui", "theme"]), What::Taken),
        ]
    );
    assert_eq!(found[0].verdict(), Verdict::Breaks);
}

#[test]
fn every_kind_of_move_has_its_verdict() {
    let of = |what| moved(StorePath::segment("x"), what);

    assert_eq!(of(What::Released).verdict(), Verdict::Breaks);
    assert_eq!(
        of(What::Role {
            was: Role::Field,
            now: Role::Entries
        })
        .verdict(),
        Verdict::Breaks
    );
    assert_eq!(of(What::Taken).verdict(), Verdict::LookAtTheGround);
    assert_eq!(of(What::Optional { now: true }).verdict(), Verdict::Harmless);
    assert_eq!(of(What::Optional { now: false }).verdict(), Verdict::Harmless);
}

#[test]
fn a_store_opened_for_the_first_time_has_nothing_to_have_moved_from() {
    let now = vec![child(&["theme"], "theme")];

    let found = between(&Vec::new(), &now);

    assert_eq!(found, vec![moved(StorePath::segment("theme"), What::Taken)]);
    assert_eq!(found[0].verdict(), Verdict::LookAtTheGround);
}

#[test]
fn a_tree_against_itself_moves_nothing_even_with_levels_in_a_name() {
    let now = vec![
        FieldDescriptor {
            role: Role::Node,
            children: vec![child(&["dark", "mode"], "dark.mode"), child(&["a"], "a")],
            ..child(&["ui", "b"], "ui.b")
        },
        FieldDescriptor {
            role: Role::Entries,
            ..child(&["c"], "c")
        },
    ];
    let was: Vec<StoredFieldEntry> = now.iter().map(StoredFieldEntry::from_declared).collect();

    assert_eq!(between(&was, &now), Vec::<Moved>::new());
}

#[test]
fn releasing_one_way_is_taking_the_other() {
    let a = vec![child(&["theme"], "theme"), child(&["host"], "host")];
    let b = vec![child(&["theme"], "theme"), child(&["port"], "port")];
    let stored_a: Vec<StoredFieldEntry> = a.iter().map(StoredFieldEntry::from_declared).collect();
    let stored_b: Vec<StoredFieldEntry> = b.iter().map(StoredFieldEntry::from_declared).collect();

    let forward = between(&stored_a, &b);
    let backward = between(&stored_b, &a);

    assert_eq!(
        forward,
        vec![
            moved(StorePath::segment("host"), What::Released),
            moved(StorePath::segment("port"), What::Taken),
        ]
    );
    assert_eq!(
        backward,
        vec![
            moved(StorePath::segment("port"), What::Released),
            moved(StorePath::segment("host"), What::Taken),
        ]
    );
}
