use amethystate::declared::{collision, seeded_namespaces, Collision, Declared, Holds};
use amethystate::meta::{FieldDescriptor, Role, StoredFieldEntry};
use amethystate::path::StorePath;

fn declaring(places: &[(&[&str], Role)]) -> Declared {
    Declared::of_places(
        places
            .iter()
            .map(|(at, role)| (StorePath::from_segments(at), *role))
            .collect(),
    )
}

fn at(levels: &[&str]) -> StorePath {
    StorePath::from_segments(levels)
}

fn leaf(segments: &[&str], joined: &str) -> FieldDescriptor {
    FieldDescriptor::leaf(segments, joined, "T")
}

#[test]
fn a_maps_own_path_is_a_level_and_what_is_under_it_is_a_value() {
    let declared = declaring(&[(&["ui", "widths"], Role::Entries)]);

    assert_eq!(declared.holds(&at(&["ui", "widths"])), Holds::Level);
    assert_eq!(declared.holds(&at(&["ui", "widths", "cpu"])), Holds::Value);
    assert_eq!(
        declared.holds(&at(&["ui", "widths", "cpu", "deeper"])),
        Holds::Value
    );
}

#[test]
fn a_field_is_a_value_at_its_own_path() {
    let declared = declaring(&[(&["ui", "theme"], Role::Field)]);

    assert_eq!(declared.holds(&at(&["ui", "theme"])), Holds::Value);
    assert_eq!(declared.holds(&at(&["ui", "theme", "inner"])), Holds::Value);
    assert_eq!(declared.holds(&at(&["ui"])), Holds::Level);
}

#[test]
fn a_level_on_the_way_to_a_declaration_is_a_level() {
    let declared = declaring(&[(&["ui", "widths"], Role::Entries)]);

    assert_eq!(declared.holds(&at(&["ui"])), Holds::Level);
    assert_eq!(declared.holds(&StorePath::root()), Holds::Level);
    assert_eq!(declared.holds(&at(&["elsewhere"])), Holds::Level);
}

#[test]
fn declaring_a_struct_lists_what_it_owns_under_its_prefix() {
    let fields = vec![
        leaf(&["theme"], "theme"),
        FieldDescriptor {
            role: Role::Node,
            children: vec![leaf(&["left"], "left")],
            ..leaf(&["panels"], "panels")
        },
        FieldDescriptor {
            role: Role::Entries,
            ..leaf(&["widths"], "widths")
        },
    ];
    let mut declared = Declared::new();
    declared.declare(&at(&["ui"]), &fields);

    assert_eq!(declared.holds(&at(&["ui", "theme"])), Holds::Value);
    assert_eq!(declared.holds(&at(&["ui", "panels", "left"])), Holds::Value);
    assert_eq!(declared.holds(&at(&["ui", "panels"])), Holds::Level);
    assert_eq!(declared.holds(&at(&["ui", "widths"])), Holds::Level);
    assert_eq!(declared.holds(&at(&["ui", "widths", "cpu"])), Holds::Value);
    assert!(declared.covers(&at(&["ui", "theme"])));
    assert!(!declared.covers(&at(&["ui", "other"])));

    let mut recorded = Declared::new();
    let stored: Vec<StoredFieldEntry> = fields.iter().map(StoredFieldEntry::from_declared).collect();
    recorded.record(&at(&["ui"]), &stored);
    assert_eq!(recorded.holds(&at(&["ui", "panels", "left"])), Holds::Value);
}

#[test]
fn a_path_that_meets_a_declaration_says_how() {
    let fields = vec![leaf(&["theme"], "theme"), leaf(&["panels", "left"], "panels.left")];
    let prefix = at(&["ui"]);

    assert_eq!(
        collision(&prefix, &fields, &at(&["ui", "theme"])),
        Some(Collision::Owned(at(&["ui", "theme"])))
    );
    assert_eq!(
        collision(&prefix, &fields, &at(&["ui", "theme", "deeper"])),
        Some(Collision::Owned(at(&["ui", "theme"])))
    );
    assert_eq!(
        collision(&prefix, &fields, &at(&["ui", "panels"])),
        Some(Collision::Holds(at(&["ui", "panels", "left"])))
    );
    assert_eq!(collision(&prefix, &fields, &at(&["ui", "other"])), None);
}

#[test]
fn a_struct_seeds_its_prefix_and_every_node_and_map_under_it() {
    let fields = vec![
        leaf(&["theme"], "theme"),
        FieldDescriptor {
            role: Role::Node,
            children: vec![leaf(&["left"], "left")],
            ..leaf(&["panels"], "panels")
        },
        FieldDescriptor {
            role: Role::Entries,
            ..leaf(&["widths"], "widths")
        },
    ];
    let seeded = seeded_namespaces(&at(&["ui"]), &fields);
    assert_eq!(seeded[0], at(&["ui"]));
    assert!(seeded.contains(&at(&["ui", "panels"])));
    assert!(seeded.contains(&at(&["ui", "widths"])));
    assert!(!seeded.contains(&at(&["ui", "theme"])));
}
