use amethystate::path::StorePath;
use amethystate::places::Places;

fn path(joined: &str) -> StorePath {
    let levels: Vec<&str> = joined.split('.').collect();
    StorePath::from_segments(&levels)
}

#[test]
fn one_schema_taking_the_same_place_twice_takes_it_once() {
    let mut places = Places::new();

    places.take(&path("ui.theme"), "Ui").unwrap();
    places.take(&path("ui.theme"), "Ui").unwrap();

    assert_eq!(
        places.len(),
        1,
        "reconstructing a struct must not pile the same place up"
    );
}

#[test]
fn two_schemas_cannot_take_one_place() {
    let mut places = Places::new();
    places.take(&path("ui.theme"), "Ui").unwrap();

    let taken = places.take(&path("ui.theme"), "Theme").unwrap_err();

    assert_eq!(taken.held_at, path("ui.theme"));
    assert_eq!(taken.held_by, "Ui");
    assert_eq!(taken.at, path("ui.theme"));
    assert_eq!(taken.wanted_by, "Theme");
}

#[test]
fn a_place_covers_what_is_under_it() {
    let mut places = Places::new();
    places.take(&path("widths"), "Columns").unwrap();

    let taken = places
        .take(&path("widths.left"), "Panels")
        .expect_err("a map owns its entries, so nobody else may put one there");

    assert_eq!(taken.held_at, path("widths"));
    assert_eq!(taken.held_by, "Columns");
    assert_eq!(taken.at, path("widths.left"));
    assert_eq!(taken.wanted_by, "Panels");
}

#[test]
fn a_place_is_refused_by_one_already_inside_it() {
    let mut places = Places::new();
    places.take(&path("ui.panels.left"), "Panels").unwrap();

    let taken = places
        .take(&path("ui.panels"), "Ui")
        .expect_err("the outer one would take the level the inner one lives on");

    assert_eq!(taken.held_at, path("ui.panels.left"));
    assert_eq!(taken.held_by, "Panels");
}

#[test]
fn a_level_may_be_shared_when_the_places_are_not() {
    let mut places = Places::new();

    places.take(&path("ui.accent"), "UiColors").unwrap();
    places
        .take(&path("ui.density"), "UiLayout")
        .expect("two schemas may sit on one level while owning different keys");
}

#[test]
fn places_a_sibling_that_sorts_inside_the_run_does_not_hide_an_ancestor() {
    let mut places = Places::new();

    places.take(&path("ui"), "Ui").unwrap();
    places.take(&path("ui!x"), "Other").unwrap();

    let taken = places
        .take(&path("ui.theme"), "Theme")
        .expect_err("`ui` holds `ui.theme` and must refuse it");

    assert_eq!(
        taken.held_at,
        path("ui"),
        "`ui!x` sorts between `ui` and `ui.theme`, and a refusal naming it \
         would mean the walk stopped there instead of reaching the ancestor"
    );
    assert_eq!(taken.held_by, "Ui");
}

#[test]
fn a_string_prefix_is_not_a_place() {
    let mut places = Places::new();
    places.take(&path("ui"), "Ui").unwrap();

    places
        .take(&path("uix.width"), "Uix")
        .expect("`ui` does not hold `uix.width`");
}

#[test]
fn a_place_names_who_took_it() {
    let mut places = Places::new();
    places.take(&path("ui.theme"), "Ui").unwrap();

    assert_eq!(places.declared_by(&path("ui.theme")), Some("Ui"));
    assert_eq!(places.declared_by(&path("ui.other")), None);
}

#[test]
fn the_places_are_sorted_however_they_arrived() {
    let mut places = Places::new();
    for (at, by) in [
        ("pot.ato", "A"),
        ("lid", "B"),
        ("potato", "A"),
        ("pot!luck", "B"),
        ("ato", "A"),
        ("pot.ato.skin", "A"),
    ] {
        let _ = places.take(&path(at), by);
    }

    let held: Vec<String> = places
        .holders()
        .iter()
        .map(|o| o.path.segments.join("."))
        .collect();
    assert_eq!(held, ["ato", "lid", "pot.ato", "pot.ato.skin", "pot!luck", "potato"]);
}

#[test]
fn one_owner_may_take_any_set_of_places() {
    let mut places = Places::new();
    for at in ["pot", "pot.ato", "lid", "pot", "potato.lid", "pot.ato.skin"] {
        assert!(places.take(&path(at), "Alone").is_ok(), "`{at}` was refused");
    }
    assert_eq!(places.len(), 5);
}

#[test]
fn the_first_place_inside_in_path_order_is_the_one_named() {
    let mut places = Places::new();
    places.take(&path("pot.zz"), "B").unwrap();
    places.take(&path("pot.ato"), "B").unwrap();

    let taken = places.take(&path("pot"), "A").unwrap_err();
    assert_eq!(taken.held_at, path("pot.ato"));
}
