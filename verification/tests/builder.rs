use amethystate::builder::{default_backend, Backend, Layout, StoreBuilder};
use std::path::Path;

fn extension_of(builder: &StoreBuilder) -> Option<String> {
    Path::new(builder.path())
        .extension()
        .and_then(|e| e.to_str())
        .map(|e| e.to_string())
}

#[test]
fn a_defaulted_extension_follows_the_engine_that_is_named() {
    let builder = StoreBuilder::new("app/settings").backend(Backend::Json);

    assert_eq!(
        extension_of(&builder).as_deref(),
        Some("json"),
        "the engine was named after the path was built, and the path did not follow"
    );
}

#[test]
fn the_last_engine_named_is_the_one_the_path_follows() {
    let builder = StoreBuilder::new("app/settings")
        .backend(Backend::Json)
        .backend(Backend::Toml);

    assert_eq!(extension_of(&builder).as_deref(), Some("toml"));
}

#[test]
fn an_extension_the_caller_wrote_is_left_alone() {
    let builder = StoreBuilder::new("app/settings.conf").backend(Backend::Json);

    assert_eq!(extension_of(&builder).as_deref(), Some("conf"));
}

#[test]
fn an_unnamed_engine_keeps_the_default_extension() {
    let builder = StoreBuilder::new("app/settings");

    assert_eq!(
        extension_of(&builder).as_deref(),
        Some(default_backend().extension())
    );
}

#[test]
fn a_defaulted_path_is_the_path_with_the_engine_extension() {
    assert_eq!(StoreBuilder::new("app/settings").path(), "app/settings.redb");
    assert_eq!(
        StoreBuilder::new("app/settings").backend(Backend::Sqlite).path(),
        "app/settings.db"
    );
    assert_eq!(
        StoreBuilder::new("app/settings.conf").backend(Backend::Ron).path(),
        "app/settings.conf"
    );
}

#[test]
fn a_dot_that_begins_a_name_is_not_an_extension() {
    assert_eq!(StoreBuilder::new("app/.settings").path(), "app/.settings.redb");
    assert_eq!(StoreBuilder::new("settings").path(), "settings.redb");
}

#[test]
fn the_engine_named_last_is_the_one_that_runs() {
    let builder = StoreBuilder::new("a").backend(Backend::Toml);
    assert_eq!(builder.engine(), Backend::Toml);
    assert!(!builder.reads_in_parallel());
    assert!(builder.parallel_reads(true).reads_in_parallel());
}

#[test]
fn each_engine_says_what_it_carries() {
    let all = [
        Backend::Redb,
        Backend::Json,
        Backend::Toml,
        Backend::Ron,
        Backend::Sqlite,
    ];
    let extensions: Vec<&str> = all.iter().map(|b| b.extension()).collect();
    assert_eq!(extensions, ["redb", "json", "toml", "ron", "db"]);
    let ceilings: Vec<usize> = all.iter().map(|b| b.depth_ceiling()).collect();
    assert_eq!(ceilings, [512, 127, 80, 64, 127]);
    let whole: Vec<bool> = all.iter().map(|b| b.a_commit_covers_the_whole_store()).collect();
    assert_eq!(whole, [false, true, true, true, false]);
    let past_i64: Vec<bool> = all.iter().map(|b| b.holds_an_integer_past_i64()).collect();
    assert_eq!(past_i64, [true, true, false, true, true]);
    let non_finite: Vec<bool> = all.iter().map(|b| b.holds_non_finite_floats()).collect();
    assert_eq!(non_finite, [true, false, true, true, false]);
    let enums: Vec<bool> = all.iter().map(|b| b.holds_enums()).collect();
    assert_eq!(enums, [true, true, true, false, true]);
    let nested: Vec<bool> = all.iter().map(|b| b.keeps_a_nested_option()).collect();
    assert_eq!(nested, [false, false, false, true, false]);
}

#[test]
fn the_default_layout_is_the_app_one() {
    assert_eq!(Layout::default_for_build(), Layout::App);
    assert_eq!(default_backend(), Backend::Redb);
}
