use amethystate::builder::{default_backend, Backend};
use amethystate::format::{settled, FactRefusal, StorageFactSet};

fn ours() -> StorageFactSet {
    StorageFactSet::of(default_backend())
}

#[test]
fn a_store_written_by_this_build_opens() {
    let theirs = ours();
    assert!(theirs.read_by(&ours()).is_ok());
}

#[test]
fn a_fact_outside_the_deciding_namespaces_is_ignored() {
    let theirs = ours().with("wrote.by", "something newer");
    assert!(theirs.read_by(&ours()).is_ok());
}

#[test]
fn an_unknown_deciding_fact_refuses_and_names_it() {
    let theirs = ours().with("codec.frames", "chunked");

    let refused = theirs.read_by(&ours()).unwrap_err();
    let printed = refused.explain();

    assert!(
        printed.contains("codec.frames=chunked"),
        "the refusal names the fact: {printed}"
    );
}

#[test]
fn a_known_fact_with_an_unknown_value_refuses_too() {
    let theirs = ours().with("path.sep", "/");

    let refused = theirs.read_by(&ours()).unwrap_err();
    let printed = refused.explain();

    assert!(
        printed.contains("path.sep"),
        "the refusal names the fact: {printed}"
    );
}

#[test]
fn a_store_with_no_facts_at_all_predates_them() {
    assert!(StorageFactSet::default().is_empty());
    assert!(StorageFactSet::default().read_by(&ours()).is_ok());
}

#[test]
fn a_set_that_states_some_and_not_the_rest_is_refused_by_the_missing_name() {
    let theirs =
        StorageFactSet::default().with("codec", ours().get("codec").expect("a codec"));

    let refused = theirs
        .read_by(&ours())
        .expect_err("a set stating one deciding fact is not a set stating none");
    let printed = refused.explain();

    assert!(
        printed.contains("the store records no "),
        "a fact the store leaves out is a different refusal from one it states: {printed}"
    );
}

#[test]
fn a_flat_store_written_before_the_key_encoding_is_refused_by_name() {
    let mut older = StorageFactSet::new();
    for (name, value) in StorageFactSet::of(Backend::Redb).pairs() {
        if name != "path.key" {
            older = older.with(name, value);
        }
    }

    let refused = older
        .read_by(&StorageFactSet::of(Backend::Redb))
        .expect_err("its keys are the joined spelling and this build writes levels");
    let printed = refused.explain();

    assert!(
        printed.contains("path.key=levels"),
        "the refusal says what this build writes: {printed}"
    );
}

#[test]
fn one_engines_store_is_refused_by_another() {
    let written = StorageFactSet::of(Backend::Redb);

    let refused = written
        .read_by(&StorageFactSet::of(Backend::Json))
        .expect_err("msgpack bytes are not json");
    let printed = refused.explain();

    assert!(
        printed.contains("codec"),
        "the refusal names the codec: {printed}"
    );
}

#[test]
fn what_a_build_does_not_understand_survives_its_writes() {
    let theirs = ours().with("wrote.by", "redb 9.0").with("codec", "msgpack");

    let kept = theirs.unknown_to(&ours());
    let written = ours().carrying(&kept);

    assert_eq!(written.get("wrote.by"), Some("redb 9.0"));
    assert_eq!(
        written.get("codec"),
        ours().get("codec"),
        "and what it does understand is its own"
    );
}

#[test]
fn each_engine_writes_its_own_facts() {
    let redb = StorageFactSet::of(Backend::Redb);
    assert_eq!(redb.get("codec"), Some("msgpack"));
    assert_eq!(redb.get("codec.struct"), Some("map"));
    assert_eq!(redb.get("codec.bytes"), Some("bin"));
    assert_eq!(redb.get("path.key"), Some("levels"));
    assert_eq!(redb.get("layout"), Some("flat"));
    assert_eq!(redb.get("path.sep"), Some("."));
    assert_eq!(redb.get("path.escape"), Some("\\"));
    assert_eq!(redb.len(), 7);

    let json = StorageFactSet::of(Backend::Json);
    assert_eq!(json.get("codec"), Some("json"));
    assert_eq!(json.get("path.key"), Some("joined"));
    assert_eq!(json.get("layout"), Some("nested"));
    assert_eq!(json.get("codec.struct"), None);
    assert_eq!(json.len(), 5);

    assert_eq!(StorageFactSet::of(Backend::Sqlite).get("codec"), Some("sonic-json"));
}

#[test]
fn every_refusal_has_its_own_words() {
    let unknown = ours().with("codec.frames", "chunked").read_by(&ours()).unwrap_err();
    assert!(matches!(unknown, FactRefusal::UnknownFact { .. }));

    let other_value = ours().with("path.sep", "/").read_by(&ours()).unwrap_err();
    assert_eq!(
        other_value,
        FactRefusal::UnknownValue {
            name: "path.sep".to_string(),
            theirs: "/".to_string(),
            ours: ".".to_string(),
        }
    );
    assert_eq!(
        other_value.explain(),
        "fact path.sep is /, and this build writes .: a known fact with an unknown value, which is the case that gets forgotten"
    );

    let missing = StorageFactSet::new().with("codec", "msgpack").read_by(&ours()).unwrap_err();
    assert!(matches!(missing, FactRefusal::NotRecorded { .. }));
}

#[test]
fn settling_a_fresh_store_writes_this_builds_facts() {
    let written = settled(None, Backend::Json).unwrap().expect("something to write");
    assert!(written.same_as(&StorageFactSet::of(Backend::Json)));

    let same = StorageFactSet::of(Backend::Json);
    assert!(settled(Some(&same), Backend::Json).unwrap().is_none(), "nothing to change");

    let with_more = StorageFactSet::of(Backend::Json).with("wrote.by", "later");
    assert!(settled(Some(&with_more), Backend::Json).unwrap().is_none());

    let foreign = StorageFactSet::of(Backend::Redb);
    assert!(settled(Some(&foreign), Backend::Json).is_err());
}

#[test]
fn a_copy_of_a_set_states_the_same_facts() {
    let facts = StorageFactSet::of(Backend::Json);
    let copy = facts.clone();
    assert_eq!(copy.pairs(), facts.pairs());
}
