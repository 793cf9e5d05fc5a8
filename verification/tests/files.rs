use amethystate::files::{
    a_leftover_of, a_mark_of_ours, hash_of, is_a_mark_of_ours, temporaries_of, vouched_for,
    what_we_left, FileStanding, TEMPORARY, WRITTEN_BY_US,
};

fn expected_vouch(nonce: u32) -> u32 {
    let mut bytes = Vec::new();
    bytes.extend_from_slice(&nonce.to_le_bytes());
    bytes.extend_from_slice(&WRITTEN_BY_US.to_le_bytes());
    xxhash_rust::xxh3::xxh3_64(&bytes) as u32
}

#[test]
fn a_mark_this_library_wrote_reads_back_as_its_own() {
    for _ in 0..64 {
        assert!(is_a_mark_of_ours(&a_mark_of_ours()));
    }
}

#[test]
fn a_name_of_the_same_shape_is_not_a_mark() {
    assert!(
        !is_a_mark_of_ours("0123456789abcdef"),
        "sixteen hex characters are a shape, and a sweep that takes a shape takes \
         whatever else happens to have it"
    );
    assert!(!is_a_mark_of_ours("draft"), "a name somebody typed");
    assert!(!is_a_mark_of_ours(""), "nothing at all");
    assert!(
        !is_a_mark_of_ours("00000000ffffffff"),
        "a nonce with the wrong answer beside it"
    );
}

#[test]
fn a_mark_with_one_character_changed_stops_being_one() {
    let mark = a_mark_of_ours();
    let mut bent: Vec<char> = mark.chars().collect();
    bent[3] = if bent[3] == 'a' { 'b' } else { 'a' };

    assert!(!is_a_mark_of_ours(&bent.into_iter().collect::<String>()));
}

#[test]
fn a_mark_is_a_nonce_and_its_hash_in_hex() {
    for nonce in [0u32, 1, 0xdead_beef, u32::MAX] {
        let vouched = vouched_for(nonce);
        assert_eq!(vouched, expected_vouch(nonce));
        let mark = format!("{nonce:08x}{vouched:08x}");
        assert!(is_a_mark_of_ours(&mark), "{mark}");
        let upper = format!("{nonce:08X}{vouched:08X}");
        assert!(is_a_mark_of_ours(&upper), "{upper}");
    }
    assert_ne!(vouched_for(0), 0, "the hash is not the nonce handed back");
    assert_ne!(vouched_for(7), 7);
}

#[test]
fn a_fresh_mark_is_sixteen_lowercase_hex_digits() {
    let mark = a_mark_of_ours();
    assert_eq!(mark.len(), 16);
    assert!(mark.chars().all(|c| c.is_ascii_hexdigit() && !c.is_ascii_uppercase()));
    let nonce = u32::from_str_radix(&mark[..8], 16).unwrap();
    let vouched = u32::from_str_radix(&mark[8..], 16).unwrap();
    assert_eq!(vouched, expected_vouch(nonce));
}

#[test]
fn a_temporary_is_named_after_the_file_it_becomes() {
    assert_eq!(temporaries_of("dir/settings.json"), "settings.json.");
    assert_eq!(temporaries_of("settings.json"), "settings.json.");
    assert_eq!(TEMPORARY, ".tmp");
}

#[test]
fn a_leftover_carries_the_name_a_mark_and_the_ending() {
    let mark = a_mark_of_ours();
    let ours = format!("settings.json.{mark}{TEMPORARY}");
    assert!(a_leftover_of(&ours, "dir/settings.json"));

    assert!(!a_leftover_of(&ours, "dir/other.json"), "another file's temporary");
    assert!(
        !a_leftover_of("settings.json.0123456789abcdef.tmp", "dir/settings.json"),
        "a name of the same shape"
    );
    assert!(!a_leftover_of(&format!("settings.json.{mark}"), "dir/settings.json"));
    assert!(!a_leftover_of("settings.json", "dir/settings.json"));
    assert!(!a_leftover_of("", "dir/settings.json"));
    assert!(!a_leftover_of(&format!("settings.json.{mark}x.tmp"), "dir/settings.json"));
}

#[test]
fn what_was_left_is_kept_only_where_it_is_what_was_written() {
    let content = "{\"a\": 1}";
    let hash = hash_of(content);
    assert_eq!(hash, xxhash_rust::xxh3::xxh3_128(content.as_bytes()));
    assert_ne!(hash_of("one"), hash_of("two"));

    let standing = FileStanding { len: 8, modified: 42, hash };
    assert_eq!(what_we_left(Some(standing), content), Some(standing));

    let changed = FileStanding { len: 8, modified: 42, hash: hash ^ 1 };
    assert_eq!(what_we_left(Some(changed), content), None);
    assert_eq!(what_we_left(None, content), None);
}
