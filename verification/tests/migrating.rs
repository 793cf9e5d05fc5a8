use amethystate::files::{hash_of, FileStanding};
use amethystate::migrating::{hex32, open_write_next, record_under_way, settle, Migrating, OpenWrite, Settling};

fn standing(hash: u128) -> FileStanding {
    FileStanding { len: 10, modified: 1, hash }
}

#[test]
fn a_hash_is_written_as_thirty_two_hex_digits() {
    assert_eq!(hex32(0), "0".repeat(32));
    assert_eq!(hex32(0xff), format!("{}ff", "0".repeat(30)));
    assert_eq!(hex32(u128::MAX), "f".repeat(32));
    for h in [1u128, 0xdead_beef, 0x0123_4567_89ab_cdef_fedc_ba98_7654_3210, 1 << 127] {
        assert_eq!(hex32(h), format!("{h:032x}"));
    }
}

#[test]
fn the_record_names_both_datas_by_their_hashes() {
    let record = record_under_way("meta".to_string(), "written", Some(standing(7)));
    assert_eq!(record.meta, "meta");
    assert_eq!(record.data, format!("{:032x}", hash_of("written")));
    assert_ne!(record.data, hex32(hash_of("found")), "the hash depends on the data");
    assert_eq!(record.was, hex32(7));

    let fresh = record_under_way("meta".to_string(), "written", None);
    assert_eq!(fresh.was, "");
}

#[test]
fn data_that_landed_finishes_the_write() {
    let record = record_under_way("meta".to_string(), "written", Some(standing(7)));
    assert_eq!(settle(Some(standing(hash_of("written"))), &record), Settling::Finish);
}

#[test]
fn data_as_it_was_found_runs_the_migration_again() {
    let record = record_under_way("meta".to_string(), "written", Some(standing(7)));
    assert_eq!(settle(Some(standing(7)), &record), Settling::RunAgain);

    let fresh = record_under_way("meta".to_string(), "written", None);
    assert_eq!(settle(None, &fresh), Settling::RunAgain);
}

#[test]
fn data_that_is_neither_is_refused() {
    let record = Migrating {
        meta: "meta".to_string(),
        data: hex32(1),
        was: hex32(2),
    };
    assert_eq!(settle(Some(standing(3)), &record), Settling::Refuse);
    assert_eq!(settle(None, &record), Settling::Refuse);
}

fn run(meta: bool, data: bool, fails_at: Option<OpenWrite>) -> Vec<OpenWrite> {
    let mut at = OpenWrite::Start;
    let mut seen = vec![at];
    while at != OpenWrite::Done && at != OpenWrite::Failed {
        let landed = Some(at) != fails_at;
        at = open_write_next(meta, data, at, landed);
        seen.push(at);
    }
    seen
}

#[test]
fn an_open_that_changed_both_writes_the_record_before_the_data() {
    assert_eq!(
        run(true, true, None),
        vec![OpenWrite::Start, OpenWrite::BackUpMeta, OpenWrite::BackUpData, OpenWrite::WriteRecord, OpenWrite::WriteData, OpenWrite::CleanUp, OpenWrite::FinishMeta, OpenWrite::Sweep, OpenWrite::Done]
    );
}

#[test]
fn an_open_that_changed_one_file_writes_only_it() {
    assert_eq!(run(true, false, None), vec![OpenWrite::Start, OpenWrite::BackUpMeta, OpenWrite::WriteMeta, OpenWrite::CleanUp, OpenWrite::Sweep, OpenWrite::Done]);
    assert_eq!(run(false, true, None), vec![OpenWrite::Start, OpenWrite::BackUpData, OpenWrite::WriteData, OpenWrite::CleanUp, OpenWrite::Sweep, OpenWrite::Done]);
    assert_eq!(run(false, false, None), vec![OpenWrite::Start, OpenWrite::CleanUp, OpenWrite::Sweep, OpenWrite::Done]);
}

#[test]
fn a_failed_write_puts_back_what_it_touched() {
    assert_eq!(run(true, true, Some(OpenWrite::WriteData)).last(), Some(&OpenWrite::Failed));
    assert!(run(true, true, Some(OpenWrite::WriteData)).contains(&OpenWrite::Restore { meta: true, data: true }));
    assert!(run(true, true, Some(OpenWrite::WriteRecord)).contains(&OpenWrite::Restore { meta: true, data: true }));
    assert!(run(false, true, Some(OpenWrite::WriteData)).contains(&OpenWrite::Restore { meta: false, data: true }));
    assert!(run(true, false, Some(OpenWrite::WriteMeta)).contains(&OpenWrite::Restore { meta: true, data: false }));
    let no_copy = run(true, true, Some(OpenWrite::BackUpData));
    assert_eq!(no_copy, vec![OpenWrite::Start, OpenWrite::BackUpMeta, OpenWrite::BackUpData, OpenWrite::Failed]);
    let late = run(true, true, Some(OpenWrite::FinishMeta));
    assert!(!late.iter().any(|s| matches!(s, OpenWrite::Restore { .. })), "the data landed and the record finishes it");
}
