//! How an open that changed both of a text store's files writes them so that
//! a stop between the two is finished or undone by the next open rather than
//! read as either half.
//!
//! Each file is one atomic replace and nothing joins the two. So the metadata
//! goes first as it was found, with a record of the write under way: the
//! metadata it is about to become, a hash of the data being written and a
//! hash of the data found. The next open reads the record back and compares
//! the data file it finds against both hashes.

use crate::files::{hash_of, xxh3_128_of, FileStanding};
use vstd::prelude::*;
use vstd::string::StringSliceAdditionalSpecFns;

verus! {

/// The record of a write of both files under way.
#[derive(Debug)]
pub struct Migrating {
    /// The metadata the write is about to leave.
    pub meta: String,
    /// The hash of the data being written, in hex.
    pub data: String,
    /// The hash of the data the open found, in hex, or nothing where there
    /// was no data file.
    pub was: String,
}

/// The character a hex digit is written as, lower case.
pub open spec fn hex_digit(d: nat) -> char {
    if d < 10 {
        (('0' as nat) + d) as char
    } else {
        (('a' as nat) + (d - 10)) as char
    }
}

/// `h` in `n` hex digits, most significant first, with leading zeros.
pub open spec fn hex_of(h: nat, n: nat) -> Seq<char>
    decreases n,
{
    if n == 0 {
        Seq::empty()
    } else {
        hex_of(h / 16, (n - 1) as nat).push(hex_digit(h % 16))
    }
}

/// How a hash is written in the record: 32 hex digits.
pub open spec fn hex32_of(h: u128) -> Seq<char> {
    hex_of(h as nat, 32)
}

fn digit_text(d: u128) -> (s: &'static str)
    requires
        d < 16,
    ensures
        s@ == seq![hex_digit(d as nat)],
{
    proof {
        reveal_strlit("0");
        reveal_strlit("1");
        reveal_strlit("2");
        reveal_strlit("3");
        reveal_strlit("4");
        reveal_strlit("5");
        reveal_strlit("6");
        reveal_strlit("7");
        reveal_strlit("8");
        reveal_strlit("9");
        reveal_strlit("a");
        reveal_strlit("b");
        reveal_strlit("c");
        reveal_strlit("d");
        reveal_strlit("e");
        reveal_strlit("f");
    }
    let s = if d == 0 {
        "0"
    } else if d == 1 {
        "1"
    } else if d == 2 {
        "2"
    } else if d == 3 {
        "3"
    } else if d == 4 {
        "4"
    } else if d == 5 {
        "5"
    } else if d == 6 {
        "6"
    } else if d == 7 {
        "7"
    } else if d == 8 {
        "8"
    } else if d == 9 {
        "9"
    } else if d == 10 {
        "a"
    } else if d == 11 {
        "b"
    } else if d == 12 {
        "c"
    } else if d == 13 {
        "d"
    } else if d == 14 {
        "e"
    } else {
        "f"
    };
    s
}

fn push_hex(h: u128, n: usize, s: &mut String)
    ensures
        final(s)@ == old(s)@ + hex_of(h as nat, n as nat),
    decreases n,
{
    if n == 0 {
        assert(old(s)@ + hex_of(h as nat, 0) =~= old(s)@);
    } else {
        push_hex(h / 16, n - 1, s);
        let d = h % 16;
        s.append(digit_text(d));
        assert(hex_of(h as nat, n as nat) == hex_of((h / 16) as nat, (n - 1) as nat).push(hex_digit((h % 16) as nat)));
        assert(final(s)@ =~= old(s)@ + hex_of(h as nat, n as nat));
    }
}

/// A hash as the record writes it.
pub fn hex32(h: u128) -> (s: String)
    ensures
        s@ == hex32_of(h),
{
    let mut s = String::new();
    push_hex(h, 32, &mut s);
    assert(s@ =~= hex32_of(h));
    s
}

/// How the record writes the hash of a data file that may not be there.
pub open spec fn standing_text(found: Option<FileStanding>) -> Seq<char> {
    match found {
        Some(s) => hex32_of(s.hash),
        None => Seq::empty(),
    }
}

fn standing_hex(found: Option<FileStanding>) -> (s: String)
    ensures
        s@ == standing_text(found),
{
    match found {
        Some(standing) => hex32(standing.hash),
        None => String::new(),
    }
}

/// The record an open leaves before it writes both files: `finished` is the
/// metadata it is about to write, `writing` the data, and `found` how the
/// data file stood when the open read it.
pub fn record_under_way(finished: String, writing: &str, found: Option<FileStanding>) -> (r: Migrating)
    ensures
        r.meta@ == finished@,
        r.data@ == hex32_of(xxh3_128_of(writing.spec_bytes())),
        r.was@ == standing_text(found),
{
    let data = hex32(hash_of(writing));
    let was = standing_hex(found);
    Migrating { meta: finished, data, was }
}

/// What the next open does with a record it finds.
#[derive(Debug, Clone, Copy, PartialEq, Eq, Structural)]
pub enum Settling {
    /// The data landed: the metadata the record holds is written, and the
    /// record goes with the rest of what it replaces.
    Finish,
    /// The data never landed: the record is dropped, and the migration runs
    /// again over what was found.
    RunAgain,
    /// The data file is neither, so which data the metadata describes cannot
    /// be told, and the open fails.
    Refuse,
}

/// [`settle`], as a value.
pub open spec fn settling_of(now: Seq<char>, data: Seq<char>, was: Seq<char>) -> Settling {
    if now == data {
        Settling::Finish
    } else if now == was {
        Settling::RunAgain
    } else {
        Settling::Refuse
    }
}

/// What to do about a record of a write under way, given how the data file
/// stands now.
pub fn settle(now: Option<FileStanding>, record: &Migrating) -> (s: Settling)
    ensures
        s == settling_of(standing_text(now), record.data@, record.was@),
{
    let now_text = standing_hex(now);
    if now_text == record.data {
        Settling::Finish
    } else if now_text == record.was {
        Settling::RunAgain
    } else {
        Settling::Refuse
    }
}

/// Whichever of its two writes an open stopped between, the next open can
/// tell: where the data file holds what was being written, the write is
/// finished; where it still stands as it was found, the write is finished
/// or run again; it is never refused.
pub proof fn a_stopped_open_is_settled_by_the_next(writing: Seq<u8>, found: Option<FileStanding>, landed: FileStanding)
    requires
        landed.hash == xxh3_128_of(writing),
    ensures
        settling_of(standing_text(Some(landed)), hex32_of(xxh3_128_of(writing)), standing_text(found)) == Settling::Finish,
        settling_of(standing_text(found), hex32_of(xxh3_128_of(writing)), standing_text(found)) != Settling::Refuse,
{
}

/// Where an open that changed its files stands in writing them.
#[derive(Debug, Clone, Copy, PartialEq, Eq, Structural)]
pub enum OpenWrite {
    /// Nothing done yet.
    Start,
    /// Copy the metadata file aside.
    BackUpMeta,
    /// Copy the data file aside.
    BackUpData,
    /// Write the metadata as it was found, with the record of the write
    /// under way.
    WriteRecord,
    /// Write the metadata as it now is.
    WriteMeta,
    /// Write the data.
    WriteData,
    /// Put the named files back from their copies.
    Restore { meta: bool, data: bool },
    /// Take away the copies of the files written.
    CleanUp,
    /// Write the finished metadata over the record; the data has landed.
    FinishMeta,
    /// Take away the temporaries beside both files.
    Sweep,
    /// Both files hold what the open wrote.
    Done,
    /// The open fails.
    Failed,
}

/// The step after `at`, where `landed` says whether `at` went through: with
/// both files changed, copies of both, then the metadata as found with the
/// record, then the data, then the copies go and the finished metadata is
/// written; with one changed, a copy of that one and then it. A failed write
/// puts back from their copies the files it and the writes before it touched;
/// a copy that cannot be made, or finished metadata that cannot be written
/// over a record whose data landed, fails the open with nothing put back.
pub open spec fn open_write_next_of(meta_changed: bool, data_changed: bool, at: OpenWrite, landed: bool) -> OpenWrite {
    let both = meta_changed && data_changed;
    match at {
        OpenWrite::Start => if meta_changed {
            OpenWrite::BackUpMeta
        } else if data_changed {
            OpenWrite::BackUpData
        } else {
            OpenWrite::CleanUp
        },
        OpenWrite::BackUpMeta => if !landed {
            OpenWrite::Failed
        } else if both {
            OpenWrite::BackUpData
        } else {
            OpenWrite::WriteMeta
        },
        OpenWrite::BackUpData => if !landed {
            OpenWrite::Failed
        } else if both {
            OpenWrite::WriteRecord
        } else {
            OpenWrite::WriteData
        },
        OpenWrite::WriteRecord => if landed {
            OpenWrite::WriteData
        } else {
            OpenWrite::Restore { meta: true, data: true }
        },
        OpenWrite::WriteMeta => if landed {
            OpenWrite::CleanUp
        } else {
            OpenWrite::Restore { meta: true, data: false }
        },
        OpenWrite::WriteData => if landed {
            OpenWrite::CleanUp
        } else if both {
            OpenWrite::Restore { meta: true, data: true }
        } else {
            OpenWrite::Restore { meta: false, data: true }
        },
        OpenWrite::Restore { .. } => OpenWrite::Failed,
        OpenWrite::CleanUp => if both { OpenWrite::FinishMeta } else { OpenWrite::Sweep },
        OpenWrite::FinishMeta => if landed { OpenWrite::Sweep } else { OpenWrite::Failed },
        OpenWrite::Sweep => OpenWrite::Done,
        OpenWrite::Done => OpenWrite::Done,
        OpenWrite::Failed => OpenWrite::Failed,
    }
}

/// What an open that changed its files does after `at`; see
/// [`open_write_next_of`].
pub fn open_write_next(meta_changed: bool, data_changed: bool, at: OpenWrite, landed: bool) -> (n: OpenWrite)
    ensures
        n == open_write_next_of(meta_changed, data_changed, at, landed),
{
    let both = meta_changed && data_changed;
    match at {
        OpenWrite::Start => if meta_changed {
            OpenWrite::BackUpMeta
        } else if data_changed {
            OpenWrite::BackUpData
        } else {
            OpenWrite::CleanUp
        },
        OpenWrite::BackUpMeta => if !landed {
            OpenWrite::Failed
        } else if both {
            OpenWrite::BackUpData
        } else {
            OpenWrite::WriteMeta
        },
        OpenWrite::BackUpData => if !landed {
            OpenWrite::Failed
        } else if both {
            OpenWrite::WriteRecord
        } else {
            OpenWrite::WriteData
        },
        OpenWrite::WriteRecord => if landed {
            OpenWrite::WriteData
        } else {
            OpenWrite::Restore { meta: true, data: true }
        },
        OpenWrite::WriteMeta => if landed {
            OpenWrite::CleanUp
        } else {
            OpenWrite::Restore { meta: true, data: false }
        },
        OpenWrite::WriteData => if landed {
            OpenWrite::CleanUp
        } else if both {
            OpenWrite::Restore { meta: true, data: true }
        } else {
            OpenWrite::Restore { meta: false, data: true }
        },
        OpenWrite::Restore { .. } => OpenWrite::Failed,
        OpenWrite::CleanUp => if both { OpenWrite::FinishMeta } else { OpenWrite::Sweep },
        OpenWrite::FinishMeta => if landed { OpenWrite::Sweep } else { OpenWrite::Failed },
        OpenWrite::Sweep => OpenWrite::Done,
        OpenWrite::Done => OpenWrite::Done,
        OpenWrite::Failed => OpenWrite::Failed,
    }
}

/// Where an open stands after `k` steps from the start, every one of them
/// going through.
pub open spec fn open_write_after(meta_changed: bool, data_changed: bool, k: nat) -> OpenWrite
    decreases k,
{
    if k == 0 {
        OpenWrite::Start
    } else {
        open_write_next_of(meta_changed, data_changed, open_write_after(meta_changed, data_changed, (k - 1) as nat), true)
    }
}

/// The record goes before the data: with both files changed, the data is
/// written only straight after the record landed, and where everything
/// lands the open takes copies of both, writes the record, then the data,
/// then takes the copies away and writes the finished metadata, and is done.
pub proof fn the_record_goes_before_the_data(at: OpenWrite, landed: bool)
    ensures
        open_write_next_of(true, true, at, landed) == OpenWrite::WriteData ==> at == OpenWrite::WriteRecord && landed,
        open_write_next_of(true, true, at, landed) == OpenWrite::WriteRecord ==> at == OpenWrite::BackUpData && landed,
        open_write_after(true, true, 1) == OpenWrite::BackUpMeta,
        open_write_after(true, true, 2) == OpenWrite::BackUpData,
        open_write_after(true, true, 3) == OpenWrite::WriteRecord,
        open_write_after(true, true, 4) == OpenWrite::WriteData,
        open_write_after(true, true, 5) == OpenWrite::CleanUp,
        open_write_after(true, true, 6) == OpenWrite::FinishMeta,
        open_write_after(true, true, 7) == OpenWrite::Sweep,
        open_write_after(true, true, 8) == OpenWrite::Done,
{
    reveal_with_fuel(open_write_after, 9);
}

/// A write that fails puts back every file touched so far: the file it was
/// writing and every file written before it. With one file changed, exactly
/// that file is put back; with both, both are, the data included when the
/// record was what failed. A failure anywhere else puts nothing back.
pub proof fn a_failed_write_puts_back_what_it_touched(meta_changed: bool, data_changed: bool, at: OpenWrite)
    ensures
        at == OpenWrite::WriteRecord ==> open_write_next_of(meta_changed, data_changed, at, false) == (OpenWrite::Restore { meta: true, data: true }),
        at == OpenWrite::WriteMeta ==> open_write_next_of(meta_changed, data_changed, at, false) == (OpenWrite::Restore { meta: true, data: false }),
        at == OpenWrite::WriteData ==> open_write_next_of(meta_changed, data_changed, at, false) == (OpenWrite::Restore {
            meta: meta_changed && data_changed,
            data: true,
        }),
        open_write_next_of(meta_changed, data_changed, at, false) is Restore ==> (at == OpenWrite::WriteRecord || at == OpenWrite::WriteMeta || at == OpenWrite::WriteData),
        !meta_changed && !data_changed ==> open_write_after(meta_changed, data_changed, 3) == OpenWrite::Done,
{
    reveal_with_fuel(open_write_after, 4);
}

} // verus!
