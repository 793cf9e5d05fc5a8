//! The decisions of a save of a store kept as one text document: whether the
//! file has to be read first, what to do with what came of reading it, and
//! what to do with what came of writing it.
//!
//! A save takes what this store wrote and has not saved, and either writes it
//! down or puts it back: it is never dropped. The reading and writing are the
//! caller's; what follows each is decided here.

use crate::filename::{extension, extension_of, set_extension, with_extension};
use crate::opening::Unreadable;
use vstd::prelude::*;

verus! {

/// How many times a save reads the file and finds the ground moved before it
/// gives up.
pub const SAVES: usize = 3;

/// How a file stood: its length, and when it was last modified, in
/// nanoseconds since the epoch.
#[derive(Debug, Clone, Copy, PartialEq, Eq, Structural)]
pub struct Stat {
    pub len: u64,
    pub modified: u128,
}

pub open spec fn holding_of(held: u64, merged: u64, left: Option<Stat>, now: Option<Stat>) -> bool {
    if held != merged {
        true
    } else {
        match (left, now) {
            (Some(l), Some(n)) => l != n,
            (None, Some(_)) => true,
            (_, None) => false,
        }
    }
}

/// Whether the file holds something this store has not taken, so that a save
/// must read it and lay its own writes over it rather than write over it.
///
/// `held` counts the writes this store has had to hold back and `merged` those
/// a save has laid over the file; `left` is how the file stood when this store
/// last wrote it, and `now` how it stands. Nothing recorded is not the same as
/// nothing changed: a store that has not written yet knows nothing of how the
/// file stands. Where there is no file there is nothing to lay anything over.
pub fn holding(held: u64, merged: u64, left: Option<Stat>, now: Option<Stat>) -> (r: bool)
    ensures
        r == holding_of(held, merged, left, now),
{
    if held != merged {
        return true;
    }
    match (left, now) {
        (Some(l), Some(n)) => l.len != n.len || l.modified != n.modified,
        (None, Some(_)) => true,
        (_, None) => false,
    }
}

/// What an unreadable file is moved aside to: the same name with
/// `.unreadable` after its extension, or as its extension where it had none.
pub open spec fn aside_name(p: Seq<char>) -> Seq<char> {
    with_extension(
        p,
        match extension(p) {
            Some(e) => e + ".unreadable"@,
            None => "unreadable"@,
        },
    )
}

/// Where an unreadable file is moved aside to.
pub fn aside_of(p: &str) -> (r: String)
    ensures
        r@ == aside_name(p@),
{
    match extension_of(p) {
        Some(had) => {
            let mut ext = had;
            ext.append(".unreadable");
            set_extension(p, ext.as_str())
        },
        None => set_extension(p, "unreadable"),
    }
}

/// What came of laying this store's writes over what the file holds now.
#[derive(Debug, Clone, Copy, PartialEq, Eq, Structural)]
pub enum Laid {
    /// The file was taken into the document, or is to be written over whole.
    Took,
    /// A write of ours landed between the file being read and the document
    /// being locked; reading again settles it.
    Raced,
    /// The file is not to be touched, and what this store holds stays held.
    LeaveItAlone,
}

/// What laying over the file comes to, before anything is merged.
#[derive(Debug, Clone, Copy, PartialEq, Eq, Structural)]
pub enum Laying {
    /// Take the file in: sweep what this store swept, then put back every
    /// place it wrote.
    Merge,
    /// Write the document whole: what was in the file is gone.
    WriteWhole,
    /// Move the file aside, then write the document whole.
    SetAsideThenWrite,
    /// Put back what was taken and read again.
    Raced,
    /// Touch nothing.
    LeaveItAlone,
}

pub open spec fn laying_of(read: bool, unreadable: Unreadable, raced: bool, file_empty: bool, doc_empty: bool) -> Laying {
    if !read {
        match unreadable {
            Unreadable::Wait | Unreadable::Refuse => Laying::LeaveItAlone,
            Unreadable::SetAside => Laying::SetAsideThenWrite,
            Unreadable::Overwrite => Laying::WriteWhole,
        }
    } else if raced {
        Laying::Raced
    } else if file_empty && !doc_empty {
        Laying::WriteWhole
    } else {
        Laying::Merge
    }
}

/// What to do with the file just read: whether it read, what the store was
/// told to do with one that will not (already worked out against how long it
/// has not read), whether a write of ours landed since the read, and whether
/// the file came back holding no keys where the document holds some - which
/// is what a half-written file looks like, and is written over rather than
/// taken.
pub fn laying(read: bool, unreadable: Unreadable, raced: bool, file_empty: bool, doc_empty: bool) -> (r: Laying)
    ensures
        r == laying_of(read, unreadable, raced, file_empty, doc_empty),
{
    if !read {
        match unreadable {
            Unreadable::Wait | Unreadable::Refuse => Laying::LeaveItAlone,
            Unreadable::SetAside => Laying::SetAsideThenWrite,
            Unreadable::Overwrite => Laying::WriteWhole,
        }
    } else if raced {
        Laying::Raced
    } else if file_empty && !doc_empty {
        Laying::WriteWhole
    } else {
        Laying::Merge
    }
}

/// What came of the file being moved aside: a file that would not move is
/// not written over.
pub fn set_aside(moved: bool) -> (r: Laid)
    ensures
        r == if moved { Laid::Took } else { Laid::LeaveItAlone },
{
    if moved {
        Laid::Took
    } else {
        Laid::LeaveItAlone
    }
}

/// What came of writing the file.
#[derive(Debug, Clone, Copy, PartialEq, Eq, Structural)]
pub enum Persisted {
    /// The file was replaced.
    Replaced,
    /// The file moved since it was read, so nothing was written.
    FileMoved,
    /// The write failed.
    Failed,
}

/// Why a save gave up.
#[derive(Debug, Clone, Copy, PartialEq, Eq, Structural)]
pub enum SaveFailure {
    /// The file will not read and the store was told to leave it alone.
    LeftAlone,
    /// The write itself failed.
    Failed,
    /// Every attempt found the ground moved before it could write.
    KeptMoving,
}

/// What a save does next.
#[derive(Debug, Clone, Copy, PartialEq, Eq, Structural)]
pub enum SaveStep {
    /// Read the file and lay this store's writes over it.
    LayOver,
    /// Write the file, if it still stands as it was read.
    Persist,
    /// The write landed: record it as saved.
    Done,
    /// Put back what was taken, and try again if attempts remain.
    Again { hold: bool },
    /// Put back what was taken and give up.
    GiveUp { why: SaveFailure, hold: bool },
}

/// Whether a step hands back what the save took.
pub open spec fn puts_back(step: SaveStep) -> bool {
    step matches SaveStep::Again { .. } || step matches SaveStep::GiveUp { .. }
}

/// How an attempt begins: by reading the file where it holds something this
/// store has not taken, and by writing at once where it does not.
pub fn begin_attempt(holding: bool) -> (s: SaveStep)
    ensures
        s == if holding { SaveStep::LayOver } else { SaveStep::Persist },
{
    if holding {
        SaveStep::LayOver
    } else {
        SaveStep::Persist
    }
}

pub open spec fn after_laying_of(laid: Laid) -> SaveStep {
    match laid {
        Laid::Took => SaveStep::Persist,
        Laid::Raced => SaveStep::Again { hold: false },
        Laid::LeaveItAlone => SaveStep::GiveUp { why: SaveFailure::LeftAlone, hold: true },
    }
}

/// What follows laying over the file. A file left alone is held against the
/// next save, so that it reads the file again.
pub fn after_laying(laid: Laid) -> (s: SaveStep)
    ensures
        s == after_laying_of(laid),
{
    match laid {
        Laid::Took => SaveStep::Persist,
        Laid::Raced => SaveStep::Again { hold: false },
        Laid::LeaveItAlone => SaveStep::GiveUp { why: SaveFailure::LeftAlone, hold: true },
    }
}

pub open spec fn after_persisting_of(persisted: Persisted) -> SaveStep {
    match persisted {
        Persisted::Replaced => SaveStep::Done,
        Persisted::FileMoved => SaveStep::Again { hold: true },
        Persisted::Failed => SaveStep::GiveUp { why: SaveFailure::Failed, hold: false },
    }
}

/// What follows writing the file. A file that moved under the write is held
/// against the next attempt, so that it reads the file first.
pub fn after_persisting(persisted: Persisted) -> (s: SaveStep)
    ensures
        s == after_persisting_of(persisted),
{
    match persisted {
        Persisted::Replaced => SaveStep::Done,
        Persisted::FileMoved => SaveStep::Again { hold: true },
        Persisted::Failed => SaveStep::GiveUp { why: SaveFailure::Failed, hold: false },
    }
}

/// Whether another attempt is made after `made` of them: three in all, and
/// then the save gives up saying the ground kept moving.
pub fn another_attempt(made: usize) -> (r: bool)
    ensures
        r == (made < SAVES),
{
    made < SAVES
}

/// A save never drops what it took: whatever came of reading or writing the
/// file, the save goes on to write, lands, or hands it back.
pub proof fn a_save_never_drops_what_it_took(laid: Laid, persisted: Persisted)
    ensures
        after_laying_of(laid) == SaveStep::Persist || puts_back(after_laying_of(laid)),
        after_persisting_of(persisted) == SaveStep::Done || puts_back(after_persisting_of(persisted)),
        after_persisting_of(persisted) == SaveStep::Done <==> persisted == Persisted::Replaced,
{
}

/// A file that will not read is never merged: it is left alone, moved aside,
/// or written over, as the store was told.
pub proof fn an_unreadable_file_is_never_taken_in(unreadable: Unreadable, raced: bool, file_empty: bool, doc_empty: bool)
    ensures
        laying_of(false, unreadable, raced, file_empty, doc_empty) != Laying::Merge,
        laying_of(false, unreadable, raced, file_empty, doc_empty) == Laying::LeaveItAlone
            <==> (unreadable == Unreadable::Wait || unreadable == Unreadable::Refuse),
{
}


/// A file that moved since this store last left it - in length, in the time
/// it was last modified, or both - is read and has this store's writes laid
/// over it before a save writes it; so is one this store never left, and any
/// file at all while writes are held back. A file standing exactly as this
/// store left it, with nothing held back, is written over at once, and with
/// no file there is nothing to read.
pub proof fn a_moved_file_is_read_before_it_is_written(held: u64, merged: u64, left: Stat, now: Stat)
    ensures
        left.len != now.len ==> holding_of(held, merged, Some(left), Some(now)),
        left.modified != now.modified ==> holding_of(held, merged, Some(left), Some(now)),
        holding_of(held, merged, None, Some(now)),
        held != merged ==> holding_of(held, merged, Some(left), Some(now)),
        held == merged && left.len == now.len && left.modified == now.modified ==> !holding_of(held, merged, Some(left), Some(now)),
        held == merged ==> !holding_of(held, merged, Some(left), None),
{
}

/// A file that reads back holding no keys while the document holds some is
/// never taken in, whatever the store was told about unreadable files: it is
/// what a half-written file looks like, and the document is written whole over
/// it. A merge happens only for a file that read, with no write of ours racing
/// it, and that holds keys or is read against a document holding none.
pub proof fn a_file_read_empty_is_never_taken_over_a_document_with_keys(unreadable: Unreadable, raced: bool, file_empty: bool, doc_empty: bool)
    ensures
        !raced && file_empty && !doc_empty ==> laying_of(true, unreadable, raced, file_empty, doc_empty) == Laying::WriteWhole,
        laying_of(true, unreadable, raced, file_empty, doc_empty) == Laying::Merge ==> !raced && (!file_empty || doc_empty),
        laying_of(true, unreadable, raced, file_empty, doc_empty) != Laying::LeaveItAlone,
{
}

} // verus!
