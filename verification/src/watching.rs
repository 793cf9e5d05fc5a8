//! What a text store decides when its file changes under it: whether an
//! outside edit may be taken, what one look at the file comes to, and when a
//! burst of file events has gone quiet.

use std::sync::atomic::AtomicU64;
use std::sync::atomic::Ordering;
use vstd::prelude::*;

verus! {

/// Where the document stands against the file, for the one question that
/// matters when an outside edit arrives: may it be taken.
#[derive(Debug, Clone, Copy, PartialEq, Eq, Structural)]
pub enum Standing {
    /// Document and file agree. What the file says may replace what is held.
    Settled,
    /// The document holds writes the file was never given.
    Unsaved,
    /// A flush landed between reading the file and taking the lock, so what
    /// came back is a version behind. Reading again settles it.
    Raced,
}

pub open spec fn standing_of(written: u64, saved: u64, read_after: u64) -> Standing {
    if written != saved {
        Standing::Unsaved
    } else if saved != read_after {
        Standing::Raced
    } else {
        Standing::Settled
    }
}

/// Where the document stands, given how many writes it has taken, how many
/// of them have been saved, and how many had been saved when the file was
/// read.
pub fn standing_from(written: u64, saved: u64, read_after: u64) -> (s: Standing)
    ensures
        s == standing_of(written, saved, read_after),
{
    if written != saved {
        Standing::Unsaved
    } else if saved != read_after {
        Standing::Raced
    } else {
        Standing::Settled
    }
}

/// The same, reading the two counters as they stand now. Other threads move
/// them, so what holds is that the answer is the standing of some pair of
/// values the counters held.
pub fn standing(writes: &AtomicU64, persisted: &AtomicU64, read_after: u64) -> (s: Standing)
    ensures
        exists|written: u64, saved: u64| s == standing_of(written, saved, read_after),
{
    let written = writes.load(Ordering::Acquire);
    let saved = persisted.load(Ordering::Acquire);
    standing_from(written, saved, read_after)
}

/// What came of one look at the file.
#[derive(Debug, Clone, Copy, PartialEq, Eq, Structural)]
pub enum Looked {
    /// Take what the file says: the document becomes it.
    Take,
    /// The file says what the document already says.
    Same,
    /// Not taken, and why.
    Held(Standing),
    /// The file could not be read, would not parse, or came back empty where
    /// the store holds keys - which is what a half-written file looks like.
    Unreadable,
}

pub open spec fn looked_of(
    read: bool,
    wrote_exactly: bool,
    parsed: bool,
    standing: Standing,
    file_empty: bool,
    held_empty: bool,
    same_render: bool,
) -> Looked {
    if !read {
        Looked::Unreadable
    } else if wrote_exactly {
        Looked::Same
    } else if !parsed {
        Looked::Unreadable
    } else if standing != Standing::Settled {
        Looked::Held(standing)
    } else if file_empty && !held_empty {
        Looked::Unreadable
    } else if same_render {
        Looked::Same
    } else {
        Looked::Take
    }
}

/// One look at the file, decided: whether it could be read, whether it holds
/// exactly the bytes this store last wrote, whether it parsed, how the
/// document stands, whether the file holds no keys and whether the document
/// holds none, and whether the two render the same.
///
/// A file is read as empty only when the store agrees it is, and what the
/// file says is taken only while the document and the file are settled.
pub fn what_a_look_finds(
    read: bool,
    wrote_exactly: bool,
    parsed: bool,
    standing: Standing,
    file_empty: bool,
    held_empty: bool,
    same_render: bool,
) -> (l: Looked)
    ensures
        l == looked_of(read, wrote_exactly, parsed, standing, file_empty, held_empty, same_render),
{
    if !read {
        Looked::Unreadable
    } else if wrote_exactly {
        Looked::Same
    } else if !parsed {
        Looked::Unreadable
    } else if standing != Standing::Settled {
        Looked::Held(standing)
    } else if file_empty && !held_empty {
        Looked::Unreadable
    } else if same_render {
        Looked::Same
    } else {
        Looked::Take
    }
}

/// How many times a look that lost a race is worth taking again.
pub const RETRIES: usize = 3;

/// What the thread that noticed the change does after a look.
#[derive(Debug, Clone, Copy, PartialEq, Eq, Structural)]
pub enum AfterLook {
    /// Tell whoever is subscribed what changed, and stop.
    Tell,
    /// Nothing to do.
    Done,
    /// Leave the file alone and hold off saving over it.
    HoldOff,
    /// Look again.
    LookAgain,
    /// The race was lost every time; the next change brings the edit round.
    GiveUp,
}

pub open spec fn after_look_of(looked: Looked, looks_taken: usize) -> AfterLook {
    match looked {
        Looked::Take => AfterLook::Tell,
        Looked::Same | Looked::Held(Standing::Settled) => AfterLook::Done,
        Looked::Unreadable | Looked::Held(Standing::Unsaved) => AfterLook::HoldOff,
        Looked::Held(Standing::Raced) => if looks_taken < RETRIES {
            AfterLook::LookAgain
        } else {
            AfterLook::GiveUp
        },
    }
}

/// What follows a look, given how many looks have been taken so far this
/// one included: a look that lost a race to this store's own save is taken
/// again, up to [`RETRIES`] in all.
pub fn after_look(looked: Looked, looks_taken: usize) -> (a: AfterLook)
    ensures
        a == after_look_of(looked, looks_taken),
{
    match looked {
        Looked::Take => AfterLook::Tell,
        Looked::Same | Looked::Held(Standing::Settled) => AfterLook::Done,
        Looked::Unreadable | Looked::Held(Standing::Unsaved) => AfterLook::HoldOff,
        Looked::Held(Standing::Raced) => if looks_taken < RETRIES {
            AfterLook::LookAgain
        } else {
            AfterLook::GiveUp
        },
    }
}

/// Where a wait for the file to go quiet stands.
#[derive(Debug, Clone, Copy, PartialEq, Eq, Structural)]
pub enum Quiet {
    /// The wait is over: `true` when the file went quiet, `false` when the
    /// store it belongs to is going.
    Over(bool),
    /// Sleep until the quiet period's end, or until somebody stops it.
    Sleep,
}

pub open spec fn quiet_of(stopped: bool, period_over: bool) -> Quiet {
    if stopped {
        Quiet::Over(false)
    } else if period_over {
        Quiet::Over(true)
    } else {
        Quiet::Sleep
    }
}

/// Whether a wait for the file to go quiet is over, each time it wakes and
/// before it first sleeps: a stop ends it at once, and otherwise it ends once
/// the period has run out.
pub fn quiet(stopped: bool, period_over: bool) -> (q: Quiet)
    ensures
        q == quiet_of(stopped, period_over),
{
    if stopped {
        Quiet::Over(false)
    } else if period_over {
        Quiet::Over(true)
    } else {
        Quiet::Sleep
    }
}

/// A store that is going never waits, and a settled wait is one nobody
/// stopped.
pub proof fn a_stopped_wait_is_not_a_settled_one(period_over: bool)
    ensures
        quiet_of(true, period_over) == Quiet::Over(false),
        quiet_of(false, period_over) != Quiet::Over(false),
{
}

/// Only a settled document takes what the file says.
pub proof fn an_edit_is_taken_only_while_settled(
    read: bool,
    wrote_exactly: bool,
    parsed: bool,
    standing: Standing,
    file_empty: bool,
    held_empty: bool,
    same_render: bool,
)
    requires
        looked_of(read, wrote_exactly, parsed, standing, file_empty, held_empty, same_render) == Looked::Take,
    ensures
        standing == Standing::Settled,
        read && parsed && !wrote_exactly && !same_render,
        !(file_empty && !held_empty),
{
}


/// Every look that takes the file is followed by telling the subscribers what
/// changed, however many looks it took; and only such a look tells them.
pub proof fn a_taken_edit_is_always_told(looked: Looked, looks_taken: usize)
    ensures
        after_look_of(Looked::Take, looks_taken) == AfterLook::Tell,
        after_look_of(looked, looks_taken) == AfterLook::Tell <==> looked == Looked::Take,
{
}

} // verus!
