//! What opening does when the store's own files will not read, and what a
//! save does when the file it is about to replace will not read.

use vstd::prelude::*;

verus! {

/// What opening does when the store's own files will not read.
#[derive(Debug, Clone, Copy, PartialEq, Eq, Structural)]
pub enum WillNotOpen {
    /// The open fails and the files are left exactly as they are.
    Refuse,
    /// The files are taken away and an empty store is opened in their place.
    StartFresh,
}

impl Default for WillNotOpen {
    fn default() -> (r: WillNotOpen)
        ensures
            r == WillNotOpen::Refuse,
    {
        WillNotOpen::Refuse
    }
}

/// What a save does when the file it is about to replace will not read.
#[derive(Debug, Clone, Copy, PartialEq, Eq, Structural)]
pub enum WhenItWillNotRead {
    /// Leave the file alone and let the save come round again, for as long
    /// as this many milliseconds from the first save that met it; once it
    /// runs out, set the file aside and write.
    TryAgainFor(u64),
    /// Move the unreadable file aside and save at once.
    SetAside,
    /// Refuse the save and leave the file exactly as it is.
    Refuse,
    /// Write the document whole; what was in the file is gone.
    Overwrite,
}

impl Default for WhenItWillNotRead {
    /// Long enough for an editor to finish writing, short enough that a file
    /// somebody broke is not held against the store all day: five seconds.
    fn default() -> (r: WhenItWillNotRead)
        ensures
            r == WhenItWillNotRead::TryAgainFor(5000),
    {
        WhenItWillNotRead::TryAgainFor(5000)
    }
}

/// What a save does about a file that will not read, given how long it has
/// been since the first save that met it.
#[derive(Debug, Clone, Copy, PartialEq, Eq, Structural)]
pub enum Unreadable {
    /// Leave the file and try the save again later.
    Wait,
    /// Move the file aside, then write.
    SetAside,
    /// Refuse the save.
    Refuse,
    /// Write over the file.
    Overwrite,
}

pub open spec fn unreadable_of(policy: WhenItWillNotRead, waited: u64) -> Unreadable {
    match policy {
        WhenItWillNotRead::TryAgainFor(window) => if waited < window {
            Unreadable::Wait
        } else {
            Unreadable::SetAside
        },
        WhenItWillNotRead::SetAside => Unreadable::SetAside,
        WhenItWillNotRead::Refuse => Unreadable::Refuse,
        WhenItWillNotRead::Overwrite => Unreadable::Overwrite,
    }
}

/// What the policy says to do with a file that will not read, `waited`
/// milliseconds after the first save that met it: a window waits until it
/// runs out and then sets the file aside.
pub fn what_to_do_about(policy: WhenItWillNotRead, waited: u64) -> (r: Unreadable)
    ensures
        r == unreadable_of(policy, waited),
{
    match policy {
        WhenItWillNotRead::TryAgainFor(window) => if waited < window {
            Unreadable::Wait
        } else {
            Unreadable::SetAside
        },
        WhenItWillNotRead::SetAside => Unreadable::SetAside,
        WhenItWillNotRead::Refuse => Unreadable::Refuse,
        WhenItWillNotRead::Overwrite => Unreadable::Overwrite,
    }
}

} // verus!
