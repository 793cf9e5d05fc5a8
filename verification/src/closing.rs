//! What a store answers about writes while its background saving struggles,
//! and what a second close is told about the first.

use vstd::prelude::*;

verus! {

/// Why a write is turned away before it is buffered.
#[derive(Debug)]
pub enum WriteRefusal {
    /// The store was closed, and nothing is left to write a buffered value.
    Closed,
    /// The background flush is not landing; `reason` says why.
    CommitFailed { reason: String },
}

/// Whether a write may be buffered: not once the store is closed, and not
/// while the background flush has given up. The flushing thread being dead
/// is no state a write can be taken in at all: a caller that finds it dead
/// stops there rather than asking.
pub fn write_gate(stopped: bool, failure: Option<&str>, dead: bool) -> (r: Result<(), WriteRefusal>)
    requires
        stopped || failure is Some || !dead,
    ensures
        stopped ==> r matches Err(WriteRefusal::Closed),
        !stopped && failure is Some ==> (r matches Err(WriteRefusal::CommitFailed { reason }) && reason@ == failure->0@),
        !stopped && failure is None ==> r is Ok,
{
    if stopped {
        return Err(WriteRefusal::Closed);
    }
    match failure {
        Some(why) => Err(WriteRefusal::CommitFailed { reason: why.to_string() }),
        None => Ok(()),
    }
}

/// What the closing flush did, kept for the closes that come after it: only
/// the first close flushes, and every later one must not say the buffer
/// landed where it did not.
pub struct ClosingRecord<K> {
    failed: Option<(K, String)>,
}

pub open spec fn closing_said(said: Seq<char>) -> Seq<char> {
    "the closing flush had already failed: "@ + said
}

impl<K: Copy> ClosingRecord<K> {
    /// Nothing closed yet.
    pub fn new() -> (r: ClosingRecord<K>)
        ensures
            r.failure() is None,
    {
        ClosingRecord { failed: None }
    }

    /// The failure recorded, as its kind and what it said.
    pub closed spec fn failure(&self) -> Option<(K, Seq<char>)> {
        match self.failed {
            Some((kind, said)) => Some((kind, said@)),
            None => None,
        }
    }

    /// Records what the closing flush did and hands it back unchanged.
    pub fn settled(&mut self, outcome: Result<(), (K, String)>) -> (r: Result<(), (K, String)>)
        ensures
            r == outcome,
            match outcome {
                Ok(()) => final(self).failure() == old(self).failure(),
                Err((kind, said)) => final(self).failure() == Some((kind, said@)),
            },
    {
        match &outcome {
            Ok(()) => {},
            Err((kind, said)) => {
                self.failed = Some((*kind, said.clone()));
            },
        }
        outcome
    }

    /// The same answer again, for a close that found the store already closed.
    pub fn again(&self) -> (r: Result<(), (K, String)>)
        ensures
            match self.failure() {
                None => r is Ok,
                Some((kind, said)) => r matches Err((k, s)) && k == kind && s@ == closing_said(said),
            },
    {
        match &self.failed {
            None => Ok(()),
            Some((kind, said)) => {
                let mut told = String::from_str("the closing flush had already failed: ");
                told.append(said.as_str());
                Err((*kind, told))
            },
        }
    }
}

} // verus!
