//! Which flushes a waiter for a durable write can take as its answer.
//!
//! A flush takes a number as it begins, before it gathers what it writes, and
//! a waiter notes the last number taken when it starts waiting. Only a flush
//! numbered above that can answer it: one already under way may have gathered
//! its writes before the waiter's own was there.

use vstd::prelude::*;

verus! {

/// How the flushes of one store have ended: the last number handed out, the
/// highest-numbered flush that landed, the highest that failed, and the
/// failure last given up on with the flush it reaches to.
pub struct Settled<W> {
    begun: u64,
    landed: u64,
    failed: u64,
    given_up: Option<(u64, W)>,
}

pub struct SettledView<W> {
    pub begun: u64,
    pub landed: u64,
    pub failed: u64,
    pub given_up: Option<(u64, W)>,
}

impl<W> View for Settled<W> {
    type V = SettledView<W>;

    closed spec fn view(&self) -> SettledView<W> {
        SettledView { begun: self.begun, landed: self.landed, failed: self.failed, given_up: self.given_up }
    }
}

/// What a waiter that noted `after` is told, if anything yet: a landing
/// numbered above `after` answers it, and failing that a give-up that reaches
/// above it does.
pub open spec fn answer_of<W>(s: SettledView<W>, after: u64) -> Option<Result<(), W>> {
    if s.landed > after {
        Some(Ok(()))
    } else {
        match s.given_up {
            Some((through, why)) => if through > after {
                Some(Err(why))
            } else {
                None
            },
            None => None,
        }
    }
}

pub open spec fn max_of(a: u64, b: u64) -> u64 {
    if a < b {
        b
    } else {
        a
    }
}

impl<W> Settled<W> {
    /// No flush begun, none ended.
    pub fn new() -> (r: Settled<W>)
        ensures
            r@.begun == 0,
            r@.landed == 0,
            r@.failed == 0,
            r@.given_up is None,
    {
        Settled { begun: 0, landed: 0, failed: 0, given_up: None }
    }

    /// Numbers a flush that is about to gather what it writes.
    pub fn begin(&mut self) -> (n: u64)
        requires
            old(self)@.begun < u64::MAX,
        ensures
            n == old(self)@.begun + 1,
            final(self)@.begun == n,
            final(self)@.landed == old(self)@.landed,
            final(self)@.failed == old(self)@.failed,
            final(self)@.given_up == old(self)@.given_up,
    {
        self.begun = self.begun + 1;
        self.begun
    }

    /// The last number handed out, which a waiter notes as it starts waiting.
    pub fn begun(&self) -> (n: u64)
        ensures
            n == self@.begun,
    {
        self.begun
    }

    /// Records how the flush numbered `flush` ended. A landing answers whoever
    /// waits; a failure is only noted, since the flush is retried, and the
    /// waiters hear of it once it is given up on.
    pub fn settle(&mut self, flush: u64, landed: bool)
        ensures
            final(self)@.begun == old(self)@.begun,
            final(self)@.given_up == old(self)@.given_up,
            landed ==> final(self)@.landed == max_of(old(self)@.landed, flush) && final(self)@.failed == old(self)@.failed,
            !landed ==> final(self)@.failed == max_of(old(self)@.failed, flush) && final(self)@.landed == old(self)@.landed,
    {
        if landed {
            if self.landed < flush {
                self.landed = flush;
            }
        } else {
            if self.failed < flush {
                self.failed = flush;
            }
        }
    }

    /// Gives up on the failing flushes, with why: every waiter a failed flush
    /// could have answered is answered with it.
    pub fn gave_up(&mut self, why: W)
        ensures
            final(self)@.begun == old(self)@.begun,
            final(self)@.landed == old(self)@.landed,
            final(self)@.failed == old(self)@.failed,
            final(self)@.given_up == Some((old(self)@.failed, why)),
    {
        self.given_up = Some((self.failed, why));
    }

    /// What a waiter that noted `after` is told, if anything yet.
    pub fn answer(&self, after: u64) -> (r: Option<Result<(), &W>>)
        ensures
            match answer_of(self@, after) {
                None => r is None,
                Some(Ok(())) => r == Some(Ok::<(), &W>(())),
                Some(Err(why)) => r matches Some(Err(w)) && *w == why,
            },
    {
        if self.landed > after {
            return Some(Ok(()));
        }
        match &self.given_up {
            Some((through, why)) => if *through > after {
                Some(Err(why))
            } else {
                None
            },
            None => None,
        }
    }
}

/// A waiter for a durable write: the last flush number it saw begun, or a
/// store that was already gone when it was asked for.
#[derive(Debug, Clone, Copy, PartialEq, Eq, Structural)]
pub enum Waiting {
    Flush { after: u64 },
    Gone,
}

/// What a waiter hears when it looks.
#[derive(Debug, PartialEq, Eq)]
pub enum Heard<W> {
    /// A flush that began after it landed.
    Landed,
    /// The flushes that could have answered it were given up on, for this.
    GaveUp(W),
    /// The store was closed before it was asked.
    Closed,
    /// Nothing yet.
    Waiting,
}

/// Starts waiting on `settled`: only a flush numbered above what is begun now
/// can answer.
pub fn awaiting<W>(settled: &Settled<W>) -> (r: Waiting)
    ensures
        r == (Waiting::Flush { after: settled@.begun }),
{
    Waiting::Flush { after: settled.begun() }
}

/// What `waiting` hears from `settled` now.
pub fn heard<'a, W>(waiting: Waiting, settled: &'a Settled<W>) -> (r: Heard<&'a W>)
    ensures
        match waiting {
            Waiting::Gone => r == Heard::<&W>::Closed,
            Waiting::Flush { after } => match answer_of(settled@, after) {
                None => r == Heard::<&W>::Waiting,
                Some(Ok(())) => r == Heard::<&W>::Landed,
                Some(Err(why)) => r matches Heard::GaveUp(w) && *w == why,
            },
        },
{
    match waiting {
        Waiting::Gone => Heard::Closed,
        Waiting::Flush { after } => match settled.answer(after) {
            None => Heard::Waiting,
            Some(Ok(())) => Heard::Landed,
            Some(Err(why)) => Heard::GaveUp(why),
        },
    }
}

/// A flush already under way, or one that ended before a waiter started,
/// cannot answer it, however it ended.
pub proof fn a_flush_begun_before_the_wait_answers_nothing<W>(s: SettledView<W>, after: u64, flush: u64, landed: bool)
    requires
        flush <= after,
    ensures
        answer_of(
            if landed {
                SettledView { landed: max_of(s.landed, flush), ..s }
            } else {
                SettledView { failed: max_of(s.failed, flush), ..s }
            },
            after,
        ) == answer_of(s, after),
{
}

/// A flush numbered above what a waiter noted answers it once it lands.
pub proof fn a_landing_after_the_wait_answers_it<W>(s: SettledView<W>, after: u64, flush: u64)
    requires
        flush > after,
    ensures
        answer_of(SettledView { landed: max_of(s.landed, flush), ..s }, after) == Some(Ok::<(), W>(())),
{
}

/// A failure on its own answers nobody: the flush is retried.
pub proof fn a_failure_alone_answers_nothing_new<W>(s: SettledView<W>, after: u64, flush: u64)
    ensures
        answer_of(SettledView { failed: max_of(s.failed, flush), ..s }, after) == answer_of(s, after),
{
}

/// Giving up answers, with why, every waiter that a failed flush began after
/// and that no landing has answered.
pub proof fn giving_up_answers_who_waited_on_a_failure<W>(s: SettledView<W>, after: u64, why: W)
    requires
        s.failed > after,
        s.landed <= after,
    ensures
        answer_of(SettledView { given_up: Some((s.failed, why)), ..s }, after) == Some(Err::<(), W>(why)),
{
}

} // verus!
