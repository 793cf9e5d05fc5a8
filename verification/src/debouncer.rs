//! The decisions of the one thread that waits out a quiet period and then
//! writes.
//!
//! The thread asks [`waits_on`] what to wait for in the state it is in, waits
//! for it - a message on its channel, a message or the end of the quiet
//! period, or the write itself - and hands what came back to [`next_state`].
//! Every wait the thread does is one of these, so a `Stop` is read at each of
//! them and cannot be missed by a thread that happens to be asleep.

use vstd::prelude::*;

verus! {

/// Why the thread was woken: `Schedule` restarts the quiet period, `Now` cuts
/// it short for a caller that is waiting on the commit, and `Stop` ends the
/// thread.
#[derive(Clone, Copy, PartialEq, Eq, Debug, Structural)]
pub enum Trigger {
    Schedule,
    Now,
    Stop,
}

/// What the thread does once the write returns.
#[derive(Clone, Copy, PartialEq, Eq, Debug, Structural)]
pub enum Next {
    Wake,
    Stop,
}

/// Where the thread is.
#[derive(Clone, Copy, PartialEq, Eq, Debug, Structural)]
pub enum State {
    Idle,
    Settling,
    Flushing { then_stop: bool },
    Stopped,
}

/// What the thread waits for before it can move on.
#[derive(Clone, Copy, PartialEq, Eq, Debug, Structural)]
pub enum Wait {
    /// The next message, however long it takes.
    Message,
    /// The next message, or the end of the quiet period.
    MessageOrQuiet,
    /// The write, told whether it is the last pass.
    Write { last: bool },
    /// Nothing: the thread has left.
    Nothing,
}

/// What came back from the wait.
#[derive(Clone, Copy, PartialEq, Eq, Debug, Structural)]
pub enum Event {
    Received(Trigger),
    /// The quiet period ran out with no message.
    Quiet,
    /// Every sender is gone.
    HungUp,
    /// The write returned.
    Wrote(Next),
}

pub open spec fn wait_of(state: State) -> Wait {
    match state {
        State::Idle => Wait::Message,
        State::Settling => Wait::MessageOrQuiet,
        State::Flushing { then_stop } => Wait::Write { last: then_stop },
        State::Stopped => Wait::Nothing,
    }
}

/// Whether `event` is something the wait of `state` can hand back.
pub open spec fn fits(state: State, event: Event) -> bool {
    match wait_of(state) {
        Wait::Message => event matches Event::Received(_) || event == Event::HungUp,
        Wait::MessageOrQuiet => event matches Event::Received(_) || event == Event::HungUp || event == Event::Quiet,
        Wait::Write { .. } => event matches Event::Wrote(_),
        Wait::Nothing => true,
    }
}

/// One transition.
///
/// | from | `Schedule` | `Now` | `Stop` or hung up | quiet | write: wake | write: stop |
/// |---|---|---|---|---|---|---|
/// | Idle | Settling | Flushing | Stopped | - | - | - |
/// | Settling | Settling | Flushing | Flushing, then Stopped | Flushing | - | - |
/// | Flushing | - | - | - | - | Idle, or Stopped if it was the last | Stopped |
/// | Stopped | Stopped | Stopped | Stopped | Stopped | Stopped | Stopped |
pub open spec fn next_of(state: State, event: Event) -> State {
    match state {
        State::Idle => match event {
            Event::Received(Trigger::Schedule) => State::Settling,
            Event::Received(Trigger::Now) => State::Flushing { then_stop: false },
            _ => State::Stopped,
        },
        State::Settling => match event {
            Event::Received(Trigger::Schedule) => State::Settling,
            Event::Received(Trigger::Now) | Event::Quiet => State::Flushing { then_stop: false },
            _ => State::Flushing { then_stop: true },
        },
        State::Flushing { then_stop } => match event {
            Event::Wrote(Next::Wake) => if then_stop { State::Stopped } else { State::Idle },
            _ => State::Stopped,
        },
        State::Stopped => State::Stopped,
    }
}

/// What the thread waits for in `state`. A write reached through a stop is
/// told it is the last pass, so a retrying one does not try for as long as
/// the disk stays broken with a caller waiting on the join.
pub fn waits_on(state: State) -> (w: Wait)
    ensures
        w == wait_of(state),
{
    match state {
        State::Idle => Wait::Message,
        State::Settling => Wait::MessageOrQuiet,
        State::Flushing { then_stop } => Wait::Write { last: then_stop },
        State::Stopped => Wait::Nothing,
    }
}

/// Where the thread goes from `state` once its wait handed back `event`.
pub fn next_state(state: State, event: Event) -> (r: State)
    requires
        fits(state, event),
    ensures
        r == next_of(state, event),
{
    match state {
        State::Idle => match event {
            Event::Received(Trigger::Schedule) => State::Settling,
            Event::Received(Trigger::Now) => State::Flushing { then_stop: false },
            _ => State::Stopped,
        },
        State::Settling => match event {
            Event::Received(Trigger::Schedule) => State::Settling,
            Event::Received(Trigger::Now) | Event::Quiet => State::Flushing { then_stop: false },
            _ => State::Flushing { then_stop: true },
        },
        State::Flushing { then_stop } => match event {
            Event::Wrote(Next::Wake) => if then_stop {
                State::Stopped
            } else {
                State::Idle
            },
            _ => State::Stopped,
        },
        State::Stopped => State::Stopped,
    }
}

/// A stopped thread stays stopped, whatever arrives.
pub proof fn a_stopped_thread_stays_stopped(event: Event)
    ensures
        next_of(State::Stopped, event) == State::Stopped,
        wait_of(State::Stopped) == Wait::Nothing,
{
}

/// A stop is never swallowed: read while idle it ends the thread, and read
/// while a quiet period is being waited out it runs that write once, as the
/// last pass, and then ends the thread however the write came back.
pub proof fn a_stop_ends_the_thread_after_at_most_one_write(next: Next)
    ensures
        next_of(State::Idle, Event::Received(Trigger::Stop)) == State::Stopped,
        next_of(State::Idle, Event::HungUp) == State::Stopped,
        next_of(State::Settling, Event::Received(Trigger::Stop)) == (State::Flushing { then_stop: true }),
        next_of(State::Settling, Event::HungUp) == (State::Flushing { then_stop: true }),
        wait_of(State::Flushing { then_stop: true }) == (Wait::Write { last: true }),
        next_of(State::Flushing { then_stop: true }, Event::Wrote(next)) == State::Stopped,
{
}

/// A write that asks to stop ends the thread, whether or not it was the last
/// pass: a stop read between a failing write's attempts is not lost.
pub proof fn a_write_that_asks_to_stop_ends_the_thread(then_stop: bool)
    ensures
        next_of(State::Flushing { then_stop }, Event::Wrote(Next::Stop)) == State::Stopped,
{
}

/// Every schedule restarts the quiet period; nothing but a message, the end
/// of the quiet period, or a hang-up leaves it.
pub proof fn a_schedule_always_waits_out_a_quiet_period(state: State)
    requires
        state == State::Idle || state == State::Settling,
    ensures
        next_of(state, Event::Received(Trigger::Schedule)) == State::Settling,
        wait_of(State::Settling) == Wait::MessageOrQuiet,
{
}


/// An idle thread waits for a message and for nothing else: no quiet period
/// runs out on it, and it stops only when told to stop or when every sender
/// is gone; a schedule or a request to write now never ends it.
pub proof fn an_idle_thread_stops_only_when_told(event: Event)
    ensures
        !fits(State::Idle, Event::Quiet),
        fits(State::Idle, event) && next_of(State::Idle, event) == State::Stopped
            ==> event == Event::Received(Trigger::Stop) || event == Event::HungUp,
        fits(State::Idle, Event::Received(Trigger::Schedule)) && next_of(State::Idle, Event::Received(Trigger::Schedule)) != State::Stopped,
{
}

} // verus!
