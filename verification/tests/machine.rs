use amethystate::debouncer::{next_state, waits_on, Event, Next, State, Trigger, Wait};
use std::sync::mpsc;
use std::sync::mpsc::RecvTimeoutError;
use std::time::Duration;

const QUIET: Duration = Duration::from_millis(10);

struct Work {
    runs: usize,
    answer: Next,
    told_it_was_last: Option<bool>,
}

impl Work {
    fn answering(answer: Next) -> Self {
        Self {
            runs: 0,
            answer,
            told_it_was_last: None,
        }
    }
}

fn drive(state: State, rx: &mpsc::Receiver<Trigger>, interval: Duration, work: &mut Work) -> State {
    let event = match waits_on(state) {
        Wait::Message => match rx.recv() {
            Ok(t) => Event::Received(t),
            Err(_) => Event::HungUp,
        },
        Wait::MessageOrQuiet => match rx.recv_timeout(interval) {
            Ok(t) => Event::Received(t),
            Err(RecvTimeoutError::Timeout) => Event::Quiet,
            Err(RecvTimeoutError::Disconnected) => Event::HungUp,
        },
        Wait::Write { last } => {
            work.runs += 1;
            work.told_it_was_last = Some(last);
            Event::Wrote(work.answer)
        }
        Wait::Nothing => Event::Quiet,
    };
    next_state(state, event)
}

fn step(state: State, sent: &[Trigger], work: &mut Work) -> State {
    let (tx, rx) = mpsc::channel();
    for trigger in sent {
        tx.send(*trigger).unwrap();
    }
    drive(state, &rx, QUIET, work)
}

fn stepping_over(state: State, sent: &[Trigger]) -> State {
    step(state, sent, &mut Work::answering(Next::Wake))
}

fn hung_up(state: State, work: &mut Work) -> State {
    let (tx, rx) = mpsc::channel::<Trigger>();
    drop(tx);
    drive(state, &rx, QUIET, work)
}

#[test]
fn a_schedule_starts_a_quiet_period() {
    assert_eq!(
        stepping_over(State::Idle, &[Trigger::Schedule]),
        State::Settling
    );
}

#[test]
fn a_further_schedule_starts_the_quiet_period_again() {
    assert_eq!(
        stepping_over(State::Settling, &[Trigger::Schedule]),
        State::Settling
    );
}

#[test]
fn asking_for_it_now_skips_the_quiet_period() {
    assert_eq!(
        stepping_over(State::Idle, &[Trigger::Now]),
        State::Flushing { then_stop: false }
    );
    assert_eq!(
        stepping_over(State::Settling, &[Trigger::Now]),
        State::Flushing { then_stop: false }
    );
}

#[test]
fn a_quiet_period_that_runs_out_writes() {
    assert_eq!(
        stepping_over(State::Settling, &[]),
        State::Flushing { then_stop: false }
    );
}

#[test]
fn stopping_an_idle_thread_ends_it() {
    assert_eq!(
        stepping_over(State::Idle, &[Trigger::Stop]),
        State::Stopped
    );
}

#[test]
fn stopping_a_quiet_period_writes_what_it_was_waiting_out() {
    assert_eq!(
        stepping_over(State::Settling, &[Trigger::Stop]),
        State::Flushing { then_stop: true }
    );
}

#[test]
fn a_write_that_lands_goes_back_to_waiting() {
    let mut work = Work::answering(Next::Wake);
    assert_eq!(
        step(State::Flushing { then_stop: false }, &[], &mut work),
        State::Idle
    );
    assert_eq!(work.runs, 1);
}

#[test]
fn a_write_asked_to_stop_ends_the_thread_once_it_has_run() {
    let mut work = Work::answering(Next::Wake);
    assert_eq!(
        step(State::Flushing { then_stop: true }, &[], &mut work),
        State::Stopped
    );
    assert_eq!(work.runs, 1);
}

#[test]
fn a_write_reached_through_a_stop_is_told_it_is_the_last() {
    let mut work = Work::answering(Next::Wake);
    step(State::Flushing { then_stop: true }, &[], &mut work);
    assert_eq!(work.told_it_was_last, Some(true));

    let mut ordinary = Work::answering(Next::Wake);
    step(State::Flushing { then_stop: false }, &[], &mut ordinary);
    assert_eq!(ordinary.told_it_was_last, Some(false));
}

#[test]
fn a_failing_write_that_was_stopped_ends_the_thread() {
    let mut work = Work::answering(Next::Stop);
    assert_eq!(
        step(State::Flushing { then_stop: false }, &[], &mut work),
        State::Stopped
    );
}

#[test]
fn a_hung_up_channel_ends_an_idle_thread() {
    let mut work = Work::answering(Next::Wake);
    assert_eq!(hung_up(State::Idle, &mut work), State::Stopped);
    assert_eq!(work.runs, 0);
}

#[test]
fn a_hung_up_channel_still_writes_what_a_quiet_period_was_waiting_out() {
    let mut work = Work::answering(Next::Wake);
    assert_eq!(
        hung_up(State::Settling, &mut work),
        State::Flushing { then_stop: true }
    );
}

#[test]
fn a_stopped_thread_stays_stopped_and_runs_nothing() {
    let mut work = Work::answering(Next::Wake);
    assert_eq!(
        step(State::Stopped, &[Trigger::Schedule, Trigger::Now], &mut work),
        State::Stopped
    );
    assert_eq!(work.runs, 0);
}

#[test]
fn a_stop_behind_a_queued_schedule_is_still_read() {
    let settling = stepping_over(State::Idle, &[Trigger::Schedule, Trigger::Stop]);
    assert_eq!(settling, State::Settling);
}

#[test]
fn a_stop_read_while_settling_ends_the_thread_after_one_last_write() {
    let (tx, rx) = mpsc::channel();
    tx.send(Trigger::Schedule).unwrap();
    tx.send(Trigger::Stop).unwrap();
    let mut work = Work::answering(Next::Wake);

    let mut state = State::Idle;
    for _ in 0..3 {
        state = drive(state, &rx, QUIET, &mut work);
    }

    assert_eq!(state, State::Stopped);
    assert_eq!(work.runs, 1);
    assert_eq!(work.told_it_was_last, Some(true));
}
