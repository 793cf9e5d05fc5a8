use amethystate::watching::{
    after_look, quiet, standing_from, what_a_look_finds, AfterLook, Looked, Quiet, Standing,
    RETRIES,
};
use std::sync::{Arc, Condvar, Mutex};
use std::time::{Duration, Instant};

/// A wait for a file to go quiet, driven by the decisions the library makes.
#[derive(Clone)]
struct Settling {
    stopped: Arc<(Mutex<bool>, Condvar)>,
    period: Duration,
}

impl Settling {
    fn new(period: Duration) -> Self {
        Self {
            stopped: Arc::new((Mutex::new(false), Condvar::new())),
            period,
        }
    }

    fn stop(&self) {
        let (lock, woken) = &*self.stopped;
        *lock.lock().unwrap() = true;
        woken.notify_all();
    }

    fn settle(&self) -> bool {
        let deadline = Instant::now() + self.period;
        let (lock, woken) = &*self.stopped;
        let mut stopped = lock.lock().unwrap();
        loop {
            let now = Instant::now();
            match quiet(*stopped, now >= deadline) {
                Quiet::Over(settled) => return settled,
                Quiet::Sleep => {
                    stopped = woken.wait_timeout(stopped, deadline - now).unwrap().0;
                }
            }
        }
    }
}

#[test]
fn a_wait_asked_for_after_the_stop_does_not_begin() {
    let settling = Settling::new(Duration::from_secs(60));
    settling.stop();

    let started = Instant::now();

    assert!(!settling.settle());
    assert!(started.elapsed() < Duration::from_secs(5));
}

#[test]
fn a_wait_nobody_stopped_runs_out_the_quiet_period() {
    let settling = Settling::new(Duration::from_millis(200));

    let started = Instant::now();

    assert!(settling.settle(), "nobody stopped it");
    assert!(
        started.elapsed() >= Duration::from_millis(200),
        "it came back early: {:?}",
        started.elapsed()
    );
}

#[test]
fn the_quiet_decision_on_its_own() {
    assert_eq!(quiet(true, false), Quiet::Over(false));
    assert_eq!(quiet(true, true), Quiet::Over(false));
    assert_eq!(quiet(false, true), Quiet::Over(true));
    assert_eq!(quiet(false, false), Quiet::Sleep);
}

#[test]
fn a_write_in_flight_is_not_a_settled_document() {
    assert_eq!(standing_from(3, 3, 3), Standing::Settled);
    assert_ne!(standing_from(4, 3, 4), Standing::Settled);
    assert_ne!(standing_from(3, 3, 2), Standing::Settled);
}

#[test]
fn a_look_that_raced_is_taken_again_until_it_gives_up() {
    let raced = Looked::Held(Standing::Raced);
    assert_eq!(after_look(raced, 0), AfterLook::LookAgain);
    assert_eq!(after_look(raced, RETRIES - 1), AfterLook::LookAgain);
    assert_eq!(after_look(raced, RETRIES), AfterLook::GiveUp);
}

#[test]
fn only_a_settled_read_of_another_writers_edit_is_taken() {
    let take = what_a_look_finds(true, false, true, Standing::Settled, false, false, false);
    assert_eq!(take, Looked::Take);
    let ours = what_a_look_finds(true, true, true, Standing::Settled, false, false, false);
    assert_ne!(ours, Looked::Take);
    let unparsed = what_a_look_finds(true, false, false, Standing::Settled, false, false, false);
    assert_ne!(unparsed, Looked::Take);
}
