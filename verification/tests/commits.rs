use amethystate::commits::{awaiting, heard, Heard, Settled, Waiting};

#[test]
fn a_flush_already_under_way_does_not_answer_a_waiter_that_came_after_it() {
    let mut signal: Settled<String> = Settled::new();
    let under_way = signal.begin();
    let commit = awaiting(&signal);

    signal.settle(under_way, true);

    assert_eq!(
        heard(commit, &signal),
        Heard::Waiting,
        "that flush gathered its writes before this waiter's write was there"
    );

    let next = signal.begin();
    signal.settle(next, true);

    assert_eq!(heard(commit, &signal), Heard::Landed);
}

#[test]
fn a_waiter_hears_why_the_flush_it_waited_on_gave_up() {
    let mut signal: Settled<String> = Settled::new();
    let commit = awaiting(&signal);

    let attempt = signal.begin();
    signal.settle(attempt, false);

    assert_eq!(
        heard(commit, &signal),
        Heard::Waiting,
        "an attempt inside the retry budget answers nobody"
    );

    signal.gave_up("the disk is full".to_string());

    match heard(commit, &signal) {
        Heard::GaveUp(why) => assert_eq!(why, "the disk is full"),
        other => panic!("a waiter was not told the flush gave up: {other:?}"),
    }
}

#[test]
fn a_landing_after_the_give_up_answers_a_waiter_that_had_not_heard_yet() {
    let mut signal: Settled<String> = Settled::new();
    let commit = awaiting(&signal);

    let failed = signal.begin();
    signal.settle(failed, false);
    signal.gave_up("flush".to_string());

    let landed = signal.begin();
    signal.settle(landed, true);

    assert_eq!(heard(commit, &signal), Heard::Landed);
}

#[test]
fn a_commit_for_a_store_that_is_gone_says_it_was_closed() {
    let signal: Settled<String> = Settled::new();
    assert_eq!(heard(Waiting::Gone, &signal), Heard::Closed);
}

#[test]
fn flushes_are_numbered_from_one() {
    let mut signal: Settled<String> = Settled::new();
    assert_eq!(signal.begun(), 0);
    assert_eq!(signal.begin(), 1);
    assert_eq!(signal.begin(), 2);
    assert_eq!(awaiting(&signal), Waiting::Flush { after: 2 });
}

#[test]
fn a_give_up_reaches_only_waiters_a_failed_flush_began_after() {
    let mut signal: Settled<String> = Settled::new();
    let first = signal.begin();
    signal.settle(first, false);
    let late = awaiting(&signal);
    signal.gave_up("full".to_string());

    assert_eq!(
        heard(late, &signal),
        Heard::Waiting,
        "the failed flush began before this waiter did"
    );
    assert_eq!(signal.answer(0), Some(Err(&"full".to_string())));
    assert_eq!(signal.answer(1), None);
}
