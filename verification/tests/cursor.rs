//! The place in the stream, and noticing a restart.

use services::engine::cursor::Cursor;

#[test]
fn advancing_tracks_the_last_id_seen() {
    let mut c = Cursor::new(0, 5);
    assert_eq!(c.since(), 0);
    c.advance_to(1);
    c.advance_to(2);
    c.advance_to(42);
    assert_eq!(c.since(), 42);
}

#[test]
fn it_starts_where_it_was_told_to() {
    assert_eq!(Cursor::new(900, 5).since(), 900);
}

#[test]
fn a_probe_is_only_worth_it_after_repeated_silence() {
    let mut c = Cursor::new(0, 3);
    assert!(!c.note_empty_poll());
    assert!(!c.note_empty_poll());
    assert!(c.note_empty_poll());
}

#[test]
fn the_silence_counter_resets_when_a_message_arrives() {
    let mut c = Cursor::new(0, 3);
    c.note_empty_poll();
    c.note_empty_poll();
    c.advance_to(7); // traffic resumed
    assert!(!c.note_empty_poll());
    assert!(!c.note_empty_poll());
    assert!(c.note_empty_poll());
}

#[test]
fn the_counter_also_resets_after_probing_so_it_does_not_spam() {
    let mut c = Cursor::new(0, 2);
    c.note_empty_poll();
    assert!(c.note_empty_poll());
    assert!(!c.note_empty_poll(), "should wait again before re-probing");
}

#[test]
fn a_feed_whose_newest_id_fell_behind_us_has_restarted() {
    let mut c = Cursor::new(0, 5);
    c.advance_to(3000);
    // The feed came back up and is publishing from 1 again.
    assert!(c.detects_restart(Some(12)));
}

#[test]
fn a_feed_that_is_merely_quiet_has_not_restarted() {
    let mut c = Cursor::new(0, 5);
    c.advance_to(3000);
    assert!(!c.detects_restart(Some(3000)), "caught up is not restarted");
    assert!(!c.detects_restart(Some(3001)));
}

#[test]
fn an_empty_feed_is_not_treated_as_a_restart() {
    let mut c = Cursor::new(0, 5);
    c.advance_to(100);
    // No messages at all: a feed that just booted looks like this, and so
    // does an unreachable one. Rewinding on it would be a guess.
    assert!(!c.detects_restart(None));
}

#[test]
fn a_fresh_cursor_never_reports_a_restart() {
    let c = Cursor::new(0, 5);
    assert!(!c.detects_restart(Some(0)));
    assert!(!c.detects_restart(Some(500)));
}

#[test]
fn rewinding_returns_to_the_start_of_the_stream() {
    let mut c = Cursor::new(0, 5);
    c.advance_to(3000);
    c.note_empty_poll();
    c.rewind();
    assert_eq!(c.since(), 0);
    // And the silence counter starts over, so the next probe is not immediate.
    assert!(!c.note_empty_poll());
}

#[test]
fn a_limit_of_zero_probes_at_every_empty_poll() {
    let mut c = Cursor::new(7, 0);
    assert!(c.note_empty_poll());
    assert!(c.note_empty_poll());
    c.advance_to(8);
    assert!(c.note_empty_poll());
    assert_eq!(c.since(), 8);
}
