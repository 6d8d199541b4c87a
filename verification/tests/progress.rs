use oxi::progress::{format_duration, Bar, Spinner};

#[test]
fn bar_set_caps_at_max_and_stops() {
    let mut bar = Bar::new("download".to_string(), 100, 0);
    assert!(bar.stopped().is_none());
    bar.set(50);
    assert_eq!(bar.current_value(), 50);
    assert!(bar.stopped().is_none());
    assert_eq!(bar.buckets().len(), 1);
    assert_eq!(bar.buckets()[0].value, 50);
    bar.set(250);
    assert_eq!(bar.current_value(), 100);
    assert!(bar.stopped().is_some());
    let when = bar.stopped();
    bar.set(10);
    assert_eq!(bar.current_value(), 10);
    assert_eq!(bar.stopped(), when);
}

#[test]
fn bar_starting_at_max_is_stopped() {
    let bar = Bar::new("done".to_string(), 10, 10);
    assert!(bar.stopped().is_some());
    assert_eq!(bar.initial_value(), 10);
    assert_eq!(bar.max_value(), 10);
    assert_eq!(bar.message(), "done");
    assert_eq!(bar.message_width(), -1);
}

#[test]
fn bar_keeps_few_samples() {
    let mut bar = Bar::new("x".to_string(), 1000, 0);
    for i in 0..50 {
        bar.set(i);
        assert!(bar.buckets().len() <= 10);
    }
}

#[test]
fn spinner_shows_message_and_frame() {
    let mut s = Spinner::new("  spin  ".to_string());
    assert_eq!(s.to_string(), "spin \u{280b} ");
    s.tick();
    assert_eq!(s.to_string(), "spin \u{2819} ");
    for _ in 0..10 {
        s.tick();
    }
    assert_eq!(s.to_string(), "spin \u{2819} ");
}

#[test]
fn spinner_stopped_shows_no_frame() {
    let mut s = Spinner::new("spin".to_string());
    s.tick();
    s.stop();
    s.stop();
    let out = s.to_string();
    for part in ["⠋", "⠙", "⠹", "⠸", "⠼", "⠴", "⠦", "⠧", "⠇", "⠏"] {
        assert!(!out.contains(part));
    }
    assert_eq!(out, "spin ");
    s.tick();
    assert_eq!(s.to_string(), "spin ");
}

#[test]
fn spinner_message_width_pads_and_cuts() {
    let mut s = Spinner::new("abc".to_string());
    s.message_width = 6;
    s.stop();
    assert_eq!(s.to_string(), "abc    ");
    s.set_message("abcdefgh".to_string());
    assert!(s.can_render());
    assert_eq!(s.to_string(), "abcdef ");
    s.set_message("ab\u{e9}cd".to_string());
    s.message_width = 3;
    assert!(!s.can_render());
    s.message_width = 4;
    assert!(s.can_render());
    assert_eq!(s.to_string(), "ab\u{e9} ");
}

#[test]
fn spinner_empty_message() {
    let mut s = Spinner::new(String::new());
    s.stop();
    assert_eq!(s.to_string(), "");
}

#[test]
fn duration_formats() {
    assert_eq!(format_duration(0), "0s");
    assert_eq!(format_duration(3599), "3599s");
    assert_eq!(format_duration(3600), "1h0m");
    assert_eq!(format_duration(3 * 3600 + 25 * 60 + 7), "3h25m");
    assert_eq!(format_duration(359999), "99h59m");
    assert_eq!(format_duration(360000), "99h+");
}

#[test]
fn longer_than_a_second_cases() {
    assert!(!oxi::progress::longer_than_a_second(0, 999_999_999));
    assert!(!oxi::progress::longer_than_a_second(1, 0));
    assert!(oxi::progress::longer_than_a_second(1, 1));
    assert!(oxi::progress::longer_than_a_second(2, 0));
}
