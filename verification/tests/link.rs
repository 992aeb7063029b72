use zygote_core::graph::ParamPath;
use zygote_core::link::{timeline_fits, Greeting, Link, Tick, DESCRIBE_TIMEOUT_MS, HELLO_INTERVAL_MS};

const NOTHING: Tick = Tick { fall_back: false, greet: None, went_quiet: false };

#[test]
fn falls_back_after_the_describe_timeout_once() {
    let mut l = Link::new(1000);
    assert_eq!(l.tick(1000 + DESCRIBE_TIMEOUT_MS, false, false, true), NOTHING);
    let t = l.tick(1000 + DESCRIBE_TIMEOUT_MS + 1, false, false, true);
    assert!(t.fall_back);
    assert!(l.described);
    assert!(!l.tick(1000 + DESCRIBE_TIMEOUT_MS + 2, false, false, true).fall_back);
}

#[test]
fn no_fall_back_with_parameters_or_a_fresh_list() {
    let mut l = Link::new(0);
    assert!(!l.tick(5000, true, false, false).fall_back);
    let mut l = Link::new(0);
    assert!(!l.tick(5000, false, true, false).fall_back);
}

#[test]
fn greets_each_interval_hello_until_described_then_ping() {
    let mut l = Link::new(0);
    assert_eq!(l.tick(HELLO_INTERVAL_MS - 1, true, true, true).greet, None);
    assert_eq!(l.tick(HELLO_INTERVAL_MS, true, true, true).greet, Some(Greeting::Hello));
    assert_eq!(l.last_hello, HELLO_INTERVAL_MS);
    assert_eq!(l.tick(HELLO_INTERVAL_MS + 10, true, true, true).greet, None);
    assert!(!l.mark_described());
    assert!(l.mark_described());
    assert_eq!(l.tick(2 * HELLO_INTERVAL_MS, true, true, true).greet, Some(Greeting::Ping));
}

#[test]
fn without_a_socket_nothing_is_sent_and_the_timer_waits() {
    let mut l = Link::new(0);
    assert_eq!(l.tick(10_000, true, true, false).greet, None);
    assert_eq!(l.last_hello, 0);
}

#[test]
fn silence_makes_the_link_quiet_and_a_message_wakes_it() {
    let mut l = Link::new(0);
    assert!(!l.heard(100));
    l.mark_described();
    let t = l.tick(100 + 3 * HELLO_INTERVAL_MS, true, true, false);
    assert!(!t.went_quiet);
    let t = l.tick(101 + 3 * HELLO_INTERVAL_MS, true, true, true);
    assert!(t.went_quiet);
    assert_eq!(t.greet, Some(Greeting::Ping));
    assert!(l.quiet);
    assert!(!l.tick(200 + 3 * HELLO_INTERVAL_MS, true, true, true).went_quiet);
    assert_eq!(l.tick(101 + 4 * HELLO_INTERVAL_MS, true, true, true).greet, Some(Greeting::Hello));
    assert!(l.heard(9000));
    assert!(!l.quiet);
    assert_eq!(l.last_hello, 9000);
    assert_eq!(l.last_heard, Some(9000));
}

#[test]
fn a_timeline_fits_when_it_shares_a_path() {
    let values = vec![ParamPath::new("warp", "amount"), ParamPath::new("feedback", "zoom")];
    let described = vec![ParamPath::new("blend", "mix"), ParamPath::new("feedback", "zoom")];
    assert!(timeline_fits(&values, &described));
    let other = vec![ParamPath::new("warp", "zoom"), ParamPath::new("feedback", "amount")];
    assert!(!timeline_fits(&values, &other));
    assert!(!timeline_fits(&Vec::new(), &described));
}
