use plcourse::event::format_log_line;
use plcourse::event::parse_event;
use plcourse::event::Event;
use plcourse::point::Point;

#[test]
fn point_add_and_sub() {
    let p1 = Point { x: 10, y: 10 };
    let p2 = Point { x: 2, y: 3 };
    let sum = p1.add(p2);
    assert_eq!(sum, Point { x: 12, y: 13 });
    assert_eq!(sum.sub(p2), p1);
}

#[test]
fn point_is_zero() {
    assert!(Point { x: 0, y: 0 }.is_zero());
    assert!(!Point { x: 0, y: 1 }.is_zero());
    assert!(!Point { x: 1, y: 1 }.is_zero());
}

#[test]
fn event_with_value() {
    assert_eq!(parse_event("temp 21"), Some(Event { kind: "temp".to_string(), value: "21".to_string() }));
}

#[test]
fn event_without_value() {
    assert_eq!(parse_event("ping"), Some(Event { kind: "ping".to_string(), value: "-1".to_string() }));
}

#[test]
fn event_with_too_many_words() {
    assert_eq!(parse_event("a b c"), None);
}

#[test]
fn log_line_format() {
    assert_eq!(format_log_line("info", 1700000000, "Zmq client started!"), "info::1700000000::Zmq client started!\n");
    assert_eq!(format_log_line("warn", 0, ""), "warn::0::\n");
}

#[test]
fn distance_term_uses_exclusive_or() {
    let p = Point { x: 12, y: 13 };
    let q = Point { x: 2, y: 3 };
    // 10 ^ 2 == 8 for both coordinates
    assert_eq!(p.distance_term(&q), 16);
    let r = Point { x: 3, y: 2 };
    let o = Point { x: 0, y: 0 };
    // 3 ^ 2 == 1, 2 ^ 2 == 0
    assert_eq!(r.distance_term(&o), 1);
}
