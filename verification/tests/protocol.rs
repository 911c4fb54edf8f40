use rust_tcp_server::handler::Plan;
use rust_tcp_server::protocol::{parse_request, Request};
use rust_tcp_server::Server;

#[test]
fn cheap_request_yields_one_plan() {
    let p = Server::plan_request(b"0:12345").unwrap();
    assert_eq!(p, Plan { kind: 0, seed: 12345, expensive: false });
}

#[test]
fn expensive_request_needs_permit() {
    let p = Server::plan_request(b"1:12345").unwrap();
    assert_eq!(p, Plan { kind: 1, seed: 12345, expensive: true });
}

#[test]
fn unknown_kind_is_dropped() {
    assert!(Server::plan_request(b"99:1").is_none());
}

#[test]
fn well_formed_line_parses() {
    assert_eq!(parse_request(b"1:2"), Some(Request { kind: 1, seed: 2 }));
}

#[test]
fn missing_delimiter_is_dropped() {
    assert!(parse_request(b"12345").is_none());
}

#[test]
fn non_integer_kind_is_dropped() {
    assert!(parse_request(b"abc:5").is_none());
}

#[test]
fn non_integer_seed_is_dropped() {
    assert!(parse_request(b"1:x5").is_none());
}

#[test]
fn empty_line_is_dropped() {
    assert!(parse_request(b"").is_none());
    assert!(parse_request(b"   ").is_none());
}

#[test]
fn empty_fields_are_dropped() {
    assert!(parse_request(b":5").is_none());
    assert!(parse_request(b"1:").is_none());
    assert!(parse_request(b":").is_none());
}

#[test]
fn first_and_last_fields_are_used() {
    assert_eq!(parse_request(b"1:7:9"), Some(Request { kind: 1, seed: 9 }));
}

#[test]
fn surrounding_whitespace_is_trimmed() {
    assert_eq!(parse_request(b" \t1:5\r\n"), Some(Request { kind: 1, seed: 5 }));
}

#[test]
fn whitespace_inside_a_field_is_dropped() {
    assert!(parse_request(b"1 :5").is_none());
}

#[test]
fn plus_sign_is_accepted() {
    assert_eq!(parse_request(b"+1:+5"), Some(Request { kind: 1, seed: 5 }));
}

#[test]
fn double_sign_is_dropped() {
    assert!(parse_request(b"++1:5").is_none());
    assert!(parse_request(b"1:+").is_none());
}

#[test]
fn negative_field_is_dropped() {
    assert!(parse_request(b"-1:5").is_none());
    assert!(parse_request(b"1:-5").is_none());
}

#[test]
fn seed_at_max_is_accepted() {
    assert_eq!(
        parse_request(b"1:18446744073709551615"),
        Some(Request { kind: 1, seed: u64::MAX })
    );
}

#[test]
fn seed_overflow_is_dropped() {
    assert!(parse_request(b"1:18446744073709551616").is_none());
}

#[test]
fn kind_overflow_is_dropped() {
    assert!(parse_request(b"256:1").is_none());
}

#[test]
fn parsed_but_unclassified_kind_is_dropped() {
    assert_eq!(parse_request(b"255:1"), Some(Request { kind: 255, seed: 1 }));
    assert!(Server::plan_request(b"255:1").is_none());
}

#[test]
fn leading_zeros_are_read() {
    assert_eq!(parse_request(b"01:007"), Some(Request { kind: 1, seed: 7 }));
}
