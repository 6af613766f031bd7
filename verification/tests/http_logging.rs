use onode::clock::{low_64_bits, now_millis};
use onode::node::packets::utils::{address_error, connect_step, port_string, ConnectStep, RETRY_TIMES};
use onode::http::connection::response_body;
use onode::http::response::format_response;
use onode::http::status::Status;
use onode::logging::logger::Logger;
use onode::logging::severity::Severity;
use onode::text::{lines_of, split_char, split_once_char, trim_nul_of};

#[test]
fn status_headers() {
    assert_eq!(Status::OK.get_status_header(), "HTTP/1.1 200 OK");
    assert_eq!(Status::ERROR.get_status_header(), "HTTP/1.1 404 ERROR");
}

#[test]
fn response_text() {
    assert_eq!(
        format_response("a-b".to_string(), Status::OK),
        "HTTP/1.1 200 OK\n\na-b"
    );
    assert_eq!(format_response(String::new(), Status::ERROR), "HTTP/1.1 404 ERROR\n\n");
}

#[test]
fn response_body_after_first_blank_line() {
    assert_eq!(
        response_body("HTTP/1.1 200 OK\n\nx\n\ny"),
        Some("x\n\ny".to_string())
    );
    assert_eq!(response_body("HTTP/1.1 200 OK\n\n"), Some(String::new()));
    assert_eq!(response_body("no blank line\n"), None);
    assert_eq!(response_body(""), None);
}

#[test]
fn response_round_trip() {
    let body = "10.0.0.1-10.0.0.2\n10.0.0.2-10.0.0.1";
    let text = format_response(body.to_string(), Status::OK);
    assert_eq!(response_body(&text), Some(body.to_string()));
}

#[test]
fn stamps() {
    assert_eq!(Severity::INFO.stamp(), "[INFO]");
    assert_eq!(Severity::DEBUG.stamp(), "[DEBUG]");
    assert_eq!(Severity::ERROR.stamp(), "[ERROR]");
}

#[test]
fn logger_lines_follow_flags() {
    let l = Logger::new(true, false, true);
    assert_eq!(l.info_line("hi".to_string()), Some("[INFO]: hi".to_string()));
    assert_eq!(l.error_line("bad".to_string()), None);
    assert_eq!(l.debug_line("dbg".to_string()), Some("[DEBUG]: dbg".to_string()));
    let e = Logger::new(false, true, false);
    assert_eq!(e.info_line("hi".to_string()), None);
    assert_eq!(e.error_line("bad".to_string()), Some("[ERROR]: bad".to_string()));
    assert_eq!(e.debug_line("dbg".to_string()), None);
}

#[test]
fn text_helpers() {
    assert_eq!(
        split_once_char("a-b-c", '-'),
        Some(("a".to_string(), "b-c".to_string()))
    );
    assert_eq!(split_once_char("abc", '-'), None);
    assert_eq!(split_char("a,,b", ','), vec!["a", "", "b"]);
    assert_eq!(split_char("", ','), vec![""]);
    assert_eq!(lines_of("a\nb\r\n\nc"), "a\nb\r\n\nc".lines().collect::<Vec<_>>());
    assert_eq!(lines_of("a\n"), vec!["a"]);
    assert!(lines_of("").is_empty());
    assert_eq!(trim_nul_of("\0\0ab\0c\0"), "ab\0c");
}

#[test]
fn clock_is_after_epoch() {
    let a = now_millis().unwrap();
    assert!(a > 1_600_000_000_000);
    let b = now_millis().unwrap();
    assert!(b >= a);
}

#[test]
fn padded_response_body_reads_back() {
    let body = "10.0.0.1-10.0.0.2";
    let mut text = format_response(body.to_string(), Status::OK);
    text.push_str("\0\0\0\0");
    let r = response_body(&text).unwrap();
    assert_eq!(r, format!("{body}\0\0\0\0"));
    assert_eq!(r.trim_end_matches('\0'), body);
    assert_eq!(trim_nul_of(&r), body);
}

#[test]
fn connect_steps_and_messages() {
    assert_eq!(RETRY_TIMES, 5);
    for failed in 0..4 {
        assert_eq!(connect_step(failed), ConnectStep::Attempt);
    }
    assert_eq!(
        connect_step(4),
        ConnectStep::GiveUp("Error connecting to peer. Perhaps it's down?".to_string())
    );
    assert_eq!(port_string(0), "0");
    assert_eq!(port_string(1234), "1234");
    assert_eq!(port_string(65535), "65535");
    assert_eq!(address_error("x y", 8080), "Cannot create socket address x y: 8080");
}

#[test]
fn low_bits_of_millis() {
    assert_eq!(low_64_bits(5), 5);
    assert_eq!(low_64_bits((1u128 << 64) + 7), 7);
}
