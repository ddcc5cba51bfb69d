use server::request::{request_delay, DEFAULT_DELAY_MS, MAX_DELAY_MS};

#[test]
fn delay_from_numeric_path() {
    assert_eq!(request_delay(b"GET /250 HTTP/1.1\r\n\r\n"), 250);
    assert_eq!(request_delay(b"GET /0 HTTP/1.1\r\n\r\n"), 0);
    assert_eq!(request_delay(b"GET /2 HTTP/1.1"), 2);
}

#[test]
fn delay_without_slash() {
    assert_eq!(request_delay(b"GET 42 HTTP/1.1\r\n"), 42);
}

#[test]
fn delay_defaults_for_empty_path() {
    assert_eq!(request_delay(b"GET / HTTP/1.1\r\n\r\n"), DEFAULT_DELAY_MS);
    assert_eq!(DEFAULT_DELAY_MS, 1000);
}

#[test]
fn delay_defaults_for_non_numeric_path() {
    assert_eq!(request_delay(b"GET /index.html HTTP/1.1\r\n"), DEFAULT_DELAY_MS);
    assert_eq!(request_delay(b"GET /12a HTTP/1.1\r\n"), DEFAULT_DELAY_MS);
    assert_eq!(request_delay(b"GET /-5 HTTP/1.1\r\n"), DEFAULT_DELAY_MS);
}

#[test]
fn delay_defaults_for_empty_or_malformed_input() {
    assert_eq!(request_delay(b""), DEFAULT_DELAY_MS);
    assert_eq!(request_delay(b"GET"), DEFAULT_DELAY_MS);
    assert_eq!(request_delay(b"\r\n"), DEFAULT_DELAY_MS);
    assert_eq!(request_delay(b"GET  HTTP/1.1"), DEFAULT_DELAY_MS);
    assert_eq!(request_delay(b"GET /\xC3\xA9 HTTP/1.1"), DEFAULT_DELAY_MS);
}

#[test]
fn delay_with_runs_of_whitespace() {
    assert_eq!(request_delay(b"GET  /7 HTTP/1.1"), 7);
    assert_eq!(request_delay(b"GET\t/8\tHTTP/1.1"), 8);
    assert_eq!(request_delay(b"  GET /9"), 9);
}

#[test]
fn delay_defaults_for_first_line_not_utf8() {
    assert_eq!(request_delay(b"GET /5 \xFF"), DEFAULT_DELAY_MS);
    assert_eq!(request_delay(b"GET /5 HTTP/1.1\xC3\r\n"), DEFAULT_DELAY_MS);
}

#[test]
fn delay_with_valid_non_ascii_first_line() {
    assert_eq!(request_delay(b"GET /5 \xC3\xA9"), 5);
    assert_eq!(request_delay(b"GET /6 HTTP/1.1\r\n\xFF"), 6);
}

#[test]
fn delay_reads_first_line_only() {
    assert_eq!(request_delay(b"GET /x HTTP/1.1\r\nGET /5 HTTP/1.1\r\n"), DEFAULT_DELAY_MS);
    assert_eq!(request_delay(b"GET\r\nHost /9 x"), DEFAULT_DELAY_MS);
    assert_eq!(request_delay(b"GET /31\nHost: a"), 31);
    assert_eq!(request_delay(b"GET /31\r"), 31);
}

#[test]
fn delay_is_capped() {
    assert_eq!(request_delay(b"GET /65535 HTTP/1.1\r\n"), 65535);
    assert_eq!(request_delay(b"GET /65536 HTTP/1.1\r\n"), MAX_DELAY_MS);
    assert_eq!(request_delay(b"GET /99999999999999999999999 HTTP/1.1\r\n"), MAX_DELAY_MS);
}
