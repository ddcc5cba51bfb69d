use server::registry::handle_request;
use server::response::build_response;

#[test]
fn response_has_status_length_and_body() {
    let r = build_response(b"<html>hi</html>");
    assert_eq!(r, b"HTTP/1.1 200 OK\r\nContent-Length: 15\r\n\r\n<html>hi</html>".to_vec());
}

#[test]
fn response_of_empty_body() {
    let r = build_response(b"");
    assert_eq!(r, b"HTTP/1.1 200 OK\r\nContent-Length: 0\r\n\r\n".to_vec());
}

#[test]
fn content_length_matches_body_round_trip() {
    let body = vec![b'x'; 1234];
    let r = build_response(&body);
    let text = String::from_utf8(r.clone()).unwrap();
    let header_end = text.find("\r\n\r\n").unwrap();
    let len_line = text[..header_end].lines().find(|l| l.starts_with("Content-Length: ")).unwrap();
    let len: usize = len_line["Content-Length: ".len()..].parse().unwrap();
    assert_eq!(len, 1234);
    assert_eq!(&r[header_end + 4..], &body[..]);
}

#[test]
fn handle_request_gives_response_and_delay() {
    let (resp, delay) = handle_request(b"GET /77 HTTP/1.1\r\n\r\n", b"abc");
    assert_eq!(resp, b"HTTP/1.1 200 OK\r\nContent-Length: 3\r\n\r\nabc".to_vec());
    assert_eq!(delay, 77);
}
