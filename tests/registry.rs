use server::clock::get_unix_timestamp;
use server::registry::Server;

const BODY: &[u8] = b"<h1>hello</h1>";

fn expected() -> Vec<u8> {
    b"HTTP/1.1 200 OK\r\nContent-Length: 14\r\n\r\n<h1>hello</h1>".to_vec()
}

#[test]
fn zero_delay_request_is_answered_on_next_drain() {
    let mut s: Server<u32> = Server::new(BODY);
    let t = s.add_connection(7).unwrap();
    assert_eq!(t, 1);
    assert_eq!(s.on_readable(t, b"GET /0 HTTP/1.1\r\n\r\n", 1000), Some(0));
    assert_eq!(s.timer_count(), 1);
    assert_eq!(s.drain_expired(1001), vec![t]);
    let (sock, bytes) = s.on_writable(t, false).unwrap();
    assert_eq!(sock, 7);
    assert_eq!(bytes, Some(expected()));
    assert!(s.is_idle());
    assert_eq!(s.timer_count(), 0);
}

#[test]
fn delayed_request_waits_for_its_deadline() {
    let mut s: Server<u32> = Server::new(BODY);
    let t = s.add_connection(1).unwrap();
    assert_eq!(s.on_readable(t, b"GET /250 HTTP/1.1\r\n\r\n", 10_000), Some(250));
    assert_eq!(s.drain_expired(10_100), Vec::<usize>::new());
    assert_eq!(s.on_writable(t, false), None);
    assert_eq!(s.drain_expired(10_250), Vec::<usize>::new());
    assert_eq!(s.drain_expired(10_251), vec![t]);
    let (_, bytes) = s.on_writable(t, false).unwrap();
    assert_eq!(bytes, Some(expected()));
}

#[test]
fn peer_that_closed_gets_no_write() {
    let mut s: Server<u32> = Server::new(BODY);
    let t = s.add_connection(3).unwrap();
    assert_eq!(s.on_readable(t, b"", 0), Some(1000));
    assert_eq!(s.drain_expired(1001), vec![t]);
    let (sock, bytes) = s.on_writable(t, true).unwrap();
    assert_eq!(sock, 3);
    assert_eq!(bytes, None);
    assert!(s.is_idle());
}

#[test]
fn close_before_timer_leaves_nothing() {
    let mut s: Server<u32> = Server::new(BODY);
    let t = s.add_connection(4).unwrap();
    assert_eq!(s.on_readable(t, b"GET /500 HTTP/1.1\r\n", 0), Some(500));
    assert_eq!(s.close(t), Some(4));
    assert!(s.is_idle());
    assert_eq!(s.timer_count(), 0);
    assert_eq!(s.drain_expired(u128::MAX), Vec::<usize>::new());
    assert_eq!(s.on_writable(t, false), None);
    assert_eq!(s.close(t), None);
}

#[test]
fn many_clients_get_distinct_tokens_and_identical_responses() {
    let mut s: Server<u32> = Server::new(BODY);
    let mut tokens = Vec::new();
    for i in 0..100u32 {
        let t = s.add_connection(i).unwrap();
        assert!(!tokens.contains(&t));
        assert_ne!(t, 0);
        tokens.push(t);
    }
    for (i, t) in tokens.iter().enumerate() {
        let req = format!("GET /{} HTTP/1.1\r\n\r\n", 100 - i);
        assert_eq!(s.on_readable(*t, req.as_bytes(), 0), Some((100 - i) as u16));
    }
    let drained = s.drain_expired(1_000);
    assert_eq!(drained.len(), 100);
    // shortest delay first
    assert_eq!(drained[0], tokens[99]);
    assert_eq!(drained[99], tokens[0]);
    for (i, t) in tokens.iter().enumerate() {
        let (sock, bytes) = s.on_writable(*t, false).unwrap();
        assert_eq!(sock, i as u32);
        assert_eq!(bytes, Some(expected()));
    }
    assert!(s.is_idle());
}

#[test]
fn timers_expire_in_deadline_order() {
    let mut s: Server<u32> = Server::new(BODY);
    let a = s.add_connection(0).unwrap();
    let b = s.add_connection(1).unwrap();
    let c = s.add_connection(2).unwrap();
    s.on_readable(a, b"GET /300 HTTP/1.1", 0);
    s.on_readable(b, b"GET /100 HTTP/1.1", 0);
    s.on_readable(c, b"GET /100 HTTP/1.1", 0);
    assert_eq!(s.drain_expired(101), vec![b, c]);
    assert_eq!(s.drain_expired(301), vec![a]);
}

#[test]
fn freed_token_is_reused() {
    let mut s: Server<u32> = Server::new(BODY);
    let a = s.add_connection(0).unwrap();
    let b = s.add_connection(1).unwrap();
    assert_eq!((a, b), (1, 2));
    assert_eq!(s.close(a), Some(0));
    assert_eq!(s.add_connection(9).unwrap(), 1);
    assert_eq!(s.add_connection(10).unwrap(), 3);
    assert_eq!(s.socket(1), Some(&9));
    assert_eq!(s.socket(0), None);
}

#[test]
fn events_in_wrong_phase_are_ignored() {
    let mut s: Server<u32> = Server::new(BODY);
    let t = s.add_connection(5).unwrap();
    assert_eq!(s.on_writable(t, false), None);
    assert_eq!(s.on_readable(t, b"GET /1 HTTP/1.1", 0), Some(1));
    assert_eq!(s.on_readable(t, b"GET /9 HTTP/1.1", 0), None);
    assert_eq!(s.on_readable(99, b"GET /9 HTTP/1.1", 0), None);
    assert_eq!(s.timer_count(), 1);
}

#[test]
fn socket_mut_changes_only_the_socket() {
    let mut s: Server<u32> = Server::new(BODY);
    let t = s.add_connection(5).unwrap();
    *s.socket_mut(t).unwrap() = 6;
    assert_eq!(s.socket(t), Some(&6));
    assert!(s.socket_mut(t + 1).is_none());
}

#[test]
fn deadline_saturates() {
    let mut s: Server<u32> = Server::new(BODY);
    let t = s.add_connection(5).unwrap();
    assert_eq!(s.on_readable(t, b"GET /10 HTTP/1.1", u128::MAX - 3), Some(10));
    assert_eq!(s.drain_expired(u128::MAX), Vec::<usize>::new());
}

#[test]
fn clock_reads_after_epoch() {
    let a = get_unix_timestamp();
    let b = get_unix_timestamp();
    assert!(a > 1_500_000_000_000);
    assert!(b >= a);
}
