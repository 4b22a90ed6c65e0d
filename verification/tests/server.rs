use placard::routes::static_asset;
use placard::http::{
    write_response, write_response_with_headers, ReadEvent, ReadStep, Request, RequestError,
    RequestReader,
};
use placard::render::{MemoryBudget, ReserveStep};
use std::io::{Cursor, Read};
use std::time::{Duration, Instant};

/// Feeds the reader from `reader` until the request is complete, checking
/// the deadline before each read.
fn read_request(
    reader: &mut impl Read,
    max_total: usize,
    deadline: Instant,
) -> Result<Request, RequestError> {
    let mut parser = RequestReader::new(max_total);
    let mut byte = [0u8; 1];
    loop {
        let event = if Instant::now() >= deadline {
            ReadEvent::TimedOut
        } else {
            match reader.read(&mut byte) {
                Ok(0) => ReadEvent::Eof,
                Ok(_) => ReadEvent::Byte(byte[0]),
                Err(_) => ReadEvent::IoError,
            }
        };
        match parser.step(event) {
            ReadStep::Continue => {}
            ReadStep::Done(request) => return Ok(request),
            ReadStep::Failed(e) => return Err(e),
        }
    }
}

fn far_future_deadline() -> Instant {
    Instant::now() + Duration::from_secs(60)
}

#[test]
fn parses_well_formed_request() {
    let raw = "GET /r/abc.png?width=200 HTTP/1.1\r\nHost: example.com\r\nUser-Agent: test\r\n\r\n";
    let mut cursor = Cursor::new(raw.as_bytes());
    let req = read_request(&mut cursor, 8192, far_future_deadline()).expect("should parse");
    assert_eq!(req.method, "GET");
    assert_eq!(req.path, "/r/abc.png");
    assert_eq!(req.query_param("width"), Some("200"));
}

#[test]
fn parses_request_with_no_query_string() {
    let raw = "GET / HTTP/1.1\r\n\r\n";
    let mut cursor = Cursor::new(raw.as_bytes());
    let req = read_request(&mut cursor, 8192, far_future_deadline()).expect("should parse");
    assert_eq!(req.path, "/");
    assert!(req.query.is_empty());
}

#[test]
fn missing_blank_line_terminator_is_connection_closed() {
    let raw = "GET / HTTP/1.1\r\nHost: example.com\r\n";
    let mut cursor = Cursor::new(raw.as_bytes());
    let err = read_request(&mut cursor, 8192, far_future_deadline()).unwrap_err();
    assert!(matches!(err, RequestError::ConnectionClosed));
}

#[test]
fn oversized_request_line_is_rejected() {
    let raw = format!("GET /{} HTTP/1.1\r\n\r\n", "a".repeat(100));
    let mut cursor = Cursor::new(raw.as_bytes());
    let err = read_request(&mut cursor, 32, far_future_deadline()).unwrap_err();
    assert!(matches!(err, RequestError::TooLarge));
}

#[test]
fn malformed_request_line_is_rejected() {
    let raw = "GARBAGE\r\n\r\n";
    let mut cursor = Cursor::new(raw.as_bytes());
    let err = read_request(&mut cursor, 8192, far_future_deadline()).unwrap_err();
    assert!(matches!(err, RequestError::Malformed));
}

#[test]
fn expired_deadline_is_rejected_even_with_more_data_available() {
    let raw = "GET / HTTP/1.1\r\n\r\n";
    let mut cursor = Cursor::new(raw.as_bytes());
    let already_expired = Instant::now() - Duration::from_secs(1);
    let err = read_request(&mut cursor, 8192, already_expired).unwrap_err();
    assert!(matches!(err, RequestError::TimedOut));
}

#[test]
fn query_pairs_split_on_ampersand_and_first_equals() {
    let raw = "POST /x?a=1&b&c=2=3&a=4 HTTP/1.0\r\n\r\n";
    let mut cursor = Cursor::new(raw.as_bytes());
    let req = read_request(&mut cursor, 8192, far_future_deadline()).unwrap();
    assert_eq!(req.method, "POST");
    assert_eq!(
        req.query,
        vec![
            ("a".to_string(), "1".to_string()),
            ("c".to_string(), "2=3".to_string()),
            ("a".to_string(), "4".to_string())
        ]
    );
    assert_eq!(req.query_param("a"), Some("1"));
    assert_eq!(req.query_param("b"), None);
}

#[test]
fn invalid_utf8_is_malformed() {
    let raw: &[u8] = b"GET /\xff HTTP/1.1\r\n\r\n";
    let mut cursor = Cursor::new(raw);
    let err = read_request(&mut cursor, 8192, far_future_deadline()).unwrap_err();
    assert!(matches!(err, RequestError::Malformed));
}

#[test]
fn headers_share_the_size_budget() {
    let raw = "GET / HTTP/1.1\r\nX: 0123456789\r\n\r\n";
    let mut cursor = Cursor::new(raw.as_bytes());
    let err = read_request(&mut cursor, 20, far_future_deadline()).unwrap_err();
    assert!(matches!(err, RequestError::TooLarge));
    let mut cursor = Cursor::new(raw.as_bytes());
    assert!(read_request(&mut cursor, 40, far_future_deadline()).is_ok());
}

#[test]
fn responses_are_framed_with_length_and_headers() {
    let mut out = Vec::new();
    write_response(&mut out, 404, "Not Found", "text/plain", b"nope");
    assert_eq!(
        String::from_utf8(out).unwrap(),
        "HTTP/1.1 404 Not Found\r\nContent-Type: text/plain\r\nContent-Length: 4\r\nConnection: close\r\n\r\nnope"
    );
    let mut out = Vec::new();
    write_response_with_headers(&mut out, 200, "OK", "image/png", b"", &[("X-A", "1"), ("X-B", "two")]);
    assert_eq!(
        String::from_utf8(out).unwrap(),
        "HTTP/1.1 200 OK\r\nContent-Type: image/png\r\nContent-Length: 0\r\nConnection: close\r\nX-A: 1\r\nX-B: two\r\n\r\n"
    );
}

/// One reservation attempt that waits, until `max_wait` runs out, for room.
fn try_reserve(budget: &mut MemoryBudget, bytes: u64) -> Option<u64> {
    let deadline = Instant::now() + budget.max_wait();
    loop {
        match budget.try_take(bytes) {
            ReserveStep::Refused => return None,
            ReserveStep::Granted => return Some(bytes),
            ReserveStep::MustWait => {
                if Instant::now() >= deadline {
                    return None;
                }
            }
        }
    }
}

#[test]
fn memory_budget_rejects_a_reservation_larger_than_the_whole_limit() {
    let mut budget = MemoryBudget::new(1000, Duration::from_millis(50));
    assert!(try_reserve(&mut budget, 1001).is_none());
}

#[test]
fn memory_budget_grants_reservations_that_fit() {
    let mut budget = MemoryBudget::new(1000, Duration::from_millis(50));
    assert!(try_reserve(&mut budget, 400).is_some());
    assert!(try_reserve(&mut budget, 600).is_some());
}

#[test]
fn memory_budget_times_out_when_space_never_frees() {
    let mut budget = MemoryBudget::new(1000, Duration::from_millis(100));
    let _held = try_reserve(&mut budget, 1000).expect("should fit exactly");

    let start = Instant::now();
    let result = try_reserve(&mut budget, 1);
    let elapsed = start.elapsed();

    assert!(result.is_none());
    assert!(elapsed >= Duration::from_millis(100));
}

#[test]
fn releasing_makes_room_again() {
    let mut budget = MemoryBudget::new(1000, Duration::from_millis(10));
    assert_eq!(budget.try_take(700), ReserveStep::Granted);
    assert_eq!(budget.try_take(400), ReserveStep::MustWait);
    assert_eq!(budget.used(), 700);
    budget.release(700);
    assert_eq!(budget.used(), 0);
    assert_eq!(budget.try_take(400), ReserveStep::Granted);
    assert_eq!(budget.try_take(1001), ReserveStep::Refused);
    assert_eq!(budget.limit(), 1000);
}

#[test]
fn static_assets_map_paths_to_files_and_types() {
    assert_eq!(
        static_asset("/"),
        Some(("text/html; charset=utf-8", "index.html"))
    );
    assert_eq!(
        static_asset("/connectors"),
        Some(("text/html; charset=utf-8", "connectors/index.html"))
    );
    assert_eq!(
        static_asset("/assets/geist-mono.woff2"),
        Some(("font/woff2", "assets/geist-mono.woff2"))
    );
    assert_eq!(
        static_asset("/sandbox/editor.js"),
        Some(("text/javascript; charset=utf-8", "sandbox/editor.js"))
    );
    assert_eq!(static_asset("/favicon.svg"), Some(("image/svg+xml", "favicon.svg")));
    assert_eq!(static_asset("/index.html"), None);
    assert_eq!(static_asset("/connectors/"), None);
    assert_eq!(static_asset(""), None);
}
