//! Per-stream accumulator behavior and request conversion.

use khttp::stream::Http2Stream;
use khttp::stream::StreamState;

#[test]
fn new_stream_defaults() {
    let s = Http2Stream::new(9);
    assert_eq!(s.get_stream_id(), 9);
    assert!(matches!(s.state, StreamState::Idle));
    assert_eq!(s.window, 4096);
    assert_eq!(s.get_headers_len(), 0);
    assert!(s.data.is_none());
    assert!(s.headers.is_none());
}

#[test]
fn write_data_appends_lazily() {
    let mut s = Http2Stream::new(1);
    s.write_data(b"hel");
    s.write_data(b"lo");
    assert_eq!(s.read_data(), Some(b"hello".to_vec()));
}

#[test]
fn add_headers_accumulates_size() {
    let mut s = Http2Stream::new(1);
    s.add_headers(vec![(b"a".to_vec(), b"b".to_vec())], 34);
    s.add_headers(vec![(b"c".to_vec(), b"d".to_vec())], 34);
    assert_eq!(s.get_headers_len(), 68);
    let h = s.headers.as_ref().unwrap();
    assert_eq!(h.len(), 2);
    assert_eq!(h[0], (b"a".to_vec(), b"b".to_vec()));
    assert_eq!(h[1], (b"c".to_vec(), b"d".to_vec()));
}

#[test]
fn headers_len_saturates() {
    let mut s = Http2Stream::new(1);
    s.add_headers(Vec::new(), u32::MAX - 1);
    s.add_headers(Vec::new(), 10);
    assert_eq!(s.get_headers_len(), u32::MAX);
}

#[test]
fn window_operations() {
    let mut s = Http2Stream::new(1);
    s.set_window_frame_size(100);
    assert_eq!(s.window, 100);
    s.window_frame_size_increament(28);
    assert_eq!(s.window, 128);
    s.window = i128::MAX - 1;
    s.window_frame_size_increament(10);
    assert_eq!(s.window, i128::MAX);
}

#[test]
fn clone_is_deep() {
    let mut s = Http2Stream::new(2);
    s.write_data(b"body");
    s.add_headers(vec![(b"k".to_vec(), b"v".to_vec())], 34);
    s.state = StreamState::Completed;
    let c = s.clone();
    assert_eq!(c.get_stream_id(), 2);
    assert!(matches!(c.state, StreamState::Completed));
    assert_eq!(c.data, Some(b"body".to_vec()));
    assert_eq!(c.headers.as_ref().unwrap()[0], (b"k".to_vec(), b"v".to_vec()));
}

#[test]
fn clone_reset_data_drains_body_in_place() {
    let mut s = Http2Stream::new(2);
    s.write_data(b"chunk");
    let c = s.clone_reset_data();
    assert_eq!(c.data, Some(b"chunk".to_vec()));
    assert_eq!(s.data, Some(Vec::new()));
}

#[test]
fn into_request_promotes_pseudo_headers() {
    let mut s = Http2Stream::new(1);
    s.add_headers(
        vec![
            (b":method".to_vec(), b"POST".to_vec()),
            (b":path".to_vec(), b"/x".to_vec()),
            (b":scheme".to_vec(), b"https".to_vec()),
            (b":authority".to_vec(), b"example".to_vec()),
            (b":status".to_vec(), b"200".to_vec()),
            (b"content-type".to_vec(), b"text/plain".to_vec()),
        ],
        0,
    );
    s.write_data(b"payload");
    let req = s.into_request();
    assert_eq!(req.method, Some(b"POST".to_vec()));
    assert_eq!(req.path, Some(b"/x".to_vec()));
    assert_eq!(req.scheme, Some(b"https".to_vec()));
    assert_eq!(req.authority, Some(b"example".to_vec()));
    assert_eq!(req.status, Some(b"200".to_vec()));
    assert_eq!(req.headers, vec![(b"content-type".to_vec(), b"text/plain".to_vec())]);
    assert_eq!(req.body, b"payload".to_vec());
}

#[test]
fn into_request_without_headers_or_body() {
    let s = Http2Stream::new(1);
    let req = s.into_request();
    assert!(req.method.is_none());
    assert!(req.headers.is_empty());
    assert!(req.body.is_empty());
}
