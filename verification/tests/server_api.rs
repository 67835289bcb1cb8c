//! Server registry behavior: token allocation, event routing, teardown.

use khttp::context::ContextError;
use khttp::context::ReadEvent;
use khttp::server::EventOutcome;
use khttp::server::Http2Server;

const PREFACE: &[u8] = b"PRI * HTTP/2.0\r\n\r\nSM\r\n\r\n";

fn frame_bytes(ftype: u8, flags: u8, stream_id: u32, payload: &[u8]) -> Vec<u8> {
    let mut v = Vec::new();
    let len = payload.len() as u32;
    v.push((len >> 16) as u8);
    v.push((len >> 8) as u8);
    v.push(len as u8);
    v.push(ftype);
    v.push(flags);
    v.push((stream_id >> 24) as u8);
    v.push((stream_id >> 16) as u8);
    v.push((stream_id >> 8) as u8);
    v.push(stream_id as u8);
    v.extend_from_slice(payload);
    v
}

#[test]
fn tokens_are_distinct_and_never_zero() {
    let mut srv = Http2Server::new();
    let t1 = srv.accept_connection(None, None).unwrap();
    let t2 = srv.accept_connection(None, None).unwrap();
    let t3 = srv.accept_connection(None, None).unwrap();
    assert!(t1 != 0 && t2 != 0 && t3 != 0);
    assert!(t1 != t2 && t2 != t3 && t1 != t3);
}

#[test]
fn stale_wakeup_is_dropped() {
    let mut srv = Http2Server::new();
    let r = srv.handle_event(42, ReadEvent::WouldBlock, false);
    assert!(matches!(r, EventOutcome::UnknownToken));
}

#[test]
fn would_block_keeps_connection() {
    let mut srv = Http2Server::new();
    let t = srv.accept_connection(None, None).unwrap();
    let r = srv.handle_event(t, ReadEvent::WouldBlock, false);
    match r {
        EventOutcome::Streams(v) => assert!(v.is_empty()),
        _ => panic!("connection should survive a would-block"),
    }
    assert!(srv.connections.contains_key(&t));
}

#[test]
fn goaway_closes_and_releases_token() {
    let mut srv = Http2Server::new();
    let t = srv.accept_connection(None, None).unwrap();
    let mut wire = PREFACE.to_vec();
    wire.extend_from_slice(&frame_bytes(0x7, 0, 0, &[0, 0, 0, 0, 0, 0, 0, 0]));
    let r = srv.handle_event(t, ReadEvent::Data(wire), false);
    assert!(matches!(r, EventOutcome::Closed(ContextError::ClientDisconnected)));
    assert!(!srv.connections.contains_key(&t));
    // a later wakeup for the dead token is a stale wakeup
    let r = srv.handle_event(t, ReadEvent::WouldBlock, false);
    assert!(matches!(r, EventOutcome::UnknownToken));
    // the token can be handed out again
    let t2 = srv.accept_connection(None, None).unwrap();
    let t3 = srv.accept_connection(None, None).unwrap();
    assert!(t2 == t || t3 == t);
}

#[test]
fn completed_streams_flow_through_server() {
    let mut srv = Http2Server::new();
    let t = srv.accept_connection(None, None).unwrap();
    let mut wire = PREFACE.to_vec();
    wire.extend_from_slice(&frame_bytes(0x4, 0, 0, &[]));
    let mut block = Vec::new();
    // 0x82 / 0x86 / 0x84: indexed static :method GET, :scheme http, :path /
    block.push(0x82);
    block.push(0x86);
    block.push(0x84);
    wire.extend_from_slice(&frame_bytes(0x1, 0x4 | 0x1, 1, &block));
    let r = srv.handle_event(t, ReadEvent::Data(wire), false);
    match r {
        EventOutcome::Streams(v) => {
            assert_eq!(v.len(), 1);
            assert_eq!(v[0].get_stream_id(), 1);
        },
        _ => panic!("expected one completed stream"),
    }
    assert!(srv.connections.contains_key(&t));
}

#[test]
fn eof_closes_connection() {
    let mut srv = Http2Server::new();
    let t = srv.accept_connection(None, None).unwrap();
    let r = srv.handle_event(t, ReadEvent::Closed, false);
    assert!(matches!(r, EventOutcome::Closed(ContextError::ClientDisconnected)));
    assert!(!srv.connections.contains_key(&t));
}

#[test]
fn responses_are_queued_on_the_connection() {
    let mut srv = Http2Server::new();
    let t = srv.accept_connection(None, None).unwrap();
    assert!(srv.enqueue_response(t, b"answer"));
    let ctx = srv.connections.get_mut(&t).unwrap();
    assert_eq!(ctx.take_write_buffer(), b"answer".to_vec());
    assert!(ctx.take_write_buffer().is_empty());
    // a dead token takes nothing
    assert!(!srv.enqueue_response(99, b"nope"));
}

#[test]
fn accept_succeeds_while_tokens_remain() {
    let mut srv = Http2Server::new();
    // the default pool is effectively inexhaustible; a healthy registry
    // never reports exhaustion
    for _ in 0..64 {
        assert!(srv.accept_connection(None, None).is_ok());
    }
}
