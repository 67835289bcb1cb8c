//! End-to-end connection engine scenarios over concrete byte streams.

use khttp::context::ContextError;
use khttp::hpack::HpackError;
use khttp::context::Http2Context;
use khttp::context::ReadEvent;
use khttp::stream::Http2Stream;
use khttp::stream::StreamState;

const PREFACE: &[u8] = b"PRI * HTTP/2.0\r\n\r\nSM\r\n\r\n";

const END_STREAM: u8 = 0x1;
const END_HEADERS: u8 = 0x4;

fn frame_bytes(ftype: u8, flags: u8, stream_id: u32, payload: &[u8]) -> Vec<u8> {
    let mut v = Vec::new();
    let len = payload.len() as u32;
    v.push((len >> 16) as u8);
    v.push((len >> 8) as u8);
    v.push(len as u8);
    v.push(ftype);
    v.push(flags);
    v.push((stream_id >> 24) as u8);
    v.push((stream_id >> 16) as u8);
    v.push((stream_id >> 8) as u8);
    v.push(stream_id as u8);
    v.extend_from_slice(payload);
    v
}

/// HPACK literal header field without indexing, both name and value
/// literal.
fn lit(name: &[u8], value: &[u8]) -> Vec<u8> {
    let mut v = vec![0x00u8];
    v.push(name.len() as u8);
    v.extend_from_slice(name);
    v.push(value.len() as u8);
    v.extend_from_slice(value);
    v
}

fn get_headers_block() -> Vec<u8> {
    let mut b = Vec::new();
    b.extend_from_slice(&lit(b":method", b"GET"));
    b.extend_from_slice(&lit(b":scheme", b"http"));
    b.extend_from_slice(&lit(b":path", b"/"));
    b.extend_from_slice(&lit(b":authority", b"localhost"));
    b
}

fn s1_bytes() -> Vec<u8> {
    let mut wire = PREFACE.to_vec();
    wire.extend_from_slice(&frame_bytes(0x4, 0, 0, &[]));
    wire.extend_from_slice(&frame_bytes(0x1, END_HEADERS | END_STREAM, 1, &get_headers_block()));
    wire
}

fn read_all(ctx: &mut Http2Context, bytes: Vec<u8>) -> Result<Vec<Http2Stream>, ContextError> {
    ctx.handle_read(ReadEvent::Data(bytes), false)
}

#[test]
fn s1_minimal_get() {
    let mut ctx = Http2Context::new(None, None);
    let streams = read_all(&mut ctx, s1_bytes()).unwrap();
    assert_eq!(streams.len(), 1);
    let s = &streams[0];
    assert_eq!(s.get_stream_id(), 1);
    assert!(matches!(s.state, StreamState::Completed));
    assert!(ctx.streams.is_empty());
    let streams = read_all(&mut ctx, Vec::new());
    assert!(matches!(streams, Err(ContextError::ClientDisconnected)));
}

#[test]
fn s1_request_fields() {
    let mut ctx = Http2Context::new(None, None);
    let mut streams = read_all(&mut ctx, s1_bytes()).unwrap();
    let req = streams.remove(0).into_request();
    assert_eq!(req.method, Some(b"GET".to_vec()));
    assert_eq!(req.scheme, Some(b"http".to_vec()));
    assert_eq!(req.path, Some(b"/".to_vec()));
    assert_eq!(req.authority, Some(b"localhost".to_vec()));
    assert!(req.headers.is_empty());
    assert!(req.body.is_empty());
}

fn s2_bytes() -> Vec<u8> {
    let mut wire = PREFACE.to_vec();
    wire.extend_from_slice(&frame_bytes(0x4, 0, 0, &[]));
    wire.extend_from_slice(&frame_bytes(0x1, END_HEADERS, 1, &get_headers_block()));
    wire.extend_from_slice(&frame_bytes(0x0, END_STREAM, 1, b"hello"));
    wire
}

#[test]
fn s2_post_with_body() {
    let mut ctx = Http2Context::new(None, None);
    let streams = read_all(&mut ctx, s2_bytes()).unwrap();
    assert_eq!(streams.len(), 1);
    assert!(matches!(streams[0].state, StreamState::Completed));
    assert_eq!(streams[0].data, Some(b"hello".to_vec()));
    assert!(ctx.streams.is_empty());
}

#[test]
fn s3_continuation() {
    let mut ctx = Http2Context::new(None, None);
    let mut wire = PREFACE.to_vec();
    wire.extend_from_slice(&frame_bytes(0x4, 0, 0, &[]));
    let mut half1 = Vec::new();
    half1.extend_from_slice(&lit(b":method", b"GET"));
    half1.extend_from_slice(&lit(b":scheme", b"http"));
    let mut half2 = Vec::new();
    half2.extend_from_slice(&lit(b":path", b"/"));
    half2.extend_from_slice(&lit(b":authority", b"localhost"));
    wire.extend_from_slice(&frame_bytes(0x1, END_STREAM, 3, &half1));
    wire.extend_from_slice(&frame_bytes(0x9, END_HEADERS, 3, &half2));
    let streams = read_all(&mut ctx, wire).unwrap();
    assert_eq!(streams.len(), 1);
    let s = &streams[0];
    assert_eq!(s.get_stream_id(), 3);
    assert!(matches!(s.state, StreamState::Completed));
    let headers = s.headers.as_ref().unwrap();
    assert_eq!(headers.len(), 4);
    assert_eq!(headers[0].0, b":method".to_vec());
    assert_eq!(headers[1].0, b":scheme".to_vec());
    assert_eq!(headers[2].0, b":path".to_vec());
    assert_eq!(headers[3].0, b":authority".to_vec());
}

#[test]
fn s4_rst_stream() {
    let mut ctx = Http2Context::new(None, None);
    let mut wire = PREFACE.to_vec();
    wire.extend_from_slice(&frame_bytes(0x4, 0, 0, &[]));
    wire.extend_from_slice(&frame_bytes(0x1, END_HEADERS, 5, &get_headers_block()));
    wire.extend_from_slice(&frame_bytes(0x3, 0, 5, &[0, 0, 0, 8]));
    let streams = read_all(&mut ctx, wire).unwrap();
    assert_eq!(streams.len(), 0);
    assert!(!ctx.streams.contains_key(&5));
}

#[test]
fn s5_fragmented_bytes() {
    let wire = s2_bytes();
    let mut ctx = Http2Context::new(None, None);
    let mut collected: Vec<Http2Stream> = Vec::new();
    for chunk in wire.chunks(1) {
        let got = ctx.handle_read(ReadEvent::Data(chunk.to_vec()), false).unwrap();
        collected.extend(got);
    }
    assert_eq!(collected.len(), 1);
    assert!(matches!(collected[0].state, StreamState::Completed));
    assert_eq!(collected[0].data, Some(b"hello".to_vec()));
    // odd-sized chunks as well
    let mut ctx2 = Http2Context::new(None, None);
    let mut collected2: Vec<Http2Stream> = Vec::new();
    for chunk in wire.chunks(3) {
        let got = ctx2.handle_read(ReadEvent::Data(chunk.to_vec()), false).unwrap();
        collected2.extend(got);
    }
    assert_eq!(collected2.len(), 1);
    assert_eq!(collected2[0].data, Some(b"hello".to_vec()));
}

#[test]
fn s6_goaway() {
    let mut ctx = Http2Context::new(None, None);
    let streams = read_all(&mut ctx, s1_bytes()).unwrap();
    assert_eq!(streams.len(), 1);
    let goaway = frame_bytes(0x7, 0, 0, &[0, 0, 0, 0, 0, 0, 0, 0]);
    let r = read_all(&mut ctx, goaway);
    assert!(matches!(r, Err(ContextError::ClientDisconnected)));
}

#[test]
fn preface_gating_bad_banner() {
    let mut ctx = Http2Context::new(None, None);
    let r = read_all(&mut ctx, b"GET / HTTP/1.1\r\nHost: x\r\n".to_vec());
    assert!(matches!(r, Err(ContextError::NotHttp2)));
}

#[test]
fn preface_gating_partial_banner_waits() {
    let mut ctx = Http2Context::new(None, None);
    let r = read_all(&mut ctx, PREFACE[..10].to_vec()).unwrap();
    assert!(r.is_empty());
    assert_eq!(ctx.read_buffer.len(), 10);
    // the rest of the preface completes the handshake without error
    let r = read_all(&mut ctx, PREFACE[10..].to_vec()).unwrap();
    assert!(r.is_empty());
    assert!(ctx.handshaked);
    assert_eq!(ctx.read_buffer.len(), 0);
}

#[test]
fn would_block_and_errors_classified() {
    let mut ctx = Http2Context::new(None, None);
    assert!(matches!(
        ctx.handle_read(ReadEvent::WouldBlock, false),
        Err(ContextError::NoDataReady)
    ));
    assert!(matches!(
        ctx.handle_read(ReadEvent::Closed, false),
        Err(ContextError::ClientDisconnected)
    ));
    assert!(matches!(
        ctx.handle_read(ReadEvent::ConnectionError, false),
        Err(ContextError::ClientDisconnected)
    ));
    assert!(matches!(ctx.handle_read(ReadEvent::OtherError, false), Err(ContextError::IOError)));
}

#[test]
fn malformed_payload_is_invalid_stream() {
    let mut ctx = Http2Context::new(None, None);
    let mut wire = PREFACE.to_vec();
    // RST_STREAM must carry exactly 4 payload octets
    wire.extend_from_slice(&frame_bytes(0x3, 0, 1, &[0, 0, 0]));
    let r = read_all(&mut ctx, wire);
    assert!(matches!(r, Err(ContextError::InvalidStream)));
}

#[test]
fn push_promise_is_fatal() {
    let mut ctx = Http2Context::new(None, None);
    let mut wire = PREFACE.to_vec();
    wire.extend_from_slice(&frame_bytes(0x5, 0, 1, &[0, 0, 0, 2]));
    let r = read_all(&mut ctx, wire);
    assert!(matches!(r, Err(ContextError::InvalidStream)));
}

#[test]
fn header_size_cap_exceeded() {
    let mut ctx = Http2Context::new(None, None);
    let mut wire = PREFACE.to_vec();
    // SETTINGS_MAX_HEADER_LIST_SIZE (6) = 40: one small header fits
    // exactly, two push past the cap
    wire.extend_from_slice(&frame_bytes(0x4, 0, 0, &[0, 6, 0, 0, 0, 40]));
    // block decodes to one header of size 3 + 5 + 32 = 40: equality allowed
    wire.extend_from_slice(&frame_bytes(0x1, END_HEADERS, 1, &lit(b"abc", b"defgh")));
    let streams = read_all(&mut ctx, wire).unwrap();
    assert!(streams.is_empty());
    // a second block on the same stream pushes past 40
    let over = frame_bytes(0x9, END_HEADERS, 1, &lit(b"x", b"y"));
    let r = read_all(&mut ctx, over);
    assert!(matches!(r, Err(ContextError::MaxHeaderLenExceeded)));
}

#[test]
fn settings_resize_applies_before_next_block() {
    let mut ctx = Http2Context::new(None, None);
    let mut wire = PREFACE.to_vec();
    // Install an entry in the dynamic table with incremental indexing,
    let mut block1 = vec![0x40u8];
    block1.push(3);
    block1.extend_from_slice(b"foo");
    block1.push(3);
    block1.extend_from_slice(b"bar");
    wire.extend_from_slice(&frame_bytes(0x1, END_HEADERS | END_STREAM, 1, &block1));
    let streams = read_all(&mut ctx, wire).unwrap();
    assert_eq!(streams.len(), 1);
    assert_eq!(ctx.hpack_context.dynamic.len(), 1);
    // HEADER_TABLE_SIZE = 0 evicts everything before the next block decodes
    let mut wire2 = frame_bytes(0x4, 0, 0, &[0, 1, 0, 0, 0, 0]);
    wire2.extend_from_slice(&frame_bytes(0x1, END_HEADERS | END_STREAM, 3, &[0xbe]));
    let r = read_all(&mut ctx, wire2);
    // the dynamic entry is gone, so index 62 no longer resolves
    assert!(matches!(r, Err(ContextError::HeaderDecodeError(HpackError::InvalidIndex))));
    assert_eq!(ctx.hpack_context.dynamic.len(), 0);
}

#[test]
fn hpack_state_threads_across_blocks() {
    // the same fragments decoded on one connection reference entries the
    // earlier blocks installed
    let mut ctx = Http2Context::new(None, None);
    let mut wire = PREFACE.to_vec();
    let mut block1 = vec![0x40u8];
    block1.push(3);
    block1.extend_from_slice(b"foo");
    block1.push(3);
    block1.extend_from_slice(b"bar");
    wire.extend_from_slice(&frame_bytes(0x1, END_HEADERS | END_STREAM, 1, &block1));
    wire.extend_from_slice(&frame_bytes(0x1, END_HEADERS | END_STREAM, 3, &[0xbe]));
    let streams = read_all(&mut ctx, wire).unwrap();
    assert_eq!(streams.len(), 2);
    let h1 = streams[0].headers.as_ref().unwrap();
    let h2 = streams[1].headers.as_ref().unwrap();
    assert_eq!(h1, h2);
    assert_eq!(h2[0], (b"foo".to_vec(), b"bar".to_vec()));
}

#[test]
fn priority_frames_are_transparent() {
    let plain = {
        let mut ctx = Http2Context::new(None, None);
        read_all(&mut ctx, s2_bytes()).unwrap()
    };
    let with_priority = {
        let mut ctx = Http2Context::new(None, None);
        let mut wire = PREFACE.to_vec();
        let pri = frame_bytes(0x2, 0, 1, &[0, 0, 0, 0, 16]);
        wire.extend_from_slice(&pri);
        wire.extend_from_slice(&frame_bytes(0x4, 0, 0, &[]));
        wire.extend_from_slice(&pri);
        wire.extend_from_slice(&frame_bytes(0x1, END_HEADERS, 1, &get_headers_block()));
        wire.extend_from_slice(&pri);
        wire.extend_from_slice(&frame_bytes(0x0, END_STREAM, 1, b"hello"));
        let mut ctx2_streams = ctx.handle_read(ReadEvent::Data(wire), false).unwrap();
        // stream 1 entry stays because PRIORITY created nothing lasting
        ctx2_streams.remove(0)
    };
    assert_eq!(plain.len(), 1);
    assert_eq!(plain[0].data, with_priority.data);
    assert_eq!(
        plain[0].headers.as_ref().unwrap(),
        with_priority.headers.as_ref().unwrap()
    );
    assert!(matches!(with_priority.state, StreamState::Completed));
}

#[test]
fn ping_is_echoed_with_ack() {
    let mut ctx = Http2Context::new(None, None);
    let mut wire = PREFACE.to_vec();
    wire.extend_from_slice(&frame_bytes(0x6, 0, 0, &[9, 8, 7, 6, 5, 4, 3, 2]));
    let streams = read_all(&mut ctx, wire).unwrap();
    assert!(streams.is_empty());
    let out = ctx.take_write_buffer();
    assert_eq!(out, vec![0, 0, 8, 0x6, 0x1, 0, 0, 0, 0, 9, 8, 7, 6, 5, 4, 3, 2]);
    assert!(ctx.write_buffer.is_empty());
    // a PING that already carries ACK is consumed silently
    let wire2 = frame_bytes(0x6, 0x1, 0, &[1, 1, 1, 1, 1, 1, 1, 1]);
    let streams = read_all(&mut ctx, wire2).unwrap();
    assert!(streams.is_empty());
    assert!(ctx.take_write_buffer().is_empty());
}

#[test]
fn partial_data_streaming_mode() {
    let mut ctx = Http2Context::new(None, None);
    let mut wire = PREFACE.to_vec();
    wire.extend_from_slice(&frame_bytes(0x4, 0, 0, &[]));
    wire.extend_from_slice(&frame_bytes(0x1, END_HEADERS, 1, &get_headers_block()));
    wire.extend_from_slice(&frame_bytes(0x0, 0, 1, b"hel"));
    let chunks = ctx.handle_read(ReadEvent::Data(wire), true).unwrap();
    assert_eq!(chunks.len(), 1);
    assert!(matches!(chunks[0].state, StreamState::FillingData));
    assert_eq!(chunks[0].data, Some(b"hel".to_vec()));
    // the stream stays in the map with a drained body
    assert_eq!(ctx.streams.get(&1).unwrap().data, Some(Vec::new()));
    let tail = frame_bytes(0x0, END_STREAM, 1, b"lo");
    let done = ctx.handle_read(ReadEvent::Data(tail), true).unwrap();
    assert_eq!(done.len(), 1);
    assert!(matches!(done[0].state, StreamState::Completed));
    assert_eq!(done[0].data, Some(b"lo".to_vec()));
    assert!(ctx.streams.is_empty());
}

#[test]
fn continuation_without_end_stream_awaits_data() {
    let mut ctx = Http2Context::new(None, None);
    let mut wire = PREFACE.to_vec();
    // HEADERS with neither flag: the block stays open
    wire.extend_from_slice(&frame_bytes(0x1, 0, 1, &lit(b":method", b"POST")));
    // CONTINUATION closes the block, but END_STREAM was never seen
    wire.extend_from_slice(&frame_bytes(0x9, END_HEADERS, 1, &lit(b":path", b"/up")));
    let streams = read_all(&mut ctx, wire).unwrap();
    assert!(streams.is_empty());
    assert!(matches!(
        ctx.streams.get(&1).unwrap().state,
        StreamState::FillingHeaders
    ));
    // the body may now arrive; END_STREAM completes the stream
    let tail = frame_bytes(0x0, END_STREAM, 1, b"body");
    let done = read_all(&mut ctx, tail).unwrap();
    assert_eq!(done.len(), 1);
    assert!(matches!(done[0].state, StreamState::Completed));
    let headers = done[0].headers.as_ref().unwrap();
    assert_eq!(headers.len(), 2);
    assert_eq!(headers[0].0, b":method".to_vec());
    assert_eq!(headers[1].0, b":path".to_vec());
    assert_eq!(done[0].data, Some(b"body".to_vec()));
}

#[test]
fn open_header_block_admits_only_continuation() {
    let mut ctx = Http2Context::new(None, None);
    let mut wire = PREFACE.to_vec();
    // the block on stream 1 stays open (END_HEADERS clear)
    wire.extend_from_slice(&frame_bytes(0x1, END_STREAM, 1, &lit(b":method", b"GET")));
    // a DATA frame for the same stream is illegal mid-block
    wire.extend_from_slice(&frame_bytes(0x0, 0, 1, b"x"));
    let r = read_all(&mut ctx, wire);
    assert!(matches!(r, Err(ContextError::InvalidStream)));
}

#[test]
fn open_header_block_rejects_window_update() {
    let mut ctx = Http2Context::new(None, None);
    let mut wire = PREFACE.to_vec();
    wire.extend_from_slice(&frame_bytes(0x1, 0, 7, &lit(b":method", b"GET")));
    wire.extend_from_slice(&frame_bytes(0x8, 0, 7, &[0, 0, 0, 9]));
    let r = read_all(&mut ctx, wire);
    assert!(matches!(r, Err(ContextError::InvalidStream)));
}

#[test]
fn settings_pairs_apply_in_order() {
    let mut ctx = Http2Context::new(None, None);
    let mut wire = PREFACE.to_vec();
    let mut block1 = vec![0x40u8];
    block1.push(3);
    block1.extend_from_slice(b"foo");
    block1.push(3);
    block1.extend_from_slice(b"bar");
    wire.extend_from_slice(&frame_bytes(0x1, END_HEADERS | END_STREAM, 1, &block1));
    read_all(&mut ctx, wire).unwrap();
    assert_eq!(ctx.hpack_context.dynamic.len(), 1);
    // one SETTINGS frame: shrink the table to zero, then grow it again;
    // both pairs apply in order, so the entry is gone afterwards
    let pairs = [0, 1, 0, 0, 0, 0, 0, 1, 0, 0, 16, 0];
    let wire2 = frame_bytes(0x4, 0, 0, &pairs);
    read_all(&mut ctx, wire2).unwrap();
    assert_eq!(ctx.hpack_context.dynamic.len(), 0);
    assert_eq!(ctx.hpack_context.max_size, 4096);
}

#[test]
fn two_continuations_concatenate_in_order() {
    let mut ctx = Http2Context::new(None, None);
    let mut wire = PREFACE.to_vec();
    wire.extend_from_slice(&frame_bytes(0x1, END_STREAM, 9, &lit(b"one", b"1")));
    wire.extend_from_slice(&frame_bytes(0x9, 0, 9, &lit(b"two", b"2")));
    wire.extend_from_slice(&frame_bytes(0x9, END_HEADERS, 9, &lit(b"three", b"3")));
    let streams = read_all(&mut ctx, wire).unwrap();
    assert_eq!(streams.len(), 1);
    assert!(matches!(streams[0].state, StreamState::Completed));
    let headers = streams[0].headers.as_ref().unwrap();
    assert_eq!(headers.len(), 3);
    assert_eq!(headers[0].0, b"one".to_vec());
    assert_eq!(headers[1].0, b"two".to_vec());
    assert_eq!(headers[2].0, b"three".to_vec());
}
