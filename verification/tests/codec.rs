//! Frame codec and HPACK decoder behavior on concrete wire bytes.

use khttp::frame::Frame;
use khttp::frame::FrameParseError;
use khttp::frame::Payload;
use khttp::frame::encode_ping_ack;
use khttp::frame::try_parse;
use khttp::hpack::HpackContext;
use khttp::hpack::HpackError;

fn frame_bytes(ftype: u8, flags: u8, stream_id: u32, payload: &[u8]) -> Vec<u8> {
    let mut v = Vec::new();
    let len = payload.len() as u32;
    v.push((len >> 16) as u8);
    v.push((len >> 8) as u8);
    v.push(len as u8);
    v.push(ftype);
    v.push(flags);
    v.push((stream_id >> 24) as u8);
    v.push((stream_id >> 16) as u8);
    v.push((stream_id >> 8) as u8);
    v.push(stream_id as u8);
    v.extend_from_slice(payload);
    v
}

#[test]
fn parse_needs_nine_bytes() {
    let r = try_parse(&[0, 0, 0, 4]);
    assert!(matches!(r, Err(FrameParseError::InsufficientLength)));
}

#[test]
fn parse_needs_full_payload() {
    let mut b = frame_bytes(0x0, 0, 1, b"hello");
    b.pop();
    let r = try_parse(&b);
    assert!(matches!(r, Err(FrameParseError::InsufficientPayloadLength)));
}

#[test]
fn parse_unknown_type_is_error() {
    let b = frame_bytes(0xaa, 0, 1, b"");
    let r = try_parse(&b);
    assert!(matches!(r, Err(FrameParseError::PayloadParseError)));
}

#[test]
fn parse_data_frame() {
    let b = frame_bytes(0x0, 0x1, 7, b"hello");
    let (f, n) = try_parse(&b).unwrap();
    assert_eq!(n, 14);
    assert_eq!(f.stream_id, 7);
    assert_eq!(f.flags, 0x1);
    match f.payload {
        Payload::Data(d) => assert_eq!(d, b"hello".to_vec()),
        _ => panic!("wrong payload kind"),
    }
}

#[test]
fn parse_data_frame_with_padding() {
    // PADDED flag: pad length 2, data "hi", two pad octets
    let b = frame_bytes(0x0, 0x8, 7, &[2, 0x68, 0x69, 0, 0]);
    let (f, _) = try_parse(&b).unwrap();
    match f.payload {
        Payload::Data(d) => assert_eq!(d, b"hi".to_vec()),
        _ => panic!("wrong payload kind"),
    }
}

#[test]
fn parse_settings_pairs() {
    // (HEADER_TABLE_SIZE, 256), (MAX_FRAME_SIZE, 16384)
    let payload = [0, 1, 0, 0, 1, 0, 0, 5, 0, 0, 0x40, 0];
    let b = frame_bytes(0x4, 0, 0, &payload);
    let (f, _) = try_parse(&b).unwrap();
    match f.payload {
        Payload::Settings(s) => {
            assert_eq!(s, vec![(1u16, 256u32), (5u16, 16384u32)]);
        },
        _ => panic!("wrong payload kind"),
    }
}

#[test]
fn parse_settings_rejects_ragged_payload() {
    let b = frame_bytes(0x4, 0, 0, &[0, 1, 0]);
    assert!(matches!(try_parse(&b), Err(FrameParseError::PayloadParseError)));
}

#[test]
fn parse_ping_and_echo() {
    let b = frame_bytes(0x6, 0, 0, &[1, 2, 3, 4, 5, 6, 7, 8]);
    let (f, _) = try_parse(&b).unwrap();
    let opaque = match f.payload {
        Payload::Ping(o) => o,
        _ => panic!("wrong payload kind"),
    };
    assert_eq!(opaque, 0x0102030405060708);
    let ack = encode_ping_ack(opaque);
    assert_eq!(ack, vec![0, 0, 8, 0x6, 0x1, 0, 0, 0, 0, 1, 2, 3, 4, 5, 6, 7, 8]);
}

#[test]
fn parse_window_update_masks_reserved_bit() {
    let b = frame_bytes(0x8, 0, 0, &[0x80, 0, 0, 5]);
    let (f, _) = try_parse(&b).unwrap();
    match f.payload {
        Payload::WindowUpdate(inc) => assert_eq!(inc, 5),
        _ => panic!("wrong payload kind"),
    }
}

#[test]
fn parse_stream_id_masks_reserved_bit() {
    let b = frame_bytes(0x0, 0, 0x8000_0001, b"");
    let (f, _) = try_parse(&b).unwrap();
    assert_eq!(f.stream_id, 1);
}

#[test]
fn hpack_indexed_static_entry() {
    let mut h = HpackContext::new(4096);
    // 0x82 = indexed field, static index 2 = :method GET
    let (headers, _size) = h.decode(&[0x82]).unwrap();
    assert_eq!(headers.len(), 1);
    assert_eq!(headers[0].0, b":method".to_vec());
    assert_eq!(headers[0].1, b"GET".to_vec());
}

#[test]
fn hpack_literal_with_incremental_indexing_then_indexed() {
    let mut h = HpackContext::new(4096);
    // 0x40 = literal with incremental indexing, literal name and value
    let mut block = vec![0x40u8];
    block.push(3);
    block.extend_from_slice(b"foo");
    block.push(3);
    block.extend_from_slice(b"bar");
    let (headers, size) = h.decode(&block).unwrap();
    assert_eq!(headers, vec![(b"foo".to_vec(), b"bar".to_vec())]);
    // name + value + 32 octets of accounting
    assert_eq!(size, 38);
    // 0xbe = indexed field, dynamic index 62 = the entry just added
    let (headers2, _) = h.decode(&[0xbe]).unwrap();
    assert_eq!(headers2, vec![(b"foo".to_vec(), b"bar".to_vec())]);
}

#[test]
fn hpack_huffman_is_rejected() {
    let mut h = HpackContext::new(4096);
    // literal without indexing, name length with H bit set
    let r = h.decode(&[0x00, 0x83, 0xaa, 0xbb, 0xcc]);
    assert!(matches!(r, Err(HpackError::HuffmanUnsupported)));
}

#[test]
fn hpack_invalid_index_is_rejected() {
    let mut h = HpackContext::new(4096);
    // 0xff 0x00 = indexed field, index 127: beyond static and empty dynamic table
    let r = h.decode(&[0xff, 0x00]);
    assert!(matches!(r, Err(HpackError::InvalidIndex)));
}

#[test]
fn hpack_truncated_block_is_rejected() {
    let mut h = HpackContext::new(4096);
    let r = h.decode(&[0x00, 5, 0x61]);
    assert!(matches!(r, Err(HpackError::Truncated)));
}

#[test]
fn hpack_varint_continuation() {
    let mut h = HpackContext::new(4096);
    // dynamic table size update with 5-bit prefix: 0x3f then 1 -> 31 + 1 = 32
    let (headers, size) = h.decode(&[0x3f, 0x01]).unwrap();
    assert!(headers.is_empty());
    assert_eq!(size, 0);
    assert_eq!(h.max_size, 32);
}

#[test]
fn hpack_eviction_on_resize() {
    let mut h = HpackContext::new(4096);
    let mut block = vec![0x40u8];
    block.push(3);
    block.extend_from_slice(b"foo");
    block.push(3);
    block.extend_from_slice(b"bar");
    h.decode(&block).unwrap();
    assert_eq!(h.dynamic.len(), 1);
    h.resize(10);
    assert_eq!(h.dynamic.len(), 0);
}
