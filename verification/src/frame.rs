//! HTTP/2 frame codec: a 9-byte header (24-bit big-endian length, 8-bit type,
//! 8-bit flags, reserved bit plus 31-bit big-endian stream id) followed by a
//! payload whose shape depends on the frame type.  `spec_parse` is the
//! mathematical definition of the wire format; `try_parse` is the executable
//! decoder, proved to agree with it exactly.

use vstd::prelude::*;

verus! {

pub const FRAME_TYPE_DATA: u8 = 0x0;

pub const FRAME_TYPE_HEADERS: u8 = 0x1;

pub const FRAME_TYPE_PRIORITY: u8 = 0x2;

pub const FRAME_TYPE_RST_STREAM: u8 = 0x3;

pub const FRAME_TYPE_SETTINGS: u8 = 0x4;

pub const FRAME_TYPE_PUSH_PROMISE: u8 = 0x5;

pub const FRAME_TYPE_PING: u8 = 0x6;

pub const FRAME_TYPE_GOAWAY: u8 = 0x7;

pub const FRAME_TYPE_WINDOW_UPDATE: u8 = 0x8;

pub const FRAME_TYPE_CONTINUATION: u8 = 0x9;

pub const FLAG_END_STREAM: u8 = 0x1;

pub const FLAG_ACK: u8 = 0x1;

pub const FLAG_END_HEADERS: u8 = 0x4;

pub const FLAG_PADDED: u8 = 0x8;

pub const FLAG_PRIORITY: u8 = 0x20;

pub const SETTINGS_HEADER_TABLE_SIZE: u16 = 0x1;

pub const SETTINGS_ENABLE_PUSH: u16 = 0x2;

pub const SETTINGS_MAX_CONCURRENT_STREAMS: u16 = 0x3;

pub const SETTINGS_INITIAL_WINDOW_SIZE: u16 = 0x4;

pub const SETTINGS_MAX_FRAME_SIZE: u16 = 0x5;

pub const SETTINGS_MAX_HEADER_LIST_SIZE: u16 = 0x6;

/// Whether every bit of `f` is set in `flags`.
pub open spec fn spec_has_flag(flags: u8, f: u8) -> bool {
    flags & f == f
}

pub fn has_flag(flags: u8, f: u8) -> (r: bool)
    ensures
        r == spec_has_flag(flags, f),
{
    flags & f == f
}

/// Big-endian 16-bit value at offset `i`.
pub open spec fn be16(b: Seq<u8>, i: int) -> int
    recommends
        0 <= i,
        i + 2 <= b.len(),
{
    b[i] * 0x100 + b[i + 1]
}

/// Big-endian 24-bit value at offset `i`.
pub open spec fn be24(b: Seq<u8>, i: int) -> int
    recommends
        0 <= i,
        i + 3 <= b.len(),
{
    b[i] * 0x10000 + b[i + 1] * 0x100 + b[i + 2]
}

/// Big-endian 32-bit value at offset `i`.
pub open spec fn be32(b: Seq<u8>, i: int) -> int
    recommends
        0 <= i,
        i + 4 <= b.len(),
{
    b[i] * 0x1000000 + b[i + 1] * 0x10000 + b[i + 2] * 0x100 + b[i + 3]
}

/// Big-endian 31-bit value at offset `i`: the top (reserved) bit is masked off.
pub open spec fn be31(b: Seq<u8>, i: int) -> int
    recommends
        0 <= i,
        i + 4 <= b.len(),
{
    (b[i] % 0x80) * 0x1000000 + b[i + 1] * 0x10000 + b[i + 2] * 0x100 + b[i + 3]
}

/// Big-endian 64-bit value at offset `i`.
pub open spec fn be64(b: Seq<u8>, i: int) -> int
    recommends
        0 <= i,
        i + 8 <= b.len(),
{
    ((((((b[i] * 0x100 + b[i + 1]) * 0x100 + b[i + 2]) * 0x100 + b[i + 3]) * 0x100 + b[i + 4])
        * 0x100 + b[i + 5]) * 0x100 + b[i + 6]) * 0x100 + b[i + 7]
}

/// Payload length announced by a frame header.
pub open spec fn payload_len(b: Seq<u8>) -> int
    recommends
        b.len() >= 3,
{
    be24(b, 0)
}

/// Total binary length of the frame at the head of `b`: header plus payload.
pub open spec fn frame_size(b: Seq<u8>) -> int
    recommends
        b.len() >= 3,
{
    9 + payload_len(b)
}

#[derive(Debug)]
pub enum FrameParseError {
    InsufficientLength,
    InsufficientPayloadLength,
    PayloadParseError,
}

/// A decoded frame payload.  Header-block fragments are kept as raw bytes;
/// HPACK decoding happens at the connection layer, in frame-arrival order.
#[derive(Debug)]
pub enum Payload {
    Data(Vec<u8>),
    Headers(Vec<u8>),
    Priority,
    RstStream(u32),
    Settings(Vec<(u16, u32)>),
    PushPromise,
    Ping(u64),
    GoAway,
    WindowUpdate(u32),
    Continuation(Vec<u8>),
}

#[verifier::ext_equal]
pub enum PayloadModel {
    Data(Seq<u8>),
    Headers(Seq<u8>),
    Priority,
    RstStream(u32),
    Settings(Seq<(u16, u32)>),
    PushPromise,
    Ping(u64),
    GoAway,
    WindowUpdate(u32),
    Continuation(Seq<u8>),
}

impl View for Payload {
    type V = PayloadModel;

    open spec fn view(&self) -> PayloadModel {
        match self {
            Payload::Data(d) => PayloadModel::Data(d@),
            Payload::Headers(f) => PayloadModel::Headers(f@),
            Payload::Priority => PayloadModel::Priority,
            Payload::RstStream(c) => PayloadModel::RstStream(*c),
            Payload::Settings(s) => PayloadModel::Settings(s@),
            Payload::PushPromise => PayloadModel::PushPromise,
            Payload::Ping(o) => PayloadModel::Ping(*o),
            Payload::GoAway => PayloadModel::GoAway,
            Payload::WindowUpdate(w) => PayloadModel::WindowUpdate(*w),
            Payload::Continuation(f) => PayloadModel::Continuation(f@),
        }
    }
}

/// One HTTP/2 frame, with its header fields and typed payload.
#[derive(Debug)]
pub struct Frame {
    pub stream_id: u32,
    pub flags: u8,
    pub payload: Payload,
}

#[verifier::ext_equal]
pub struct FrameModel {
    pub stream_id: u32,
    pub flags: u8,
    pub payload: PayloadModel,
}

impl View for Frame {
    type V = FrameModel;

    open spec fn view(&self) -> FrameModel {
        FrameModel { stream_id: self.stream_id, flags: self.flags, payload: self.payload@ }
    }
}

/// Settings payload: a run of 6-byte (identifier, value) units.
pub open spec fn spec_parse_settings(p: Seq<u8>) -> Seq<(u16, u32)>
    recommends
        p.len() % 6 == 0,
    decreases p.len(),
{
    if p.len() < 6 {
        seq![]
    } else {
        seq![(be16(p, 0) as u16, be32(p, 2) as u32)] + spec_parse_settings(p.skip(6))
    }
}

/// Remove the padding announced by the PADDED flag: a leading pad-length
/// octet and that many trailing octets.  `None` when the padding would
/// swallow the whole payload.
pub open spec fn spec_strip_padding(flags: u8, p: Seq<u8>) -> Option<Seq<u8>> {
    if !spec_has_flag(flags, FLAG_PADDED) {
        Some(p)
    } else if p.len() >= 1 && p[0] + 1 <= p.len() {
        Some(p.subrange(1, p.len() - p[0]))
    } else {
        None
    }
}

/// The header-block fragment carried by a HEADERS payload, after padding and
/// the optional 5-byte priority block are removed.
pub open spec fn spec_headers_fragment(flags: u8, p: Seq<u8>) -> Option<Seq<u8>> {
    match spec_strip_padding(flags, p) {
        None => None,
        Some(q) => {
            if !spec_has_flag(flags, FLAG_PRIORITY) {
                Some(q)
            } else if q.len() >= 5 {
                Some(q.skip(5))
            } else {
                None
            }
        },
    }
}

/// Payload decoding for each frame type; `None` means a malformed payload.
pub open spec fn spec_parse_payload(t: u8, flags: u8, p: Seq<u8>) -> Option<PayloadModel> {
    if t == FRAME_TYPE_DATA {
        match spec_strip_padding(flags, p) {
            Some(d) => Some(PayloadModel::Data(d)),
            None => None,
        }
    } else if t == FRAME_TYPE_HEADERS {
        match spec_headers_fragment(flags, p) {
            Some(f) => Some(PayloadModel::Headers(f)),
            None => None,
        }
    } else if t == FRAME_TYPE_PRIORITY {
        if p.len() == 5 {
            Some(PayloadModel::Priority)
        } else {
            None
        }
    } else if t == FRAME_TYPE_RST_STREAM {
        if p.len() == 4 {
            Some(PayloadModel::RstStream(be32(p, 0) as u32))
        } else {
            None
        }
    } else if t == FRAME_TYPE_SETTINGS {
        if p.len() % 6 == 0 {
            Some(PayloadModel::Settings(spec_parse_settings(p)))
        } else {
            None
        }
    } else if t == FRAME_TYPE_PUSH_PROMISE {
        Some(PayloadModel::PushPromise)
    } else if t == FRAME_TYPE_PING {
        if p.len() == 8 {
            Some(PayloadModel::Ping(be64(p, 0) as u64))
        } else {
            None
        }
    } else if t == FRAME_TYPE_GOAWAY {
        if p.len() >= 8 {
            Some(PayloadModel::GoAway)
        } else {
            None
        }
    } else if t == FRAME_TYPE_WINDOW_UPDATE {
        if p.len() == 4 {
            Some(PayloadModel::WindowUpdate(be31(p, 0) as u32))
        } else {
            None
        }
    } else if t == FRAME_TYPE_CONTINUATION {
        Some(PayloadModel::Continuation(p))
    } else {
        None
    }
}

/// What parsing the head of `b` yields: a frame model and its binary length,
/// or the reason no frame can be taken yet.
#[verifier::opaque]
pub open spec fn spec_parse(b: Seq<u8>) -> Result<(FrameModel, int), FrameParseError> {
    if b.len() < 9 {
        Err(FrameParseError::InsufficientLength)
    } else if b.len() < frame_size(b) {
        Err(FrameParseError::InsufficientPayloadLength)
    } else {
        match spec_parse_payload(b[3], b[4], b.subrange(9, frame_size(b))) {
            Some(pm) => Ok(
                (
                    FrameModel { stream_id: be31(b, 5) as u32, flags: b[4], payload: pm },
                    frame_size(b),
                ),
            ),
            None => Err(FrameParseError::PayloadParseError),
        }
    }
}

fn read_be16(b: &[u8], i: usize) -> (r: u16)
    requires
        i + 2 <= b@.len(),
    ensures
        r == be16(b@, i as int),
{
    (b[i] as u16) * 0x100 + (b[i + 1] as u16)
}

fn read_be24(b: &[u8], i: usize) -> (r: u32)
    requires
        i + 3 <= b@.len(),
    ensures
        r == be24(b@, i as int),
{
    (b[i] as u32) * 0x10000 + (b[i + 1] as u32) * 0x100 + (b[i + 2] as u32)
}

fn read_be32(b: &[u8], i: usize) -> (r: u32)
    requires
        i + 4 <= b@.len(),
    ensures
        r == be32(b@, i as int),
{
    (b[i] as u32) * 0x1000000 + (b[i + 1] as u32) * 0x10000 + (b[i + 2] as u32) * 0x100 + (b[i
        + 3] as u32)
}

fn read_be31(b: &[u8], i: usize) -> (r: u32)
    requires
        i + 4 <= b@.len(),
    ensures
        r == be31(b@, i as int),
{
    ((b[i] % 0x80) as u32) * 0x1000000 + (b[i + 1] as u32) * 0x10000 + (b[i + 2] as u32) * 0x100 + (
    b[i + 3] as u32)
}

fn read_be64(b: &[u8], i: usize) -> (r: u64)
    requires
        i + 8 <= b@.len(),
    ensures
        r == be64(b@, i as int),
{
    (((((((b[i] as u64) * 0x100 + (b[i + 1] as u64)) * 0x100 + (b[i + 2] as u64)) * 0x100 + (b[i
        + 3] as u64)) * 0x100 + (b[i + 4] as u64)) * 0x100 + (b[i + 5] as u64)) * 0x100 + (b[i
        + 6] as u64)) * 0x100 + (b[i + 7] as u64)
}

/// Copy `b[from..to]` into a fresh vector.
pub fn copy_range(b: &[u8], from: usize, to: usize) -> (v: Vec<u8>)
    requires
        from <= to <= b@.len(),
    ensures
        v@ == b@.subrange(from as int, to as int),
{
    let mut v: Vec<u8> = Vec::new();
    let mut i: usize = from;
    while i < to
        invariant
            from <= i <= to <= b@.len(),
            v@ == b@.subrange(from as int, i as int),
        decreases to - i,
    {
        v.push(b[i]);
        proof {
            assert(v@ =~= b@.subrange(from as int, i + 1 as int));
        }
        i = i + 1;
    }
    v
}

proof fn lemma_settings_step(p: Seq<u8>, i: int)
    requires
        0 <= i,
        i % 6 == 0,
        i + 6 <= p.len(),
    ensures
        spec_parse_settings(p.take(i + 6)) == spec_parse_settings(p.take(i)) + seq![
            (be16(p, i) as u16, be32(p, i + 2) as u32),
        ],
    decreases i,
{
    let a = p.take(i + 6);
    let b = p.take(i);
    if i == 0 {
        assert(a.skip(6) =~= Seq::<u8>::empty());
        assert(a[0] == p[0] && a[1] == p[1] && a[2] == p[2] && a[3] == p[3] && a[4] == p[4]
            && a[5] == p[5]);
        assert(spec_parse_settings(a.skip(6)) =~= Seq::<(u16, u32)>::empty());
        assert(be16(a, 0) == be16(p, 0) && be32(a, 2) == be32(p, 2));
        assert(spec_parse_settings(a) == seq![(be16(a, 0) as u16, be32(a, 2) as u32)]
            + spec_parse_settings(a.skip(6)));
        assert(seq![(be16(p, 0) as u16, be32(p, 2) as u32)] + Seq::<(u16, u32)>::empty()
            =~= seq![(be16(p, 0) as u16, be32(p, 2) as u32)]);
        assert(spec_parse_settings(a) =~= seq![(be16(p, 0) as u16, be32(p, 2) as u32)]);
        assert(spec_parse_settings(b) =~= Seq::<(u16, u32)>::empty());
    } else {
        lemma_settings_step(p.skip(6), i - 6);
        assert(a.skip(6) =~= p.skip(6).take(i - 6 + 6));
        assert(b.skip(6) =~= p.skip(6).take(i - 6));
        assert(spec_parse_settings(a) == seq![(be16(a, 0) as u16, be32(a, 2) as u32)]
            + spec_parse_settings(a.skip(6)));
        assert(spec_parse_settings(b) == seq![(be16(b, 0) as u16, be32(b, 2) as u32)]
            + spec_parse_settings(b.skip(6)));
        assert(be16(a, 0) == be16(b, 0) && be32(a, 2) == be32(b, 2));
        assert(be16(p.skip(6), i - 6) == be16(p, i) && be32(p.skip(6), i - 6 + 2) == be32(
            p,
            i + 2,
        ));
        assert(spec_parse_settings(a) =~= spec_parse_settings(b) + seq![
            (be16(p, i) as u16, be32(p, i + 2) as u32),
        ]);
    }
}

fn parse_settings(p: &Vec<u8>) -> (r: Vec<(u16, u32)>)
    requires
        p@.len() % 6 == 0,
    ensures
        r@ == spec_parse_settings(p@),
{
    let mut r: Vec<(u16, u32)> = Vec::new();
    let mut i: usize = 0;
    while p.len() - i >= 6
        invariant
            0 <= i <= p@.len(),
            i % 6 == 0,
            p@.len() % 6 == 0,
            r@ == spec_parse_settings(p@.take(i as int)),
        decreases p@.len() - i,
    {
        let id = read_be16(p.as_slice(), i);
        let value = read_be32(p.as_slice(), i + 2);
        r.push((id, value));
        proof {
            lemma_settings_step(p@, i as int);
        }
        i = i + 6;
    }
    proof {
        assert(p@.take(p@.len() as int) =~= p@);
    }
    r
}

fn strip_padding(flags: u8, p: &Vec<u8>) -> (r: Option<Vec<u8>>)
    ensures
        match r {
            Some(d) => spec_strip_padding(flags, p@) == Some(d@),
            None => spec_strip_padding(flags, p@) is None,
        },
{
    if !has_flag(flags, FLAG_PADDED) {
        Some(copy_range(p.as_slice(), 0, p.len()))
    } else if p.len() >= 1 && (p[0] as usize) + 1 <= p.len() {
        let pad = p[0] as usize;
        Some(copy_range(p.as_slice(), 1, p.len() - pad))
    } else {
        None
    }
}

fn headers_fragment(flags: u8, p: &Vec<u8>) -> (r: Option<Vec<u8>>)
    ensures
        match r {
            Some(f) => spec_headers_fragment(flags, p@) == Some(f@),
            None => spec_headers_fragment(flags, p@) is None,
        },
{
    match strip_padding(flags, p) {
        None => None,
        Some(q) => {
            if !has_flag(flags, FLAG_PRIORITY) {
                Some(q)
            } else if q.len() >= 5 {
                let f = copy_range(q.as_slice(), 5, q.len());
                proof {
                    assert(f@ =~= q@.skip(5));
                }
                Some(f)
            } else {
                None
            }
        },
    }
}

fn parse_payload(t: u8, flags: u8, p: &Vec<u8>) -> (r: Option<Payload>)
    ensures
        match r {
            Some(pl) => spec_parse_payload(t, flags, p@) == Some(pl@),
            None => spec_parse_payload(t, flags, p@) is None,
        },
{
    if t == FRAME_TYPE_DATA {
        match strip_padding(flags, p) {
            Some(d) => Some(Payload::Data(d)),
            None => None,
        }
    } else if t == FRAME_TYPE_HEADERS {
        match headers_fragment(flags, p) {
            Some(f) => Some(Payload::Headers(f)),
            None => None,
        }
    } else if t == FRAME_TYPE_PRIORITY {
        if p.len() == 5 {
            Some(Payload::Priority)
        } else {
            None
        }
    } else if t == FRAME_TYPE_RST_STREAM {
        if p.len() == 4 {
            Some(Payload::RstStream(read_be32(p.as_slice(), 0)))
        } else {
            None
        }
    } else if t == FRAME_TYPE_SETTINGS {
        if p.len() % 6 == 0 {
            Some(Payload::Settings(parse_settings(p)))
        } else {
            None
        }
    } else if t == FRAME_TYPE_PUSH_PROMISE {
        Some(Payload::PushPromise)
    } else if t == FRAME_TYPE_PING {
        if p.len() == 8 {
            Some(Payload::Ping(read_be64(p.as_slice(), 0)))
        } else {
            None
        }
    } else if t == FRAME_TYPE_GOAWAY {
        if p.len() >= 8 {
            Some(Payload::GoAway)
        } else {
            None
        }
    } else if t == FRAME_TYPE_WINDOW_UPDATE {
        if p.len() == 4 {
            Some(Payload::WindowUpdate(read_be31(p.as_slice(), 0)))
        } else {
            None
        }
    } else if t == FRAME_TYPE_CONTINUATION {
        Some(Payload::Continuation(copy_range(p.as_slice(), 0, p.len())))
    } else {
        None
    }
}

/// Decode the frame at the head of `b`, returning it with its binary length.
pub fn try_parse(b: &[u8]) -> (r: Result<(Frame, usize), FrameParseError>)
    ensures
        match r {
            Ok((f, n)) => spec_parse(b@) == Ok::<(FrameModel, int), FrameParseError>(
                (f@, n as int),
            ),
            Err(e) => spec_parse(b@) == Err::<(FrameModel, int), FrameParseError>(e),
        },
{
    proof {
        reveal(spec_parse);
    }
    if b.len() < 9 {
        return Err(FrameParseError::InsufficientLength);
    }
    let plen = read_be24(b, 0) as usize;
    if b.len() < 9 + plen {
        return Err(FrameParseError::InsufficientPayloadLength);
    }
    let total = 9 + plen;
    let ftype = b[3];
    let flags = b[4];
    let stream_id = read_be31(b, 5);
    let payload_bytes = copy_range(b, 9, total);
    match parse_payload(ftype, flags, &payload_bytes) {
        Some(pl) => Ok((Frame { stream_id, flags, payload: pl }, total)),
        None => Err(FrameParseError::PayloadParseError),
    }
}

/// Parsing looks only at the frame the header announces: once a complete
/// frame sits at the head of the buffer, appending more bytes changes
/// neither the outcome nor the consumed length.
pub proof fn lemma_parse_prefix_stable(b: Seq<u8>, ext: Seq<u8>)
    requires
        b.len() >= 9,
        frame_size(b) <= b.len(),
    ensures
        spec_parse(b + ext) == spec_parse(b),
{
    reveal(spec_parse);
    let c = b + ext;
    assert(c[0] == b[0] && c[1] == b[1] && c[2] == b[2] && c[3] == b[3] && c[4] == b[4]);
    assert(c[5] == b[5] && c[6] == b[6] && c[7] == b[7] && c[8] == b[8]);
    assert(frame_size(c) == frame_size(b));
    assert(c.subrange(9, frame_size(c)) =~= b.subrange(9, frame_size(b)));
}

/// The spec-level bytes of a PING reply: same 8-byte opaque value, ACK set.
pub open spec fn spec_ping_ack(opaque: u64) -> Seq<u8> {
    seq![
        0u8,
        0u8,
        8u8,
        FRAME_TYPE_PING,
        FLAG_ACK,
        0u8,
        0u8,
        0u8,
        0u8,
        ((opaque as int) / 0x100000000000000) as u8,
        (((opaque as int) / 0x1000000000000) % 0x100) as u8,
        (((opaque as int) / 0x10000000000) % 0x100) as u8,
        (((opaque as int) / 0x100000000) % 0x100) as u8,
        (((opaque as int) / 0x1000000) % 0x100) as u8,
        (((opaque as int) / 0x10000) % 0x100) as u8,
        (((opaque as int) / 0x100) % 0x100) as u8,
        ((opaque as int) % 0x100) as u8,
    ]
}

/// Encode a PING reply frame echoing `opaque` with the ACK flag set.
pub fn encode_ping_ack(opaque: u64) -> (v: Vec<u8>)
    ensures
        v@ == spec_ping_ack(opaque),
{
    let mut v: Vec<u8> = Vec::new();
    v.push(0u8);
    v.push(0u8);
    v.push(8u8);
    v.push(FRAME_TYPE_PING);
    v.push(FLAG_ACK);
    v.push(0u8);
    v.push(0u8);
    v.push(0u8);
    v.push(0u8);
    v.push((opaque / 0x100000000000000) as u8);
    v.push(((opaque / 0x1000000000000) % 0x100) as u8);
    v.push(((opaque / 0x10000000000) % 0x100) as u8);
    v.push(((opaque / 0x100000000) % 0x100) as u8);
    v.push(((opaque / 0x1000000) % 0x100) as u8);
    v.push(((opaque / 0x10000) % 0x100) as u8);
    v.push(((opaque / 0x100) % 0x100) as u8);
    v.push((opaque % 0x100) as u8);
    proof {
        assert(v@ =~= spec_ping_ack(opaque));
    }
    v
}

} // verus!
