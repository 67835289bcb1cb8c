//! The per-connection HTTP/2 engine: the read buffer, the shared HPACK
//! context, the map of active streams, and peer settings.  `spec_step` is
//! the mathematical transition a single frame makes; `handle_frame` is the
//! executable dispatcher, proved to agree with it.

use vstd::prelude::*;

use std::collections::HashMap;

use crate::frame::Frame;
use crate::frame::FrameModel;
use crate::frame::FrameParseError;
use crate::frame::frame_size;
use crate::frame::spec_parse;
use crate::frame::spec_parse_payload;
use crate::frame::try_parse;
use crate::frame::copy_range;
use crate::frame::Payload;
use crate::frame::PayloadModel;
use crate::frame::spec_has_flag;
use crate::frame::spec_ping_ack;
use crate::frame::encode_ping_ack;
use crate::frame::has_flag;
use crate::frame::FLAG_END_STREAM;
use crate::frame::FLAG_END_HEADERS;
use crate::frame::FLAG_ACK;
use crate::frame::SETTINGS_HEADER_TABLE_SIZE;
use crate::frame::SETTINGS_ENABLE_PUSH;
use crate::frame::SETTINGS_MAX_CONCURRENT_STREAMS;
use crate::frame::SETTINGS_INITIAL_WINDOW_SIZE;
use crate::frame::SETTINGS_MAX_FRAME_SIZE;
use crate::frame::SETTINGS_MAX_HEADER_LIST_SIZE;
use crate::hpack::HpackContext;
use crate::hpack::HpackError;
use crate::hpack::HpackModel;
use crate::hpack::spec_decode;
use crate::hpack::spec_evict;
use crate::stream::Http2Stream;
use crate::stream::bytes_eq;
use crate::stream::StreamModel;
use crate::stream::StreamState;

verus! {

broadcast use vstd::std_specs::hash::group_hash_axioms;

/// Errors the connection engine reports; see the propagation policy in the
/// read path.
#[derive(Debug, PartialEq, Eq, Clone, Copy)]
pub enum ContextError {
    IOError,
    HeaderDecodeError(HpackError),
    IncompleteStream,
    ClientDisconnected,
    NotHttp2,
    NoDataReady,
    InvalidStream,
    MaxHeaderLenExceeded,
}

/// What one readiness wakeup's read attempt produced; the caller owning the
/// socket classifies its I/O result into one of these.
#[derive(Debug)]
pub enum ReadEvent {
    Data(Vec<u8>),
    Closed,
    WouldBlock,
    ConnectionError,
    OtherError,
}

/// The mathematical value of a connection context.
#[verifier::ext_equal]
pub struct CtxModel {
    pub handshaked: bool,
    pub buffer_size: int,
    pub hpack: HpackModel,
    pub streams: Map<u32, StreamModel>,
    pub read_buffer: Seq<u8>,
    pub write_buffer: Seq<u8>,
    pub enable_push: bool,
    pub max_streams: u32,
    pub max_window_size: int,
    pub max_frame_size: u32,
    pub max_headers_len: u32,
}

/// One HTTP/2 connection: owns the framing state, the HPACK decoder, and
/// per-stream assembly.  The socket itself lives with the caller; bytes
/// come in through `handle_read`.
pub struct Http2Context {
    pub handshaked: bool,
    pub buffer_size: usize,
    pub hpack_context: HpackContext,
    pub streams: HashMap<u32, Http2Stream>,
    pub read_buffer: Vec<u8>,
    pub write_buffer: Vec<u8>,
    pub enable_push: bool,
    pub max_streams: u32,
    pub max_window_size: u128,
    pub max_frame_size: u32,
    pub max_headers_len: u32,
}

impl View for Http2Context {
    type V = CtxModel;

    open spec fn view(&self) -> CtxModel {
        CtxModel {
            handshaked: self.handshaked,
            buffer_size: self.buffer_size as int,
            hpack: self.hpack_context@,
            streams: self.streams@.map_values(|s: Http2Stream| s@),
            read_buffer: self.read_buffer@,
            write_buffer: self.write_buffer@,
            enable_push: self.enable_push,
            max_streams: self.max_streams,
            max_window_size: self.max_window_size as int,
            max_frame_size: self.max_frame_size,
            max_headers_len: self.max_headers_len,
        }
    }
}

/// A stream as first created for an id.
pub open spec fn fresh_stream(id: u32) -> StreamModel {
    StreamModel {
        state: StreamState::Idle,
        stream_id: id,
        window: 4096,
        data: None,
        headers: None,
        headers_len: 0,
        end_stream: false,
        headers_open: false,
        ping_opaque: 0,
    }
}

/// The stream a frame addresses: the one in the map, or a fresh one.
pub open spec fn stream_or_fresh(c: CtxModel, id: u32) -> StreamModel {
    if c.streams.contains_key(id) {
        c.streams[id]
    } else {
        fresh_stream(id)
    }
}

/// The working stream for a frame: frames on stream 0 are
/// connection-scoped, so they work on a throwaway fresh stream.
pub open spec fn addressed_stream(c: CtxModel, id: u32) -> StreamModel {
    if id != 0 {
        stream_or_fresh(c, id)
    } else {
        fresh_stream(0)
    }
}

/// `c` with the stream stored under its id.
pub open spec fn with_stream(c: CtxModel, id: u32, s: StreamModel) -> CtxModel {
    CtxModel { streams: c.streams.insert(id, s), ..c }
}

/// Store the stream back for stream-addressed frames; frames on stream 0
/// are connection-scoped and never create a stream entry.
pub open spec fn keep_stream(c: CtxModel, id: u32, s: StreamModel) -> CtxModel {
    if id != 0 {
        with_stream(c, id, s)
    } else {
        c
    }
}

/// Saturating window accumulation.
pub open spec fn sat_window(w: int, inc: u32) -> int {
    if w + inc <= i128::MAX {
        w + inc
    } else {
        i128::MAX as int
    }
}

/// The connection-wide negotiated settings and HPACK state that a
/// SETTINGS payload can change.
#[verifier::ext_equal]
pub struct SettingsState {
    pub hpack: HpackModel,
    pub enable_push: bool,
    pub max_streams: u32,
    pub max_window_size: int,
    pub max_frame_size: u32,
    pub max_headers_len: u32,
}

/// The settings portion of a connection context.
pub open spec fn settings_of(c: CtxModel) -> SettingsState {
    SettingsState {
        hpack: c.hpack,
        enable_push: c.enable_push,
        max_streams: c.max_streams,
        max_window_size: c.max_window_size,
        max_frame_size: c.max_frame_size,
        max_headers_len: c.max_headers_len,
    }
}

/// `c` with its settings portion replaced.
pub open spec fn with_settings(c: CtxModel, st: SettingsState) -> CtxModel {
    CtxModel {
        hpack: st.hpack,
        enable_push: st.enable_push,
        max_streams: st.max_streams,
        max_window_size: st.max_window_size,
        max_frame_size: st.max_frame_size,
        max_headers_len: st.max_headers_len,
        ..c
    }
}

/// Apply one SETTINGS (identifier, value) pair to the connection settings
/// and the referenced stream.
pub open spec fn spec_apply_one_setting(
    st: SettingsState,
    s: StreamModel,
    id: u16,
    v: u32,
    sid: u32,
) -> (SettingsState, StreamModel) {
    if id == SETTINGS_HEADER_TABLE_SIZE {
        (
            SettingsState {
                hpack: HpackModel { table: spec_evict(st.hpack.table, v as int), max: v as int },
                ..st
            },
            s,
        )
    } else if id == SETTINGS_ENABLE_PUSH {
        (SettingsState { enable_push: v != 0, ..st }, s)
    } else if id == SETTINGS_MAX_CONCURRENT_STREAMS {
        (SettingsState { max_streams: v, ..st }, s)
    } else if id == SETTINGS_INITIAL_WINDOW_SIZE {
        if sid == 0 {
            (SettingsState { max_window_size: v as int, ..st }, s)
        } else {
            (st, StreamModel { window: v as int, ..s })
        }
    } else if id == SETTINGS_MAX_FRAME_SIZE {
        (SettingsState { max_frame_size: v, ..st }, s)
    } else if id == SETTINGS_MAX_HEADER_LIST_SIZE {
        (SettingsState { max_headers_len: v, ..st }, s)
    } else {
        (st, s)
    }
}

/// Apply a SETTINGS payload in order.  A HEADER_TABLE_SIZE value resizes
/// the HPACK table immediately, before any further header block decodes.
pub open spec fn spec_apply_settings(
    st: SettingsState,
    s: StreamModel,
    list: Seq<(u16, u32)>,
    sid: u32,
) -> (SettingsState, StreamModel)
    decreases list.len(),
{
    if list.len() == 0 {
        (st, s)
    } else {
        let p = spec_apply_one_setting(st, s, list[0].0, list[0].1, sid);
        spec_apply_settings(p.0, p.1, list.skip(1), sid)
    }
}

/// The outcome of dispatching one frame: the next context and the result
/// the dispatcher reports.
#[verifier::ext_equal]
pub struct StepOut {
    pub ctx: CtxModel,
    pub res: Result<u32, ContextError>,
}

/// Saturate a decoded-size accounting value into the stream's 32-bit
/// counter.
pub open spec fn sat_u32(v: int) -> u32 {
    if v > u32::MAX {
        u32::MAX
    } else {
        v as u32
    }
}

/// The stream after a decoded header block is folded in: headers appended,
/// the decoded size accounted (saturating), and the lifecycle advanced by
/// the END_STREAM / END_HEADERS flags.
pub open spec fn spec_headers_stream_next(
    s0: StreamModel,
    hdrs: Seq<(Seq<u8>, Seq<u8>)>,
    size: int,
    flags: u8,
    is_headers: bool,
) -> StreamModel {
    let sz32 = sat_u32(size);
    let ended = if is_headers {
        spec_has_flag(flags, FLAG_END_STREAM)
    } else {
        s0.end_stream
    };
    StreamModel {
        headers: Some(
            match s0.headers {
                Some(h) => h + hdrs,
                None => hdrs,
            },
        ),
        headers_len: if s0.headers_len + sz32 <= u32::MAX {
            (s0.headers_len + sz32) as u32
        } else {
            u32::MAX
        },
        state: if ended && spec_has_flag(flags, FLAG_END_HEADERS) {
            StreamState::Completed
        } else {
            StreamState::FillingHeaders
        },
        end_stream: ended,
        headers_open: !spec_has_flag(flags, FLAG_END_HEADERS),
        ..s0
    }
}

/// Decode a header-block fragment and fold it into the stream, under the
/// advertised header-list size cap; shared by HEADERS and CONTINUATION.
#[verifier::opaque]
pub open spec fn spec_step_headers(
    c: CtxModel,
    flags: u8,
    frag: Seq<u8>,
    sid: u32,
    s0: StreamModel,
    is_headers: bool,
) -> StepOut {
    match spec_decode(c.hpack.table, c.hpack.max, frag, 0) {
        Err(e) => StepOut {
            ctx: keep_stream(c, sid, s0),
            res: Err(ContextError::HeaderDecodeError(e)),
        },
        Ok(out) => {
            let c1 = CtxModel { hpack: HpackModel { table: out.table, max: out.max }, ..c };
            if c.max_headers_len != 0 && s0.headers_len + out.size > c.max_headers_len {
                StepOut {
                    ctx: keep_stream(c1, sid, s0),
                    res: Err(ContextError::MaxHeaderLenExceeded),
                }
            } else if sid != 0 {
                StepOut {
                    ctx: with_stream(
                        c1,
                        sid,
                        spec_headers_stream_next(s0, out.headers, out.size, flags, is_headers),
                    ),
                    res: Ok(sid),
                }
            } else {
                StepOut { ctx: c1, res: Ok(sid) }
            }
        },
    }
}

/// The transition one frame makes on a connection: the next context and
/// the stream id it applied to, or the error that tears the connection
/// down.  On a header-decode failure the context's HPACK component is not
/// meaningful (the connection is discarded).
/// Whether a dispatch result is an HPACK decode failure (of any kind).
pub open spec fn is_header_decode_err(r: Result<u32, ContextError>) -> bool {
    match r {
        Err(ContextError::HeaderDecodeError(_)) => true,
        _ => false,
    }
}

/// While a stream's header block is open (END_HEADERS pending), frames
/// other than CONTINUATION for that stream are illegal.
pub open spec fn spec_block_gate(c: CtxModel, f: FrameModel) -> bool {
    &&& f.stream_id != 0
    &&& addressed_stream(c, f.stream_id).state == StreamState::FillingHeaders
    &&& addressed_stream(c, f.stream_id).headers_open
    &&& !(f.payload is Continuation)
}

#[verifier::opaque]
pub open spec fn spec_step(c: CtxModel, f: FrameModel) -> StepOut {
    let sid = f.stream_id;
    let s0 = addressed_stream(c, sid);
    if spec_block_gate(c, f) {
        StepOut { ctx: keep_stream(c, sid, s0), res: Err(ContextError::InvalidStream) }
    } else {
        spec_step_payload(c, f, sid, s0)
    }
}

/// The per-payload transition, after the open-header-block gate admitted
/// the frame.
#[verifier::opaque]
pub open spec fn spec_step_payload(c: CtxModel, f: FrameModel, sid: u32, s0: StreamModel) -> StepOut {
    match f.payload {
        PayloadModel::Settings(list) => {
            let p = spec_apply_settings(settings_of(c), s0, list, sid);
            if sid != 0 {
                StepOut {
                    ctx: with_stream(
                        with_settings(c, p.0),
                        sid,
                        StreamModel { state: StreamState::Initiate, ..p.1 },
                    ),
                    res: Ok(sid),
                }
            } else {
                StepOut { ctx: with_settings(c, p.0), res: Ok(sid) }
            }
        },
        PayloadModel::Data(d) => {
            if sid != 0 {
                let s1 = StreamModel {
                    data: Some(
                        match s0.data {
                            Some(x) => x + d,
                            None => d,
                        },
                    ),
                    state: if spec_has_flag(f.flags, FLAG_END_STREAM) {
                        StreamState::Completed
                    } else {
                        StreamState::FillingData
                    },
                    ..s0
                };
                StepOut { ctx: with_stream(c, sid, s1), res: Ok(sid) }
            } else {
                StepOut { ctx: c, res: Ok(sid) }
            }
        },
        PayloadModel::Headers(frag) => spec_step_headers(c, f.flags, frag, sid, s0, true),
        PayloadModel::Continuation(frag) => spec_step_headers(c, f.flags, frag, sid, s0, false),
        PayloadModel::Priority => StepOut { ctx: keep_stream(c, sid, s0), res: Ok(sid) },
        PayloadModel::RstStream(_) => {
            if sid != 0 {
                StepOut {
                    ctx: with_stream(c, sid, StreamModel { state: StreamState::Ended, ..s0 }),
                    res: Ok(sid),
                }
            } else {
                StepOut { ctx: c, res: Ok(sid) }
            }
        },
        PayloadModel::PushPromise => StepOut {
            ctx: keep_stream(c, sid, s0),
            res: Err(ContextError::InvalidStream),
        },
        PayloadModel::Ping(op) => {
            let c1 = keep_stream(c, sid, s0);
            if spec_has_flag(f.flags, FLAG_ACK) {
                StepOut { ctx: c1, res: Ok(sid) }
            } else {
                StepOut {
                    ctx: CtxModel { write_buffer: c1.write_buffer + spec_ping_ack(op), ..c1 },
                    res: Ok(sid),
                }
            }
        },
        PayloadModel::GoAway => StepOut {
            ctx: keep_stream(c, sid, s0),
            res: Err(ContextError::ClientDisconnected),
        },
        PayloadModel::WindowUpdate(inc) => {
            if sid == 0 {
                let w = if c.max_window_size + inc <= u128::MAX {
                    c.max_window_size + inc
                } else {
                    u128::MAX as int
                };
                StepOut { ctx: CtxModel { max_window_size: w, ..c }, res: Ok(sid) }
            } else {
                StepOut {
                    ctx: with_stream(
                        c,
                        sid,
                        StreamModel { window: sat_window(s0.window, inc), ..s0 },
                    ),
                    res: Ok(sid),
                }
            }
        },
    }
}

/// Header-block fragments a frame can carry are bounded by the 24-bit
/// frame length, as the parser guarantees.
pub open spec fn spec_frame_wf(f: FrameModel) -> bool {
    match f.payload {
        PayloadModel::Headers(frag) => frag.len() < 0x1000000,
        PayloadModel::Continuation(frag) => frag.len() < 0x1000000,
        _ => true,
    }
}

impl Http2Context {
    /// The HPACK decoder state is internally consistent.
    pub open spec fn wf(&self) -> bool {
        self.hpack_context.wf()
    }

    /// Fresh connection context.  `max_header` is the HPACK dynamic-table
    /// capacity in octets (default 4096); `buffer_size` is the read chunk
    /// size (default 4096).
    pub fn new(max_header: Option<u32>, buffer_size: Option<usize>) -> (c: Http2Context)
        ensures
            c.wf(),
            c@ == (CtxModel {
                handshaked: false,
                buffer_size: (match buffer_size {
                    Some(b) => b,
                    None => 4096,
                }) as int,
                hpack: HpackModel {
                    table: Seq::empty(),
                    max: (match max_header {
                        Some(m) => m,
                        None => 4096,
                    }) as int,
                },
                streams: Map::<u32, StreamModel>::empty(),
                read_buffer: Seq::<u8>::empty(),
                write_buffer: Seq::<u8>::empty(),
                enable_push: true,
                max_streams: 0,
                max_window_size: 65535,
                max_frame_size: 16384,
                max_headers_len: 0,
            }),
    {
        let mh: u32 = match max_header {
            Some(m) => m,
            None => 4096,
        };
        let bs: usize = match buffer_size {
            Some(b) => b,
            None => 4096,
        };
        let c = Http2Context {
            handshaked: false,
            buffer_size: bs,
            hpack_context: HpackContext::new(mh),
            streams: HashMap::new(),
            read_buffer: Vec::new(),
            write_buffer: Vec::new(),
            enable_push: true,
            max_streams: 0,
            max_window_size: 65535,
            max_frame_size: 16384,
            max_headers_len: 0,
        };
        proof {
            assert(c@.streams =~= Map::<u32, StreamModel>::empty());
            assert(c@ =~= (CtxModel {
                handshaked: false,
                buffer_size: bs as int,
                hpack: HpackModel { table: Seq::empty(), max: mh as int },
                streams: Map::<u32, StreamModel>::empty(),
                read_buffer: Seq::<u8>::empty(),
                write_buffer: Seq::<u8>::empty(),
                enable_push: true,
                max_streams: 0,
                max_window_size: 65535,
                max_frame_size: 16384,
                max_headers_len: 0,
            }));
        }
        c
    }

    /// The configured read chunk size.
    pub fn get_buffer_size(&self) -> (r: usize)
        ensures
            r == self@.buffer_size,
    {
        self.buffer_size
    }

    /// Queue response bytes for the peer; the caller drains them on the
    /// socket's writable events.
    pub fn enqueue_write(&mut self, bytes: &[u8])
        ensures
            final(self)@ == (CtxModel {
                write_buffer: old(self)@.write_buffer + bytes@,
                ..old(self)@
            }),
            final(self).hpack_context == old(self).hpack_context,
    {
        let mut copy = copy_range(bytes, 0, bytes.len());
        self.write_buffer.append(&mut copy);
    }

    /// Take the pending outbound bytes (PING replies and queued responses),
    /// leaving the write buffer empty.
    pub fn take_write_buffer(&mut self) -> (r: Vec<u8>)
        ensures
            r@ == old(self)@.write_buffer,
            final(self)@ == (CtxModel { write_buffer: Seq::<u8>::empty(), ..old(self)@ }),
    {
        let mut out: Vec<u8> = Vec::new();
        std::mem::swap(&mut out, &mut self.write_buffer);
        out
    }
}


/// The stream model carried in the dispatcher's working slot.
pub open spec fn slot_model(o: Option<Http2Stream>, sid: u32) -> StreamModel {
    match o {
        Some(s) => s@,
        None => fresh_stream(sid),
    }
}

/// `map_values` of the stream map commutes with `remove`.
proof fn lemma_mv_remove(m: Map<u32, Http2Stream>, k: u32)
    ensures
        m.remove(k).map_values(|s: Http2Stream| s@) == m.map_values(
            |s: Http2Stream| s@,
        ).remove(k),
{
    assert(m.remove(k).map_values(|s: Http2Stream| s@) =~= m.map_values(
        |s: Http2Stream| s@,
    ).remove(k));
}

/// `map_values` of the stream map commutes with `insert`.
proof fn lemma_mv_insert(m: Map<u32, Http2Stream>, k: u32, v: Http2Stream)
    ensures
        m.insert(k, v).map_values(|s: Http2Stream| s@) == m.map_values(
            |s: Http2Stream| s@,
        ).insert(k, v@),
{
    assert(m.insert(k, v).map_values(|s: Http2Stream| s@) =~= m.map_values(
        |s: Http2Stream| s@,
    ).insert(k, v@));
}

impl Http2Context {
    /// Apply every (identifier, value) pair of a SETTINGS payload, in
    /// order, to the connection and the addressed stream.
    fn apply_settings_list(&mut self, list: &Vec<(u16, u32)>, sid: u32, slot: &mut Option<
        Http2Stream,
    >)
        requires
            old(self).wf(),
            sid != 0 <==> (*old(slot)) is Some,
        ensures
            final(self).wf(),
            ({
                let p = spec_apply_settings(
                    settings_of(old(self)@),
                    slot_model(*old(slot), sid),
                    list@,
                    sid,
                );
                &&& final(self)@ == with_settings(old(self)@, p.0)
                &&& match *final(slot) {
                    Some(s) => sid != 0 && s@ == p.1,
                    None => sid == 0,
                }
            }),
    {
        let ghost c0 = self@;
        let ghost st0 = slot_model(*old(slot), sid);
        let ghost all = list@;
        let mut i: usize = 0;
        proof {
            assert(all.skip(0) =~= all);
            assert(self@ =~= with_settings(c0, settings_of(self@)));
        }
        while i < list.len()
            invariant
                self.wf(),
                i <= all.len(),
                list@ == all,
                sid != 0 <==> (*slot) is Some,
                self@ == with_settings(c0, settings_of(self@)),
                spec_apply_settings(settings_of(c0), st0, all, sid) == spec_apply_settings(
                    settings_of(self@),
                    slot_model(*slot, sid),
                    all.skip(i as int),
                    sid,
                ),
            decreases all.len() - i,
        {
            let ghost c_pre = self@;
            let ghost st_pre = slot_model(*slot, sid);
            let id = list[i].0;
            let v = list[i].1;
            if id == SETTINGS_HEADER_TABLE_SIZE {
                self.hpack_context.resize(v);
            } else if id == SETTINGS_ENABLE_PUSH {
                self.enable_push = v != 0;
            } else if id == SETTINGS_MAX_CONCURRENT_STREAMS {
                self.max_streams = v;
            } else if id == SETTINGS_INITIAL_WINDOW_SIZE {
                if sid == 0 {
                    self.max_window_size = v as u128;
                } else {
                    match slot {
                        Some(ref mut s) => {
                            s.set_window_frame_size(v);
                        },
                        None => {},
                    }
                }
            } else if id == SETTINGS_MAX_FRAME_SIZE {
                self.max_frame_size = v;
            } else if id == SETTINGS_MAX_HEADER_LIST_SIZE {
                self.max_headers_len = v;
            }
            proof {
                assert((settings_of(self@), slot_model(*slot, sid)) =~= spec_apply_one_setting(
                    settings_of(c_pre),
                    st_pre,
                    id,
                    v,
                    sid,
                ));
                assert(self@ =~= with_settings(c0, settings_of(self@)));
                assert(all.skip(i as int).skip(1) =~= all.skip(i + 1));
            }
            i = i + 1;
        }
        proof {
            assert(all.skip(all.len() as int) =~= Seq::<(u16, u32)>::empty());
            assert(final(self)@ =~= with_settings(
                c0,
                spec_apply_settings(settings_of(c0), st0, all, sid).0,
            ));
        }
    }

    /// Decode a header-block fragment with the shared HPACK context and
    /// fold it into the addressed stream, enforcing the header-list size
    /// cap; the caller holds the stream in `slot` and stores it back.
    fn apply_header_block(
        &mut self,
        frag: &Vec<u8>,
        flags: u8,
        sid: u32,
        slot: &mut Option<Http2Stream>,
        is_headers: bool,
    ) -> (r: Result<u32, ContextError>)
        requires
            old(self).wf(),
            frag@.len() < 0x1000000,
            sid != 0 <==> (*old(slot)) is Some,
        ensures
            final(self).wf(),
            sid != 0 <==> (*final(slot)) is Some,
            ({
                let c = old(self)@;
                let s0 = slot_model(*old(slot), sid);
                match spec_decode(c.hpack.table, c.hpack.max, frag@, 0) {
                    Err(e) => {
                        &&& r == Err::<u32, ContextError>(ContextError::HeaderDecodeError(e))
                        &&& *final(slot) == *old(slot)
                        &&& final(self)@ == (CtxModel { hpack: final(self)@.hpack, ..c })
                    },
                    Ok(out) => {
                        &&& final(self)@ == (CtxModel {
                            hpack: HpackModel { table: out.table, max: out.max },
                            ..c
                        })
                        &&& if c.max_headers_len != 0 && s0.headers_len + out.size
                            > c.max_headers_len {
                            r == Err::<u32, ContextError>(ContextError::MaxHeaderLenExceeded)
                                && *final(slot) == *old(slot)
                        } else {
                            r == Ok::<u32, ContextError>(sid) && (sid != 0 ==> slot_model(
                                *final(slot),
                                sid,
                            ) == spec_headers_stream_next(
                                s0,
                                out.headers,
                                out.size,
                                flags,
                                is_headers,
                            ))
                        }
                    },
                }
            }),
    {
        let hl: u32 = match slot {
            Some(ref s) => s.get_headers_len(),
            None => 0,
        };
        match self.hpack_context.decode(frag.as_slice()) {
            Err(e) => Err(ContextError::HeaderDecodeError(e)),
            Ok((hdrs, sz)) => {
                if self.max_headers_len != 0 && (hl as u64) + sz > (self.max_headers_len as u64) {
                    Err(ContextError::MaxHeaderLenExceeded)
                } else {
                    match slot {
                        Some(ref mut s) => {
                            let sz32: u32 = if sz > (u32::MAX as u64) {
                                u32::MAX
                            } else {
                                sz as u32
                            };
                            s.add_headers(hdrs, sz32);
                            let ended = if is_headers {
                                has_flag(flags, FLAG_END_STREAM)
                            } else {
                                s.end_stream
                            };
                            s.end_stream = ended;
                            s.headers_open = !has_flag(flags, FLAG_END_HEADERS);
                            if ended && has_flag(flags, FLAG_END_HEADERS) {
                                s.state = StreamState::Completed;
                            } else {
                                s.state = StreamState::FillingHeaders;
                            }
                        },
                        None => {},
                    }
                    Ok(sid)
                }
            },
        }
    }

    /// Dispatch a SETTINGS frame.
    #[verifier::rlimit(100)]
    fn frame_settings(&mut self, frame: &Frame) -> (r: Result<u32, ContextError>)
        requires
            old(self).wf(),
            frame@.payload is Settings,
            !spec_block_gate(old(self)@, frame@),
        ensures
            final(self).wf(),
            r == spec_step(old(self)@, frame@).res,
            final(self)@ == spec_step(old(self)@, frame@).ctx,
    {
        proof {
            reveal(spec_step);
            reveal(spec_step_payload);
        }
        let ghost c0 = self@;
        let sid = frame.stream_id;
        let mut slot: Option<Http2Stream> = self.take_slot(sid, Ghost(c0));
        let ghost s0 = addressed_stream(c0, sid);
        let ghost c_removed = self@;
        match frame.payload {
            Payload::Settings(ref list) => {
                let ghost p = spec_apply_settings(settings_of(c0), s0, list@, sid);
                self.apply_settings_list(list, sid, &mut slot);
                proof {
                    assert(settings_of(c_removed) =~= settings_of(c0));
                    assert(self@ == with_settings(c_removed, p.0));
                }
                match slot {
                    Some(ref mut s) => {
                        s.state = StreamState::Initiate;
                    },
                    None => {},
                }
                self.put_back(sid, slot, Ghost(c0));
                proof {
                    if sid != 0 {
                        assert(self@ =~= with_stream(
                            with_settings(c0, p.0),
                            sid,
                            StreamModel { state: StreamState::Initiate, ..p.1 },
                        ));
                    } else {
                        assert(self@ =~= with_settings(c0, p.0));
                    }
                }
                Ok(sid)
            },
            _ => {
                proof {
                    assert(false);
                }
                Err(ContextError::InvalidStream)
            },
        }
    }

    /// Dispatch a HEADERS or CONTINUATION frame.
    #[verifier::rlimit(100)]
    fn frame_headers(&mut self, frame: &Frame, is_headers: bool) -> (r: Result<u32, ContextError>)
        requires
            old(self).wf(),
            spec_frame_wf(frame@),
            !spec_block_gate(old(self)@, frame@),
            is_headers <==> frame@.payload is Headers,
            !is_headers <==> frame@.payload is Continuation,
        ensures
            final(self).wf(),
            r == spec_step(old(self)@, frame@).res,
            !is_header_decode_err(r) ==> final(self)@ == spec_step(old(self)@, frame@).ctx,
            is_header_decode_err(r) ==> final(self)@ == (CtxModel {
                hpack: final(self)@.hpack,
                ..spec_step(old(self)@, frame@).ctx
            }),
    {
        proof {
            reveal(spec_step);
            reveal(spec_step_payload);
            reveal(spec_step_headers);
        }
        let ghost c0 = self@;
        let sid = frame.stream_id;
        let mut slot: Option<Http2Stream> = self.take_slot(sid, Ghost(c0));
        let ghost s0 = addressed_stream(c0, sid);
        let res: Result<u32, ContextError> = match frame.payload {
            Payload::Headers(ref frag) => self.apply_header_block(
                frag,
                frame.flags,
                sid,
                &mut slot,
                true,
            ),
            Payload::Continuation(ref frag) => self.apply_header_block(
                frag,
                frame.flags,
                sid,
                &mut slot,
                false,
            ),
            _ => Err(ContextError::InvalidStream),
        };
        self.put_back(sid, slot, Ghost(c0));
        proof {
            reveal(spec_step_headers);
            let out = spec_step(c0, frame@);
            let frag = match frame@.payload {
                PayloadModel::Headers(f) => f,
                PayloadModel::Continuation(f) => f,
                _ => Seq::empty(),
            };
            match spec_decode(c0.hpack.table, c0.hpack.max, frag, 0) {
                Err(de) => {
                    assert(res == Err::<u32, ContextError>(ContextError::HeaderDecodeError(de)));
                    assert(res == out.res);
                    assert(self@ =~= (CtxModel { hpack: self@.hpack, ..out.ctx }));
                },
                Ok(dout) => {
                    assert(res == out.res);
                    assert(self@ =~= out.ctx);
                },
            }
        }
        res
    }

    /// Dispatch the remaining frame types, whose effects are plain field
    /// and stream updates.
    #[verifier::rlimit(100)]
    fn frame_simple(&mut self, frame: &Frame) -> (r: Result<u32, ContextError>)
        requires
            old(self).wf(),
            !spec_block_gate(old(self)@, frame@),
            !(frame@.payload is Settings),
            !(frame@.payload is Headers),
            !(frame@.payload is Continuation),
        ensures
            final(self).wf(),
            r == spec_step(old(self)@, frame@).res,
            final(self)@ == spec_step(old(self)@, frame@).ctx,
    {
        proof {
            reveal(spec_step);
            reveal(spec_step_payload);
        }
        let ghost c0 = self@;
        let sid = frame.stream_id;
        let mut slot: Option<Http2Stream> = self.take_slot(sid, Ghost(c0));
        let ghost s0 = addressed_stream(c0, sid);
        let res: Result<u32, ContextError> = match frame.payload {
            Payload::Data(ref d) => {
                match slot {
                    Some(ref mut s) => {
                        s.write_data(d.as_slice());
                        if has_flag(frame.flags, FLAG_END_STREAM) {
                            s.state = StreamState::Completed;
                        } else {
                            s.state = StreamState::FillingData;
                        }
                    },
                    None => {},
                }
                Ok(sid)
            },
            Payload::Priority => Ok(sid),
            Payload::RstStream(_) => {
                match slot {
                    Some(ref mut s) => {
                        s.state = StreamState::Ended;
                    },
                    None => {},
                }
                Ok(sid)
            },
            Payload::PushPromise => Err(ContextError::InvalidStream),
            Payload::Ping(op) => {
                if !has_flag(frame.flags, FLAG_ACK) {
                    let mut ack = encode_ping_ack(op);
                    self.write_buffer.append(&mut ack);
                }
                Ok(sid)
            },
            Payload::GoAway => Err(ContextError::ClientDisconnected),
            Payload::WindowUpdate(inc) => {
                if sid == 0 {
                    if self.max_window_size <= u128::MAX - inc as u128 {
                        self.max_window_size = self.max_window_size + inc as u128;
                    } else {
                        self.max_window_size = u128::MAX;
                    }
                } else {
                    match slot {
                        Some(ref mut s) => {
                            s.window_frame_size_increament(inc);
                        },
                        None => {},
                    }
                }
                Ok(sid)
            },
            _ => Ok(sid),
        };
        self.put_back(sid, slot, Ghost(c0));
        proof {
            let out = spec_step(c0, frame@);
            assert(self@ =~= out.ctx);
        }
        res
    }

    /// Take the addressed stream out of the map (creating it on first
    /// reference); connection-scoped frames on stream 0 have no stream.
    fn take_slot(&mut self, sid: u32, Ghost(c0): Ghost<CtxModel>) -> (slot: Option<Http2Stream>)
        requires
            old(self)@ == c0,
        ensures
            final(self).hpack_context == old(self).hpack_context,
            sid != 0 <==> slot is Some,
            sid != 0 ==> slot_model(slot, sid) == stream_or_fresh(c0, sid),
            final(self)@ == (CtxModel {
                streams: if sid != 0 {
                    c0.streams.remove(sid)
                } else {
                    c0.streams
                },
                ..c0
            }),
    {
        if sid != 0 {
            let removed = self.streams.remove(&sid);
            proof {
                lemma_mv_remove(old(self).streams@, sid);
                assert(self@ =~= (CtxModel { streams: c0.streams.remove(sid), ..c0 }));
            }
            match removed {
                Some(s) => {
                    proof {
                        assert(old(self).streams@.contains_key(sid));
                        assert(c0.streams.contains_key(sid));
                        assert(c0.streams[sid] == s@);
                    }
                    Some(s)
                },
                None => {
                    proof {
                        assert(!old(self).streams@.contains_key(sid));
                        assert(!c0.streams.contains_key(sid));
                    }
                    Some(Http2Stream::new(sid))
                },
            }
        } else {
            proof {
                assert(self@ =~= (CtxModel { streams: c0.streams, ..c0 }));
            }
            None
        }
    }

    /// Store the addressed stream back into the map.
    fn put_back(&mut self, sid: u32, slot: Option<Http2Stream>, Ghost(c0): Ghost<CtxModel>)
        requires
            sid != 0 <==> slot is Some,
            old(self)@.streams == if sid != 0 {
                c0.streams.remove(sid)
            } else {
                c0.streams
            },
        ensures
            final(self).hpack_context == old(self).hpack_context,
            final(self)@ == (CtxModel {
                streams: match slot {
                    Some(s) => c0.streams.insert(sid, s@),
                    None => c0.streams,
                },
                ..old(self)@
            }),
    {
        match slot {
            Some(s) => {
                let ghost pre = self.streams@;
                let ghost sv = s@;
                self.streams.insert(sid, s);
                proof {
                    lemma_mv_insert(pre, sid, s);
                    assert(pre.map_values(|x: Http2Stream| x@).insert(sid, sv) =~= c0.streams.insert(
                        sid,
                        sv,
                    ));
                    assert(self@ =~= (CtxModel {
                        streams: c0.streams.insert(sid, sv),
                        ..old(self)@
                    }));
                }
            },
            None => {},
        }
    }

    /// Dispatch one parsed frame: look up or create the addressed stream,
    /// apply the payload, and report the stream id it applied to, or the
    /// error that tears the connection down.
    pub fn handle_frame(&mut self, frame: &Frame) -> (r: Result<u32, ContextError>)
        requires
            old(self).wf(),
            spec_frame_wf(frame@),
        ensures
            final(self).wf(),
            r == spec_step(old(self)@, frame@).res,
            !is_header_decode_err(r) ==> final(self)@ == spec_step(old(self)@, frame@).ctx,
            is_header_decode_err(r) ==> final(self)@ == (CtxModel {
                hpack: final(self)@.hpack,
                ..spec_step(old(self)@, frame@).ctx
            }),
    {
        let sid = frame.stream_id;
        let is_continuation = match frame.payload {
            Payload::Continuation(_) => true,
            _ => false,
        };
        let mut gated = false;
        if sid != 0 && !is_continuation {
            match self.streams.get(&sid) {
                Some(st) => {
                    match st.state {
                        StreamState::FillingHeaders => {
                            if st.headers_open {
                                gated = true;
                            }
                        },
                        _ => {},
                    }
                },
                None => {},
            }
        }
        proof {
            if self.streams@.contains_key(sid) {
                assert(self@.streams.contains_key(sid));
                assert(self@.streams[sid] == self.streams@[sid]@);
            }
            assert(gated == spec_block_gate(self@, frame@));
        }
        if gated {
            proof {
                reveal(spec_step);
                assert(self@.streams.insert(sid, self@.streams[sid]) =~= self@.streams);
                assert(self@ =~= spec_step(self@, frame@).ctx);
            }
            return Err(ContextError::InvalidStream);
        }
        match frame.payload {
            Payload::Settings(_) => self.frame_settings(frame),
            Payload::Headers(_) => self.frame_headers(frame, true),
            Payload::Continuation(_) => self.frame_headers(frame, false),
            _ => self.frame_simple(frame),
        }
    }

}


/// The 24-byte client connection preface.
pub open spec fn spec_preface() -> Seq<u8> {
    seq![
        0x50u8,
        0x52,
        0x49,
        0x20,
        0x2a,
        0x20,
        0x48,
        0x54,
        0x54,
        0x50,
        0x2f,
        0x32,
        0x2e,
        0x30,
        0x0d,
        0x0a,
        0x0d,
        0x0a,
        0x53,
        0x4d,
        0x0d,
        0x0a,
        0x0d,
        0x0a,
    ]
}

fn preface() -> (v: Vec<u8>)
    ensures
        v@ == spec_preface(),
{
    let v: Vec<u8> = vec![
        0x50u8,
        0x52,
        0x49,
        0x20,
        0x2a,
        0x20,
        0x48,
        0x54,
        0x54,
        0x50,
        0x2f,
        0x32,
        0x2e,
        0x30,
        0x0d,
        0x0a,
        0x0d,
        0x0a,
        0x53,
        0x4d,
        0x0d,
        0x0a,
        0x0d,
        0x0a,
    ];
    proof {
        assert(v@ =~= spec_preface());
    }
    v
}

/// Drop the first `n` bytes of a buffer.
pub fn drain_prefix(v: &mut Vec<u8>, n: usize)
    requires
        n <= old(v)@.len(),
    ensures
        final(v)@ == old(v)@.skip(n as int),
{
    let rest = copy_range(v.as_slice(), n, v.len());
    proof {
        assert(rest@ =~= old(v)@.skip(n as int));
    }
    *v = rest;
}

/// The stream models of a delivered batch.
pub open spec fn streams_view(v: Seq<Http2Stream>) -> Seq<StreamModel> {
    v.map_values(|s: Http2Stream| s@)
}

/// What happens to a frame's result: the outcome of one read pass.
#[verifier::ext_equal]
pub struct FeedOut {
    pub ctx: CtxModel,
    pub outs: Seq<StreamModel>,
    pub err: Option<ContextError>,
}

/// After a frame was dispatched to stream `sid`, surface it: a `Completed`
/// stream leaves the map and is delivered; a `FillingData` stream is
/// delivered as a body chunk when partial delivery is on, staying in the
/// map with its body drained; an `Ended` stream leaves the map silently.
pub open spec fn spec_surface(c: CtxModel, sid: u32, partial: bool) -> (CtxModel, Seq<
    StreamModel,
>) {
    if c.streams.contains_key(sid) {
        let s = c.streams[sid];
        if s.state == StreamState::Completed {
            (CtxModel { streams: c.streams.remove(sid), ..c }, seq![s])
        } else if s.state == StreamState::FillingData && partial {
            (
                CtxModel {
                    streams: c.streams.insert(
                        sid,
                        StreamModel {
                            data: match s.data {
                                Some(_) => Some(Seq::<u8>::empty()),
                                None => None,
                            },
                            ..s
                        },
                    ),
                    ..c
                },
                seq![s],
            )
        } else if s.state == StreamState::Ended {
            (CtxModel { streams: c.streams.remove(sid), ..c }, seq![])
        } else {
            (c, seq![])
        }
    } else {
        (c, seq![])
    }
}

/// A frame transition leaves the read buffer alone: frames are drained by
/// the read loop before dispatch.
pub proof fn lemma_step_read_buffer(c: CtxModel, f: FrameModel)
    ensures
        spec_step(c, f).ctx.read_buffer == c.read_buffer,
        spec_step(c, f).ctx.handshaked == c.handshaked,
        spec_step(c, f).ctx.buffer_size == c.buffer_size,
{
    reveal(spec_step);
    reveal(spec_step_payload);
    reveal(spec_step_headers);
}

/// Parse as many complete frames from the head of the read buffer as are
/// there, dispatching each and surfacing the affected streams in order;
/// stop quietly when only an incomplete frame remains.
pub open spec fn spec_feed(c: CtxModel, partial: bool) -> FeedOut
    decreases c.read_buffer.len(),
    via spec_feed_decreases
{
    if c.read_buffer.len() == 0 {
        FeedOut { ctx: c, outs: seq![], err: None }
    } else if c.read_buffer.len() < 9 || c.read_buffer.len() < frame_size(c.read_buffer) {
        FeedOut { ctx: c, outs: seq![], err: None }
    } else {
        match spec_parse(c.read_buffer) {
            Err(_) => FeedOut { ctx: c, outs: seq![], err: Some(ContextError::InvalidStream) },
            Ok((fm, n)) => {
                let c1 = CtxModel { read_buffer: c.read_buffer.skip(n), ..c };
                let st = spec_step(c1, fm);
                match st.res {
                    Err(e) => FeedOut { ctx: st.ctx, outs: seq![], err: Some(e) },
                    Ok(sid) => {
                        let su = spec_surface(st.ctx, sid, partial);
                        let rest = spec_feed(su.0, partial);
                        FeedOut { ctx: rest.ctx, outs: su.1 + rest.outs, err: rest.err }
                    },
                }
            },
        }
    }
}

#[via_fn]
proof fn spec_feed_decreases(c: CtxModel, partial: bool) {
    if c.read_buffer.len() >= 9 && c.read_buffer.len() >= frame_size(c.read_buffer) {
        lemma_parse_wf(c.read_buffer);
        match spec_parse(c.read_buffer) {
            Err(_) => {},
            Ok((fm, n)) => {
                let c1 = CtxModel { read_buffer: c.read_buffer.skip(n), ..c };
                lemma_step_read_buffer(c1, fm);
            },
        }
    }
}

/// Absorb freshly read bytes: append them, consume the preface first if
/// the handshake is still pending, then feed complete frames through the
/// dispatcher.
pub open spec fn spec_absorb(c: CtxModel, bytes: Seq<u8>, partial: bool) -> FeedOut {
    let c1 = CtxModel { read_buffer: c.read_buffer + bytes, ..c };
    if !c.handshaked {
        if c1.read_buffer.len() < 24 {
            FeedOut { ctx: c1, outs: seq![], err: None }
        } else if c1.read_buffer.take(24) != spec_preface() {
            FeedOut { ctx: c1, outs: seq![], err: Some(ContextError::NotHttp2) }
        } else {
            spec_feed(
                CtxModel { handshaked: true, read_buffer: c1.read_buffer.skip(24), ..c1 },
                partial,
            )
        }
    } else {
        spec_feed(c1, partial)
    }
}

/// A parsed frame carries a well-bounded header fragment, and its binary
/// length covers at least the frame header.
pub proof fn lemma_parse_wf(b: Seq<u8>)
    ensures
        spec_parse(b) matches Ok((fm, n)) ==> spec_frame_wf(fm) && 9 <= n <= b.len(),
{
    reveal(spec_parse);
    if b.len() >= 9 && frame_size(b) <= b.len() {
        let p = b.subrange(9, frame_size(b));
        assert(p.len() < 0x1000000);
        match spec_parse_payload(b[3], b[4], p) {
            Some(pm) => {
                match pm {
                    PayloadModel::Headers(frag) => {
                        assert(frag.len() <= p.len());
                    },
                    PayloadModel::Continuation(frag) => {
                        assert(frag.len() <= p.len());
                    },
                    _ => {},
                }
            },
            None => {},
        }
    }
}


/// One unfolding of `spec_feed` when a complete frame heads the buffer.
pub proof fn lemma_feed_unfold(c: CtxModel, partial: bool)
    requires
        !(spec_parse(c.read_buffer) matches Err(e) && (e is InsufficientLength
            || e is InsufficientPayloadLength)),
    ensures
        spec_parse(c.read_buffer) matches Err(pe) ==> spec_feed(c, partial) == (FeedOut {
            ctx: c,
            outs: Seq::empty(),
            err: Some(ContextError::InvalidStream),
        }),
        spec_parse(c.read_buffer) matches Ok((fm, n)) ==> {
            let c1 = CtxModel { read_buffer: c.read_buffer.skip(n), ..c };
            let st = spec_step(c1, fm);
            &&& (st.res matches Err(e) ==> spec_feed(c, partial) == (FeedOut {
                ctx: st.ctx,
                outs: Seq::empty(),
                err: Some(e),
            }))
            &&& (st.res matches Ok(sid) ==> {
                let su = spec_surface(st.ctx, sid, partial);
                let rest = spec_feed(su.0, partial);
                spec_feed(c, partial) == (FeedOut {
                    ctx: rest.ctx,
                    outs: su.1 + rest.outs,
                    err: rest.err,
                })
            })
        },
{
    reveal(spec_parse);
    match spec_parse(c.read_buffer) {
        Err(_) => {
            assert(spec_feed(c, partial) =~= (FeedOut {
                ctx: c,
                outs: Seq::empty(),
                err: Some(ContextError::InvalidStream),
            }));
        },
        Ok((fm, n)) => {
            let c1 = CtxModel { read_buffer: c.read_buffer.skip(n), ..c };
            let st = spec_step(c1, fm);
            match st.res {
                Err(e) => {
                    assert(spec_feed(c, partial) =~= (FeedOut {
                        ctx: st.ctx,
                        outs: Seq::empty(),
                        err: Some(e),
                    }));
                },
                Ok(sid) => {
                    let su = spec_surface(st.ctx, sid, partial);
                    let rest = spec_feed(su.0, partial);
                    assert(spec_feed(c, partial) =~= (FeedOut {
                        ctx: rest.ctx,
                        outs: su.1 + rest.outs,
                        err: rest.err,
                    }));
                },
            }
        },
    }
}

/// `spec_feed` stops without error when no complete frame heads the
/// buffer.
pub proof fn lemma_feed_done(c: CtxModel, partial: bool)
    requires
        c.read_buffer.len() == 0 || (spec_parse(c.read_buffer) matches Err(e) && (e
            is InsufficientLength || e is InsufficientPayloadLength)),
    ensures
        spec_feed(c, partial) == (FeedOut { ctx: c, outs: Seq::empty(), err: None }),
{
    reveal(spec_parse);
    assert(spec_feed(c, partial).outs =~= Seq::<StreamModel>::empty());
}

impl Http2Context {
    /// Surface the stream a frame applied to, as `spec_surface` says.
    fn surface(&mut self, sid: u32, read_data_stream: bool, result: &mut Vec<Http2Stream>)
        requires
            old(self).wf(),
        ensures
            final(self).wf(),
            ({
                let su = spec_surface(old(self)@, sid, read_data_stream);
                &&& final(self)@ == su.0
                &&& streams_view(final(result)@) == streams_view(old(result)@) + su.1
            }),
    {
        let ghost c0 = self@;
        let mut action: u8 = 0;
        match self.streams.get(&sid) {
            Some(st) => {
                match st.state {
                    StreamState::Completed => {
                        action = 1;
                    },
                    StreamState::FillingData => {
                        if read_data_stream {
                            action = 2;
                        }
                    },
                    StreamState::Ended => {
                        action = 3;
                    },
                    _ => {},
                }
            },
            None => {},
        }
        proof {
            assert(c0.streams.contains_key(sid) == self.streams@.contains_key(sid));
        }
        if action == 1 {
            let s = self.streams.remove(&sid).unwrap();
            proof {
                lemma_mv_remove(old(self).streams@, sid);
                assert(self@ =~= (CtxModel { streams: c0.streams.remove(sid), ..c0 }));
            }
            result.push(s);
            proof {
                assert(streams_view(result@) =~= streams_view(old(result)@) + seq![
                    c0.streams[sid],
                ]);
            }
        } else if action == 2 {
            let mut s = self.streams.remove(&sid).unwrap();
            let ghost pre = self.streams@;
            let copy = s.clone_reset_data();
            self.streams.insert(sid, s);
            proof {
                lemma_mv_remove(old(self).streams@, sid);
                lemma_mv_insert(pre, sid, s);
                assert(self@ =~= (CtxModel {
                    streams: c0.streams.insert(
                        sid,
                        StreamModel {
                            data: match c0.streams[sid].data {
                                Some(_) => Some(Seq::<u8>::empty()),
                                None => None,
                            },
                            ..c0.streams[sid]
                        },
                    ),
                    ..c0
                }));
            }
            result.push(copy);
            proof {
                assert(streams_view(result@) =~= streams_view(old(result)@) + seq![
                    c0.streams[sid],
                ]);
            }
        } else if action == 3 {
            self.streams.remove(&sid);
            proof {
                lemma_mv_remove(old(self).streams@, sid);
                assert(self@ =~= (CtxModel { streams: c0.streams.remove(sid), ..c0 }));
                assert(streams_view(result@) =~= streams_view(old(result)@) + Seq::<
                    StreamModel,
                >::empty());
            }
        } else {
            proof {
                assert(streams_view(result@) =~= streams_view(old(result)@) + Seq::<
                    StreamModel,
                >::empty());
            }
        }
    }

    /// Feed freshly arrived bytes through the engine: consume the preface
    /// first if still pending, then parse and dispatch every complete
    /// frame in the buffer, returning the surfaced streams in order.  The
    /// caller classifies its socket read into a `ReadEvent`; end-of-file
    /// and connection-class failures close the connection, would-block
    /// recovers.  With `read_data_stream`, streams still filling their
    /// body are surfaced as drained chunks.
    #[verifier::rlimit(100)]
    pub fn handle_read(&mut self, event: ReadEvent, read_data_stream: bool) -> (r: Result<
        Vec<Http2Stream>,
        ContextError,
    >)
        requires
            old(self).wf(),
        ensures
            final(self).wf(),
            match event {
                ReadEvent::Closed => r == Err::<Vec<Http2Stream>, ContextError>(
                    ContextError::ClientDisconnected,
                ) && final(self)@ == old(self)@,
                ReadEvent::WouldBlock => r == Err::<Vec<Http2Stream>, ContextError>(
                    ContextError::NoDataReady,
                ) && final(self)@ == old(self)@,
                ReadEvent::ConnectionError => r == Err::<Vec<Http2Stream>, ContextError>(
                    ContextError::ClientDisconnected,
                ) && final(self)@ == old(self)@,
                ReadEvent::OtherError => r == Err::<Vec<Http2Stream>, ContextError>(
                    ContextError::IOError,
                ) && final(self)@ == old(self)@,
                ReadEvent::Data(d) => {
                    if d@.len() == 0 {
                        r == Err::<Vec<Http2Stream>, ContextError>(
                            ContextError::ClientDisconnected,
                        ) && final(self)@ == old(self)@
                    } else {
                        let out = spec_absorb(old(self)@, d@, read_data_stream);
                        match out.err {
                            None => r matches Ok(streams) && streams_view(streams@) == out.outs
                                && final(self)@ == out.ctx,
                            Some(e) => r == Err::<Vec<Http2Stream>, ContextError>(e) && (!(e
                                is HeaderDecodeError) ==> final(self)@ == out.ctx),
                        }
                    }
                },
            },
    {
        let mut bytes: Vec<u8> = match event {
            ReadEvent::Data(d) => {
                if d.len() == 0 {
                    return Err(ContextError::ClientDisconnected);
                }
                d
            },
            ReadEvent::Closed => {
                return Err(ContextError::ClientDisconnected);
            },
            ReadEvent::WouldBlock => {
                return Err(ContextError::NoDataReady);
            },
            ReadEvent::ConnectionError => {
                return Err(ContextError::ClientDisconnected);
            },
            ReadEvent::OtherError => {
                return Err(ContextError::IOError);
            },
        };
        let ghost c0 = self@;
        let ghost dv = bytes@;
        self.read_buffer.append(&mut bytes);
        let ghost c1 = CtxModel { read_buffer: c0.read_buffer + dv, ..c0 };
        proof {
            assert(self@ =~= c1);
        }
        if !self.handshaked {
            if self.read_buffer.len() < 24 {
                let empty_result: Vec<Http2Stream> = Vec::new();
                proof {
                    assert(streams_view(empty_result@) =~= Seq::<StreamModel>::empty());
                }
                return Ok(empty_result);
            }
            let head = copy_range(self.read_buffer.as_slice(), 0, 24);
            let pre = preface();
            proof {
                assert(head@ =~= c1.read_buffer.take(24));
            }
            if !bytes_eq(head.as_slice(), pre.as_slice()) {
                return Err(ContextError::NotHttp2);
            }
            drain_prefix(&mut self.read_buffer, 24);
            self.handshaked = true;
            proof {
                assert(self@ =~= (CtxModel {
                    handshaked: true,
                    read_buffer: c1.read_buffer.skip(24),
                    ..c1
                }));
            }
        } else {
            proof {
                assert(self@ =~= c1);
            }
        }
        let ghost c_start = self@;
        let ghost tot = spec_feed(c_start, read_data_stream);
        proof {
            assert(spec_absorb(c0, dv, read_data_stream) == tot);
        }
        let mut result: Vec<Http2Stream> = Vec::new();
        proof {
            assert(streams_view(result@) =~= Seq::<StreamModel>::empty());
        }
        loop
            invariant
                self.wf(),
                event matches ReadEvent::Data(d) && d@ == dv,
                dv.len() > 0,
                tot == spec_feed(c_start, read_data_stream),
                tot == spec_absorb(c0, dv, read_data_stream),
                c0 == old(self)@,
                ({
                    let cur = spec_feed(self@, read_data_stream);
                    &&& tot.ctx == cur.ctx
                    &&& tot.outs == streams_view(result@) + cur.outs
                    &&& tot.err == cur.err
                }),
            ensures
                self.wf(),
                c0 == old(self)@,
                tot == spec_absorb(c0, dv, read_data_stream),
                spec_feed(self@, read_data_stream) == (FeedOut {
                    ctx: self@,
                    outs: Seq::empty(),
                    err: None,
                }),
                ({
                    let cur = spec_feed(self@, read_data_stream);
                    &&& tot.ctx == cur.ctx
                    &&& tot.outs == streams_view(result@) + cur.outs
                    &&& tot.err == cur.err
                }),
            decreases self.read_buffer@.len(),
        {
            let ghost c_pre = self@;
            if self.read_buffer.len() == 0 {
                proof {
                    lemma_feed_done(c_pre, read_data_stream);
                }
                break ;
            }
            match try_parse(self.read_buffer.as_slice()) {
                Err(FrameParseError::InsufficientLength) => {
                    proof {
                        lemma_feed_done(c_pre, read_data_stream);
                    }
                    break ;
                },
                Err(FrameParseError::InsufficientPayloadLength) => {
                    proof {
                        lemma_feed_done(c_pre, read_data_stream);
                    }
                    break ;
                },
                Err(FrameParseError::PayloadParseError) => {
                    proof {
                        lemma_feed_unfold(c_pre, read_data_stream);
                        assert(streams_view(result@) + Seq::<StreamModel>::empty()
                            =~= streams_view(result@));
                    }
                    return Err(ContextError::InvalidStream);
                },
                Ok((frame, n)) => {
                    proof {
                        lemma_parse_wf(c_pre.read_buffer);
                        lemma_feed_unfold(c_pre, read_data_stream);
                    }
                    drain_prefix(&mut self.read_buffer, n);
                    let ghost cs1 = CtxModel {
                        read_buffer: c_pre.read_buffer.skip(n as int),
                        ..c_pre
                    };
                    proof {
                        assert(self@ =~= cs1);
                    }
                    let ghost st = spec_step(cs1, frame@);
                    proof {
                        lemma_step_read_buffer(cs1, frame@);
                    }
                    match self.handle_frame(&frame) {
                        Err(e) => {
                            proof {
                                assert(st.res == Err::<u32, ContextError>(e));
                                assert(spec_feed(c_pre, read_data_stream) == (FeedOut {
                                    ctx: st.ctx,
                                    outs: Seq::empty(),
                                    err: Some(e),
                                }));
                                assert(tot.err == Some(e));
                                assert(streams_view(result@) + Seq::<StreamModel>::empty()
                                    =~= streams_view(result@));
                            }
                            return Err(e);
                        },
                        Ok(sid) => {
                            let ghost su = spec_surface(st.ctx, sid, read_data_stream);
                            let ghost outs_pre = streams_view(result@);
                            self.surface(sid, read_data_stream, &mut result);
                            proof {
                                assert(self@.read_buffer == cs1.read_buffer);
                                let rest = spec_feed(self@, read_data_stream);
                                assert(streams_view(result@) == outs_pre + su.1);
                                assert(outs_pre + (su.1 + rest.outs) =~= streams_view(result@)
                                    + rest.outs);
                            }
                        },
                    }
                },
            }
        }
        proof {
            assert(streams_view(result@) + Seq::<StreamModel>::empty() =~= streams_view(
                result@,
            ));
        }
        Ok(result)
    }
}


/// What `handle_read` yields and what the context becomes, at the model
/// level, for each kind of read event.
pub open spec fn spec_read_result(c: CtxModel, ev: ReadEvent, partial: bool) -> (
    CtxModel,
    Result<Seq<StreamModel>, ContextError>,
) {
    match ev {
        ReadEvent::Data(d) => {
            if d@.len() == 0 {
                (c, Err(ContextError::ClientDisconnected))
            } else {
                let out = spec_absorb(c, d@, partial);
                match out.err {
                    None => (out.ctx, Ok(out.outs)),
                    Some(e) => (out.ctx, Err(e)),
                }
            }
        },
        ReadEvent::Closed => (c, Err(ContextError::ClientDisconnected)),
        ReadEvent::WouldBlock => (c, Err(ContextError::NoDataReady)),
        ReadEvent::ConnectionError => (c, Err(ContextError::ClientDisconnected)),
        ReadEvent::OtherError => (c, Err(ContextError::IOError)),
    }
}


/// The frame dispatcher only fails with connection-fatal errors; the
/// recoverable kinds never come from it.
proof fn lemma_step_err_kinds(c: CtxModel, f: FrameModel)
    ensures
        spec_step(c, f).res != Err::<u32, ContextError>(ContextError::NoDataReady),
        spec_step(c, f).res != Err::<u32, ContextError>(ContextError::IncompleteStream),
        spec_step(c, f).res != Err::<u32, ContextError>(ContextError::IOError),
        spec_step(c, f).res != Err::<u32, ContextError>(ContextError::NotHttp2),
{
    reveal(spec_step);
    reveal(spec_step_payload);
    reveal(spec_step_headers);
}

/// Feeding buffered frames recovers would-block conditions internally:
/// the errors it surfaces are connection-fatal.
pub proof fn lemma_feed_err_kinds(c: CtxModel, partial: bool)
    ensures
        spec_feed(c, partial).err != Some(ContextError::NoDataReady),
        spec_feed(c, partial).err != Some(ContextError::IncompleteStream),
        spec_feed(c, partial).err != Some(ContextError::IOError),
        spec_feed(c, partial).err != Some(ContextError::NotHttp2),
    decreases c.read_buffer.len(),
{
    reveal(spec_parse);
    if c.read_buffer.len() >= 9 && c.read_buffer.len() >= frame_size(c.read_buffer) {
        lemma_parse_wf(c.read_buffer);
        match spec_parse(c.read_buffer) {
            Err(_) => {},
            Ok((fm, n)) => {
                let c1 = CtxModel { read_buffer: c.read_buffer.skip(n), ..c };
                lemma_step_err_kinds(c1, fm);
                let st = spec_step(c1, fm);
                match st.res {
                    Err(_) => {},
                    Ok(sid) => {
                        lemma_step_read_buffer(c1, fm);
                        let su = spec_surface(st.ctx, sid, partial);
                        lemma_feed_err_kinds(su.0, partial);
                    },
                }
            },
        }
    }
}

/// Absorbing read bytes surfaces only connection-fatal errors; a
/// would-block condition is reported before any bytes exist to absorb.
pub proof fn lemma_absorb_err_kinds(c: CtxModel, bytes: Seq<u8>, partial: bool)
    ensures
        spec_absorb(c, bytes, partial).err != Some(ContextError::NoDataReady),
        spec_absorb(c, bytes, partial).err != Some(ContextError::IncompleteStream),
        spec_absorb(c, bytes, partial).err != Some(ContextError::IOError),
{
    let c1 = CtxModel { read_buffer: c.read_buffer + bytes, ..c };
    if !c.handshaked {
        if c1.read_buffer.len() >= 24 && c1.read_buffer.take(24) == spec_preface() {
            lemma_feed_err_kinds(
                CtxModel { handshaked: true, read_buffer: c1.read_buffer.skip(24), ..c1 },
                partial,
            );
        }
    } else {
        lemma_feed_err_kinds(c1, partial);
    }
}

} // verus!
