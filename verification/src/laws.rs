//! Connection-level laws: properties of the engine's transition model that
//! hold for every input, each proved against the spec functions that the
//! executable functions are verified to implement.

use vstd::prelude::*;

use crate::context::CtxModel;
use crate::context::ContextError;
use crate::context::FeedOut;
use crate::context::spec_absorb;
use crate::context::spec_feed;
use crate::context::spec_preface;
use crate::context::spec_step;
use crate::context::spec_step_payload;
use crate::context::spec_block_gate;
use crate::context::spec_step_headers;
use crate::context::spec_surface;
use crate::context::spec_apply_settings;
use crate::context::spec_apply_one_setting;
use crate::context::settings_of;
use crate::context::SettingsState;
use crate::context::addressed_stream;
use crate::context::fresh_stream;
use crate::context::lemma_absorb_err_kinds;
use crate::context::lemma_feed_err_kinds;
use crate::frame::FrameModel;
use crate::frame::frame_size;
use crate::frame::spec_parse;
use crate::context::lemma_parse_wf;
use crate::context::lemma_step_read_buffer;
use crate::context::lemma_feed_done;
use crate::context::lemma_feed_unfold;
use crate::frame::PayloadModel;
use crate::frame::spec_has_flag;
use crate::frame::FLAG_END_HEADERS;
use crate::frame::FLAG_END_STREAM;
use crate::frame::SETTINGS_HEADER_TABLE_SIZE;
use crate::hpack::HpackModel;
use crate::hpack::spec_decode;
use crate::hpack::spec_evict;
use crate::hpack::lemma_decode_concat;
use crate::hpack::DecodeOut;
use crate::hpack::HpackError;
use crate::stream::StreamModel;
use crate::stream::StreamState;

verus! {

/// Law: before the handshake, fewer than 24 buffered bytes are left
/// untouched with no streams and no error; once 24 bytes are there, the
/// connection fails with `NotHttp2` exactly when they are not the preface.
pub proof fn lemma_preface_gating(c: CtxModel, bytes: Seq<u8>, partial: bool)
    requires
        !c.handshaked,
    ensures
        ({
            let buf = c.read_buffer + bytes;
            let out = spec_absorb(c, bytes, partial);
            &&& buf.len() < 24 ==> out.err is None && out.outs == Seq::<StreamModel>::empty()
                && out.ctx == (CtxModel { read_buffer: buf, ..c })
            &&& (buf.len() >= 24 && buf.take(24) != spec_preface()) ==> out.err == Some(
                ContextError::NotHttp2,
            )
            &&& (buf.len() >= 24 && buf.take(24) == spec_preface()) ==> out.err != Some(
                ContextError::NotHttp2,
            )
        }),
{
    let buf = c.read_buffer + bytes;
    if buf.len() >= 24 && buf.take(24) == spec_preface() {
        lemma_absorb_err_kinds(c, bytes, partial);
        let c1 = CtxModel { read_buffer: buf, ..c };
        lemma_feed_err_kinds(
            CtxModel { handshaked: true, read_buffer: buf.skip(24), ..c1 },
            partial,
        );
    }
}

/// Dispatching a HEADERS frame is exactly a header-block step against the
/// connection's current decoder state.
proof fn lemma_step_headers_def(c: CtxModel, f: FrameModel)
    requires
        f.payload is Headers,
        !spec_block_gate(c, f),
    ensures
        spec_step(c, f) == spec_step_headers(
            c,
            f.flags,
            f.payload->Headers_0,
            f.stream_id,
            addressed_stream(c, f.stream_id),
            true,
        ),
{
    reveal(spec_step);
    reveal(spec_step_payload);
}

/// The decoder state after the HEADER_TABLE_SIZE pairs of a SETTINGS
/// payload are applied in order (other identifiers leave it alone).
pub open spec fn spec_hpack_after_settings(h: HpackModel, list: Seq<(u16, u32)>) -> HpackModel
    decreases list.len(),
{
    if list.len() == 0 {
        h
    } else {
        let h1 = if list[0].0 == SETTINGS_HEADER_TABLE_SIZE {
            HpackModel { table: spec_evict(h.table, list[0].1 as int), max: list[0].1 as int }
        } else {
            h
        };
        spec_hpack_after_settings(h1, list.skip(1))
    }
}

/// The settings fold's decoder component is exactly the in-order
/// application of its HEADER_TABLE_SIZE pairs.
proof fn lemma_apply_settings_hpack(
    st: SettingsState,
    s: StreamModel,
    list: Seq<(u16, u32)>,
    sid: u32,
)
    ensures
        spec_apply_settings(st, s, list, sid).0.hpack == spec_hpack_after_settings(
            st.hpack,
            list,
        ),
    decreases list.len(),
{
    if list.len() > 0 {
        let p = spec_apply_one_setting(st, s, list[0].0, list[0].1, sid);
        lemma_apply_settings_hpack(p.0, p.1, list.skip(1), sid);
    }
}

/// Law: a SETTINGS frame's pairs apply in order, so a HEADER_TABLE_SIZE
/// value resizes the decoder before dispatch returns, and a header block
/// dispatched right after the frame is decoded against the resized table.
pub proof fn lemma_settings_application_ordering(
    c: CtxModel,
    list: Seq<(u16, u32)>,
    hflags: u8,
    frag: Seq<u8>,
    hsid: u32,
)
    requires
        !(addressed_stream(c, hsid).state == StreamState::FillingHeaders && addressed_stream(
            c,
            hsid,
        ).headers_open),
    ensures
        ({
            let sf = FrameModel { stream_id: 0, flags: 0, payload: PayloadModel::Settings(list) };
            let c2 = spec_step(c, sf).ctx;
            &&& spec_step(c, sf).res == Ok::<u32, ContextError>(0)
            &&& c2.hpack == spec_hpack_after_settings(c.hpack, list)
            &&& spec_step(
                c2,
                FrameModel { stream_id: hsid, flags: hflags, payload: PayloadModel::Headers(frag) },
            ) == spec_step_headers(c2, hflags, frag, hsid, addressed_stream(c2, hsid), true)
        }),
{
    let sf = FrameModel { stream_id: 0, flags: 0, payload: PayloadModel::Settings(list) };
    let c2 = spec_step(c, sf).ctx;
    assert(spec_step(c, sf).res == Ok::<u32, ContextError>(0) && c2.hpack
        == spec_hpack_after_settings(c.hpack, list) && c2.streams == c.streams) by {
        reveal(spec_step);
        reveal(spec_step_payload);
        lemma_apply_settings_hpack(settings_of(c), addressed_stream(c, 0), list, 0);
    }
    assert(addressed_stream(c2, hsid) == addressed_stream(c, hsid));
    lemma_step_headers_def(
        c2,
        FrameModel { stream_id: hsid, flags: hflags, payload: PayloadModel::Headers(frag) },
    );
}

/// Law: with partial delivery off, every stream the read pass surfaces has
/// reached `Completed`.
pub proof fn lemma_stream_lifecycle_surfaced(c: CtxModel)
    ensures
        forall|i: int|
            0 <= i < spec_feed(c, false).outs.len() ==> (#[trigger] spec_feed(
                c,
                false,
            ).outs[i]).state == StreamState::Completed,
    decreases c.read_buffer.len(),
{
    if c.read_buffer.len() >= 9 && c.read_buffer.len() >= frame_size(c.read_buffer) {
        lemma_parse_wf(c.read_buffer);
        match spec_parse(c.read_buffer) {
            Err(_) => {},
            Ok((fm, n)) => {
                let c1 = CtxModel { read_buffer: c.read_buffer.skip(n), ..c };
                let st = spec_step(c1, fm);
                match st.res {
                    Err(_) => {},
                    Ok(sid) => {
                        lemma_step_read_buffer(c1, fm);
                        let su = spec_surface(st.ctx, sid, false);
                        lemma_stream_lifecycle_surfaced(su.0);
                        let rest = spec_feed(su.0, false);
                        assert forall|i: int|
                            0 <= i < (su.1 + rest.outs).len() implies (#[trigger] (su.1
                            + rest.outs)[i]).state == StreamState::Completed by {
                            if i < su.1.len() {
                                assert(su.1[i].state == StreamState::Completed);
                            } else {
                                assert((su.1 + rest.outs)[i] == rest.outs[i - su.1.len()]);
                            }
                        }
                    },
                }
            },
        }
    }
}

/// Law: a stream that receives RST_STREAM is never surfaced and is absent
/// from the map after the frame is surfaced.
pub proof fn lemma_rst_stream_dropped(c: CtxModel, f: FrameModel, partial: bool)
    requires
        f.payload is RstStream,
        f.stream_id != 0,
        !spec_block_gate(c, f),
    ensures
        ({
            let st = spec_step(c, f);
            let su = spec_surface(st.ctx, f.stream_id, partial);
            &&& st.res == Ok::<u32, ContextError>(f.stream_id)
            &&& su.1 == Seq::<StreamModel>::empty()
            &&& !su.0.streams.contains_key(f.stream_id)
        }),
{
    reveal(spec_step);
    reveal(spec_step_payload);
    let st = spec_step(c, f);
    let su = spec_surface(st.ctx, f.stream_id, partial);
    assert(st.ctx.streams[f.stream_id].state == StreamState::Ended);
}

/// Law: with a nonzero advertised cap, a header block is rejected with
/// `MaxHeaderLenExceeded` exactly when the accumulated decoded size would
/// pass the cap; reaching the cap exactly is allowed.
pub proof fn lemma_header_size_cap(c: CtxModel, f: FrameModel)
    requires
        f.payload is Headers,
        !spec_block_gate(c, f),
        c.max_headers_len != 0,
        spec_decode(c.hpack.table, c.hpack.max, f.payload->Headers_0, 0) is Ok,
    ensures
        ({
            let out = spec_decode(c.hpack.table, c.hpack.max, f.payload->Headers_0, 0)->Ok_0;
            let s0 = addressed_stream(c, f.stream_id);
            spec_step(c, f).res == Err::<u32, ContextError>(ContextError::MaxHeaderLenExceeded)
                <==> s0.headers_len + out.size > c.max_headers_len
        }),
{
    reveal(spec_step);
    reveal(spec_step_payload);
    reveal(spec_step_headers);
}

/// Law: a PRIORITY frame surfaces nothing and leaves the decoder, the
/// settings and every existing stream untouched; at most a fresh idle
/// entry for its stream id appears.
pub proof fn lemma_priority_transparent(c: CtxModel, f: FrameModel)
    requires
        f.payload is Priority,
        !spec_block_gate(c, f),
        c.streams.contains_key(f.stream_id) ==> c.streams[f.stream_id].state
            != StreamState::Completed && c.streams[f.stream_id].state != StreamState::Ended
            && c.streams[f.stream_id].state != StreamState::FillingData,
    ensures
        ({
            let st = spec_step(c, f);
            let su = spec_surface(st.ctx, f.stream_id, true);
            &&& st.res == Ok::<u32, ContextError>(f.stream_id)
            &&& st.ctx.hpack == c.hpack
            &&& st.ctx.write_buffer == c.write_buffer
            &&& settings_of(st.ctx) == settings_of(c)
            &&& forall|k: u32|
                c.streams.contains_key(k) ==> #[trigger] st.ctx.streams[k] == c.streams[k]
            &&& su.1 == Seq::<StreamModel>::empty()
            &&& forall|k: u32|
                c.streams.contains_key(k) ==> #[trigger] su.0.streams[k] == c.streams[k]
        }),
{
    reveal(spec_step);
    reveal(spec_step_payload);
    let st = spec_step(c, f);
    let sid = f.stream_id;
    if sid != 0 {
        if c.streams.contains_key(sid) {
            assert(st.ctx.streams =~= c.streams.insert(sid, c.streams[sid]));
        }
    }
}

/// Law: the engine's header decoding depends only on the shared decoder
/// state, the cap, and the block itself: two connections whose decoder
/// state and cap agree, and whose addressed stream agrees, treat a header
/// block frame identically.
pub proof fn lemma_hpack_coherence(c1: CtxModel, c2: CtxModel, f: FrameModel)
    requires
        f.payload is Headers || f.payload is Continuation,
        c1.hpack == c2.hpack,
        c1.max_headers_len == c2.max_headers_len,
        addressed_stream(c1, f.stream_id) == addressed_stream(c2, f.stream_id),
    ensures
        spec_step(c1, f).res == spec_step(c2, f).res,
        spec_step(c1, f).ctx.hpack == spec_step(c2, f).ctx.hpack,
        f.stream_id != 0 && spec_step(c1, f).res is Ok ==> spec_step(c1, f).ctx.streams[
            f.stream_id
        ] == spec_step(c2, f).ctx.streams[f.stream_id],
{
    reveal(spec_step);
    reveal(spec_step_payload);
    reveal(spec_step_headers);
}


/// A frame transition does not look at the read buffer: replacing it
/// changes nothing but that field of the outcome.
#[verifier::rlimit(100)]
proof fn lemma_step_rb_irrelevant(c: CtxModel, f: FrameModel, rb: Seq<u8>)
    ensures
        ({
            let a = spec_step(CtxModel { read_buffer: rb, ..c }, f);
            let b = spec_step(c, f);
            a.res == b.res && a.ctx == (CtxModel { read_buffer: rb, ..b.ctx })
        }),
{
    reveal(spec_step);
    reveal(spec_step_payload);
    reveal(spec_step_headers);
    let cw = CtxModel { read_buffer: rb, ..c };
    let a = spec_step(cw, f);
    let b = spec_step(c, f);
    assert(addressed_stream(cw, f.stream_id) == addressed_stream(c, f.stream_id));
    assert(settings_of(cw) == settings_of(c));
    match f.payload {
        PayloadModel::Settings(list) => {
            assert(a.ctx =~= (CtxModel { read_buffer: rb, ..b.ctx }));
        },
        PayloadModel::Data(d) => {
            assert(a.ctx =~= (CtxModel { read_buffer: rb, ..b.ctx }));
        },
        PayloadModel::Headers(frag) => {
            assert(a.ctx =~= (CtxModel { read_buffer: rb, ..b.ctx }));
        },
        PayloadModel::Continuation(frag) => {
            assert(a.ctx =~= (CtxModel { read_buffer: rb, ..b.ctx }));
        },
        PayloadModel::Priority => {
            assert(a.ctx =~= (CtxModel { read_buffer: rb, ..b.ctx }));
        },
        PayloadModel::RstStream(code) => {
            assert(a.ctx =~= (CtxModel { read_buffer: rb, ..b.ctx }));
        },
        PayloadModel::PushPromise => {
            assert(a.ctx =~= (CtxModel { read_buffer: rb, ..b.ctx }));
        },
        PayloadModel::Ping(op) => {
            assert(a.ctx =~= (CtxModel { read_buffer: rb, ..b.ctx }));
        },
        PayloadModel::GoAway => {
            assert(a.ctx =~= (CtxModel { read_buffer: rb, ..b.ctx }));
        },
        PayloadModel::WindowUpdate(inc) => {
            assert(a.ctx =~= (CtxModel { read_buffer: rb, ..b.ctx }));
        },
    }
}

/// Surfacing does not look at the read buffer either.
proof fn lemma_surface_rb_irrelevant(c: CtxModel, sid: u32, partial: bool, rb: Seq<u8>)
    ensures
        ({
            let a = spec_surface(CtxModel { read_buffer: rb, ..c }, sid, partial);
            let b = spec_surface(c, sid, partial);
            a.1 == b.1 && a.0 == (CtxModel { read_buffer: rb, ..b.0 })
        }),
{
    let a = spec_surface(CtxModel { read_buffer: rb, ..c }, sid, partial);
    let b = spec_surface(c, sid, partial);
    assert(a.0 =~= (CtxModel { read_buffer: rb, ..b.0 }));
}

/// Feeding buffered frames never flips the handshake flag.
proof fn lemma_feed_handshaked(c: CtxModel, partial: bool)
    ensures
        spec_feed(c, partial).ctx.handshaked == c.handshaked,
    decreases c.read_buffer.len(),
{
    if c.read_buffer.len() >= 9 && c.read_buffer.len() >= frame_size(c.read_buffer) {
        lemma_parse_wf(c.read_buffer);
        match spec_parse(c.read_buffer) {
            Err(_) => {},
            Ok((fm, n)) => {
                let c1 = CtxModel { read_buffer: c.read_buffer.skip(n), ..c };
                lemma_step_read_buffer(c1, fm);
                let st = spec_step(c1, fm);
                match st.res {
                    Err(_) => {},
                    Ok(sid) => {
                        lemma_feed_handshaked(spec_surface(st.ctx, sid, partial).0, partial);
                    },
                }
            },
        }
    }
}

/// Appending bytes behind a cleanly parsed run of frames does not change
/// how that run is parsed and dispatched: feeding the extended buffer
/// equals feeding the first chunk and then the leftovers plus the tail.
#[verifier::rlimit(100)]
pub proof fn lemma_feed_extend(c: CtxModel, extra: Seq<u8>, partial: bool)
    requires
        spec_feed(c, partial).err is None,
    ensures
        ({
            let f1 = spec_feed(c, partial);
            let c2 = CtxModel { read_buffer: f1.ctx.read_buffer + extra, ..f1.ctx };
            let whole = spec_feed(CtxModel { read_buffer: c.read_buffer + extra, ..c }, partial);
            let f2 = spec_feed(c2, partial);
            &&& whole.ctx == f2.ctx
            &&& whole.outs == f1.outs + f2.outs
            &&& whole.err == f2.err
        }),
    decreases c.read_buffer.len(),
{
    reveal(spec_parse);
    let f1 = spec_feed(c, partial);
    let cw = CtxModel { read_buffer: c.read_buffer + extra, ..c };
    if c.read_buffer.len() == 0 || c.read_buffer.len() < 9 || c.read_buffer.len() < frame_size(
        c.read_buffer,
    ) {
        lemma_feed_done(c, partial);
        let c2 = CtxModel { read_buffer: f1.ctx.read_buffer + extra, ..f1.ctx };
        assert(c2 =~= cw);
        let f2 = spec_feed(c2, partial);
        assert(f1.outs + f2.outs =~= f2.outs);
        assert(spec_feed(cw, partial) == f2);
    } else {
        lemma_parse_wf(c.read_buffer);
        match spec_parse(c.read_buffer) {
            Err(_) => {
                lemma_feed_unfold(c, partial);
                assert(false);
            },
            Ok((fm, n)) => {
                crate::frame::lemma_parse_prefix_stable(c.read_buffer, extra);
                lemma_feed_unfold(c, partial);
                lemma_feed_unfold(cw, partial);
                let c1 = CtxModel { read_buffer: c.read_buffer.skip(n), ..c };
                let c1w = CtxModel { read_buffer: cw.read_buffer.skip(n), ..cw };
                assert(cw.read_buffer.skip(n) =~= c.read_buffer.skip(n) + extra);
                assert(c1w =~= (CtxModel { read_buffer: c1.read_buffer + extra, ..c1 }));
                lemma_step_rb_irrelevant(c1, fm, c1.read_buffer + extra);
                let st = spec_step(c1, fm);
                let stw = spec_step(c1w, fm);
                match st.res {
                    Err(e) => {
                        assert(false);
                    },
                    Ok(sid) => {
                        lemma_step_read_buffer(c1, fm);
                        let su = spec_surface(st.ctx, sid, partial);
                        lemma_surface_rb_irrelevant(
                            st.ctx,
                            sid,
                            partial,
                            c1.read_buffer + extra,
                        );
                        let suw = spec_surface(stw.ctx, sid, partial);
                        assert(stw.ctx == (CtxModel {
                            read_buffer: c1.read_buffer + extra,
                            ..st.ctx
                        }));
                        assert(suw.0 == (CtxModel {
                            read_buffer: c1.read_buffer + extra,
                            ..su.0
                        }));
                        assert(su.0.read_buffer == c1.read_buffer);
                        assert(suw.0 =~= (CtxModel {
                            read_buffer: su.0.read_buffer + extra,
                            ..su.0
                        }));
                        lemma_feed_extend(su.0, extra, partial);
                        let rest = spec_feed(su.0, partial);
                        let c2i = CtxModel {
                            read_buffer: rest.ctx.read_buffer + extra,
                            ..rest.ctx
                        };
                        let restw = spec_feed(suw.0, partial);
                        let f2 = spec_feed(c2i, partial);
                        assert(restw.ctx == f2.ctx && restw.outs == rest.outs + f2.outs
                            && restw.err == f2.err);
                        let c2 = CtxModel { read_buffer: f1.ctx.read_buffer + extra, ..f1.ctx };
                        assert(f1.ctx == rest.ctx);
                        assert(c2 =~= c2i);
                        assert(su.1 + (rest.outs + f2.outs) =~= (su.1 + rest.outs) + f2.outs);
                        assert(spec_feed(cw, partial).outs == su.1 + restw.outs);
                        assert(f1.outs == su.1 + rest.outs);
                    },
                }
            },
        }
    }
}

/// Law: feeding a byte stream in two chunks surfaces the same streams,
/// in the same order, and leaves the connection in the same state as
/// feeding it in one piece, as long as the first chunk did not already
/// fail the connection.
pub proof fn lemma_partial_read_idempotence(c: CtxModel, b1: Seq<u8>, b2: Seq<u8>, partial: bool)
    requires
        spec_absorb(c, b1, partial).err is None,
    ensures
        ({
            let once = spec_absorb(c, b1 + b2, partial);
            let first = spec_absorb(c, b1, partial);
            let second = spec_absorb(first.ctx, b2, partial);
            &&& once.ctx == second.ctx
            &&& once.outs == first.outs + second.outs
            &&& once.err == second.err
        }),
{
    let once = spec_absorb(c, b1 + b2, partial);
    let first = spec_absorb(c, b1, partial);
    let buf1 = c.read_buffer + b1;
    let bufa = c.read_buffer + (b1 + b2);
    assert(bufa =~= buf1 + b2);
    if c.handshaked {
        let ca = CtxModel { read_buffer: buf1, ..c };
        lemma_feed_handshaked(ca, partial);
        lemma_feed_extend(ca, b2, partial);
        let second = spec_absorb(first.ctx, b2, partial);
        assert(first.ctx.handshaked);
        assert(CtxModel { read_buffer: first.ctx.read_buffer + b2, ..first.ctx } =~= (CtxModel {
            read_buffer: first.ctx.read_buffer + b2,
            ..first.ctx
        }));
        assert(spec_feed(CtxModel { read_buffer: bufa, ..c }, partial) == spec_feed(
            CtxModel { read_buffer: ca.read_buffer + b2, ..ca },
            partial,
        ));
        assert(first.outs + second.outs =~= first.outs + second.outs);
    } else {
        if buf1.len() < 24 {
            let fc = CtxModel { read_buffer: buf1, ..c };
            assert(first == (FeedOut { ctx: fc, outs: Seq::<StreamModel>::empty(), err: None::<
                ContextError,
            > }));
            let second = spec_absorb(first.ctx, b2, partial);
            assert(fc.read_buffer + b2 =~= bufa);
            assert(spec_absorb(fc, b2, partial) == spec_absorb(
                CtxModel { read_buffer: c.read_buffer, ..fc },
                buf1.skip(c.read_buffer.len() as int) + b2,
                partial,
            )) by {
                assert(fc.read_buffer + b2 =~= c.read_buffer + (buf1.skip(
                    c.read_buffer.len() as int,
                ) + b2));
            }
            assert(once.outs =~= first.outs + second.outs);
        } else if buf1.take(24) != spec_preface() {
            assert(first.err == Some(ContextError::NotHttp2));
        } else {
            assert(bufa.take(24) =~= buf1.take(24));
            let x = CtxModel {
                handshaked: true,
                read_buffer: buf1.skip(24),
                ..CtxModel { read_buffer: buf1, ..c }
            };
            assert(bufa.skip(24) =~= buf1.skip(24) + b2);
            lemma_feed_handshaked(x, partial);
            lemma_feed_extend(x, b2, partial);
            let second = spec_absorb(first.ctx, b2, partial);
            assert(first.ctx.handshaked);
            assert(once == spec_feed(
                CtxModel { read_buffer: x.read_buffer + b2, ..x },
                partial,
            )) by {
                assert(CtxModel {
                    handshaked: true,
                    read_buffer: bufa.skip(24),
                    ..CtxModel { read_buffer: bufa, ..c }
                } =~= (CtxModel { read_buffer: x.read_buffer + b2, ..x }));
            }
        }
    }
}


/// Dispatching a CONTINUATION frame is exactly a header-block step against
/// the connection's current decoder state.
proof fn lemma_step_continuation_def(c: CtxModel, f: FrameModel)
    requires
        f.payload is Continuation,
    ensures
        spec_step(c, f) == spec_step_headers(
            c,
            f.flags,
            f.payload->Continuation_0,
            f.stream_id,
            addressed_stream(c, f.stream_id),
            false,
        ),
{
    reveal(spec_step);
    reveal(spec_step_payload);
}

/// Law: a header block split across HEADERS (END_HEADERS clear) and a
/// final CONTINUATION (END_HEADERS set) yields exactly the HPACK decoding
/// of the concatenated fragments: the per-fragment decodes, against the
/// threaded table, concatenate to it, and the stream completes.
#[verifier::rlimit(100)]
pub proof fn lemma_headers_continuation(
    c: CtxModel,
    sid: u32,
    frag1: Seq<u8>,
    frag2: Seq<u8>,
    hflags: u8,
)
    requires
        sid != 0,
        c.max_headers_len == 0,
        !c.streams.contains_key(sid),
        spec_has_flag(hflags, FLAG_END_STREAM),
        !spec_has_flag(hflags, FLAG_END_HEADERS),
        spec_decode(c.hpack.table, c.hpack.max, frag1, 0) is Ok,
        ({
            let o1 = spec_decode(c.hpack.table, c.hpack.max, frag1, 0)->Ok_0;
            spec_decode(o1.table, o1.max, frag2, 0) is Ok
        }),
    ensures
        ({
            let hf = FrameModel { stream_id: sid, flags: hflags, payload: PayloadModel::Headers(
                frag1,
            ) };
            let cf = FrameModel { stream_id: sid, flags: FLAG_END_HEADERS,
                payload: PayloadModel::Continuation(frag2) };
            let o1 = spec_decode(c.hpack.table, c.hpack.max, frag1, 0)->Ok_0;
            let o2 = spec_decode(o1.table, o1.max, frag2, 0)->Ok_0;
            let c1 = spec_step(c, hf).ctx;
            let c2 = spec_step(c1, cf).ctx;
            &&& spec_step(c, hf).res == Ok::<u32, ContextError>(sid)
            &&& spec_step(c1, cf).res == Ok::<u32, ContextError>(sid)
            &&& c2.streams[sid].headers == Some(o1.headers + o2.headers)
            &&& c2.streams[sid].state == StreamState::Completed
            &&& spec_decode(c.hpack.table, c.hpack.max, frag1 + frag2, 0) matches Ok(o12)
                && c2.streams[sid].headers == Some(o12.headers)
        }),
{
    lemma_decode_concat(c.hpack.table, c.hpack.max, frag1, frag2, 0);
    reveal(spec_step_headers);
    let hf = FrameModel { stream_id: sid, flags: hflags, payload: PayloadModel::Headers(frag1) };
    let cf = FrameModel { stream_id: sid, flags: FLAG_END_HEADERS,
        payload: PayloadModel::Continuation(frag2) };
    let o1 = spec_decode(c.hpack.table, c.hpack.max, frag1, 0)->Ok_0;
    let o2 = spec_decode(o1.table, o1.max, frag2, 0)->Ok_0;
    assert(addressed_stream(c, sid) == fresh_stream(sid));
    lemma_step_headers_def(c, hf);
    let st1 = spec_step(c, hf);
    let c1 = st1.ctx;
    assert(spec_has_flag(FLAG_END_HEADERS, FLAG_END_HEADERS)) by (bit_vector);
    assert(c1.streams[sid].headers == Some(o1.headers));
    assert(c1.streams[sid].state == StreamState::FillingHeaders);
    assert(c1.streams[sid].end_stream);
    assert(c1.hpack == (HpackModel { table: o1.table, max: o1.max }));
    assert(c1.max_headers_len == 0);
    lemma_step_continuation_def(c1, cf);
    let st2 = spec_step(c1, cf);
    assert(addressed_stream(c1, sid) == c1.streams[sid]);
    assert(st2.ctx.streams[sid].headers == Some(o1.headers + o2.headers));
}


/// Law: while a stream's header block is open (END_HEADERS pending), any
/// frame for that stream other than CONTINUATION is a connection error,
/// and the connection state is left as it was.
pub proof fn lemma_open_block_only_continuation(c: CtxModel, f: FrameModel)
    requires
        f.stream_id != 0,
        c.streams.contains_key(f.stream_id),
        c.streams[f.stream_id].state == StreamState::FillingHeaders,
        c.streams[f.stream_id].headers_open,
        !(f.payload is Continuation),
    ensures
        spec_step(c, f).res == Err::<u32, ContextError>(ContextError::InvalidStream),
        spec_step(c, f).ctx == c,
{
    reveal(spec_step);
    assert(c.streams.insert(f.stream_id, c.streams[f.stream_id]) =~= c.streams);
    assert(spec_step(c, f).ctx =~= c);
}


/// The bytes of a chunk sequence, in delivery order.
pub open spec fn concat_chunks(chunks: Seq<Seq<u8>>) -> Seq<u8>
    decreases chunks.len(),
{
    if chunks.len() == 0 {
        Seq::empty()
    } else {
        chunks[0] + concat_chunks(chunks.skip(1))
    }
}

/// Absorb a chunk sequence one read at a time, accumulating the surfaced
/// streams in order and stopping at the first error.
pub open spec fn spec_absorb_chunks(c: CtxModel, chunks: Seq<Seq<u8>>, partial: bool) -> FeedOut
    decreases chunks.len(),
{
    if chunks.len() == 0 {
        FeedOut { ctx: c, outs: Seq::empty(), err: None }
    } else {
        let first = spec_absorb(c, chunks[0], partial);
        match first.err {
            Some(e) => first,
            None => {
                let rest = spec_absorb_chunks(first.ctx, chunks.skip(1), partial);
                FeedOut { ctx: rest.ctx, outs: first.outs + rest.outs, err: rest.err }
            },
        }
    }
}

/// Law (arbitrary chunking): delivering a byte stream in any number of
/// reads surfaces the same streams, in the same order, and leaves the
/// connection in the same state as delivering it in one read — including
/// an error on the final read — provided no earlier read already failed
/// the connection.
pub proof fn lemma_chunked_read_idempotence(c: CtxModel, chunks: Seq<Seq<u8>>, partial: bool)
    requires
        chunks.len() > 0,
        spec_absorb_chunks(c, chunks.drop_last(), partial).err is None,
    ensures
        spec_absorb_chunks(c, chunks, partial) == spec_absorb(c, concat_chunks(chunks), partial),
    decreases chunks.len(),
{
    let first = spec_absorb(c, chunks[0], partial);
    if chunks.len() == 1 {
        assert(concat_chunks(chunks.skip(1)) =~= Seq::<u8>::empty());
        assert(chunks[0] + Seq::<u8>::empty() =~= chunks[0]);
        assert(concat_chunks(chunks) == chunks[0]);
        match first.err {
            Some(e) => {
                assert(spec_absorb_chunks(c, chunks, partial) =~= first);
            },
            None => {
                assert(chunks.skip(1) =~= Seq::<Seq<u8>>::empty());
                assert(first.outs + Seq::<StreamModel>::empty() =~= first.outs);
                assert(spec_absorb_chunks(c, chunks, partial) =~= first);
            },
        }
    } else {
        // the first read is part of the error-free prefix
        assert(chunks.drop_last()[0] == chunks[0]);
        assert(chunks.drop_last().len() > 0);
        if first.err is Some {
            assert(spec_absorb_chunks(c, chunks.drop_last(), partial) == first);
            assert(false);
        }
        lemma_partial_read_idempotence(c, chunks[0], concat_chunks(chunks.skip(1)), partial);
        assert(concat_chunks(chunks) == chunks[0] + concat_chunks(chunks.skip(1)));
        let once = spec_absorb(c, concat_chunks(chunks), partial);
        let second = spec_absorb(first.ctx, concat_chunks(chunks.skip(1)), partial);
        assert(once.ctx == second.ctx && once.outs == first.outs + second.outs && once.err
            == second.err);
        // the inductive hypothesis applies to the remaining chunks
        assert(chunks.drop_last().skip(1) =~= chunks.skip(1).drop_last());
        assert(spec_absorb_chunks(first.ctx, chunks.skip(1).drop_last(), partial).err is None)
            by {
            assert(spec_absorb_chunks(c, chunks.drop_last(), partial).err == spec_absorb_chunks(
                first.ctx,
                chunks.drop_last().skip(1),
                partial,
            ).err);
        }
        lemma_chunked_read_idempotence(first.ctx, chunks.skip(1), partial);
        let rest = spec_absorb_chunks(first.ctx, chunks.skip(1), partial);
        assert(rest == second);
        assert(spec_absorb_chunks(c, chunks, partial) =~= (FeedOut {
            ctx: rest.ctx,
            outs: first.outs + rest.outs,
            err: rest.err,
        }));
        assert(once =~= (FeedOut { ctx: rest.ctx, outs: first.outs + rest.outs, err: rest.err }));
    }
}


/// Decode a sequence of header-block fragments in order, threading the
/// decoder state: the per-block header lists, the total accounted size,
/// and the final decoder state; `None` when any block fails.
pub open spec fn spec_decode_blocks(h: HpackModel, frags: Seq<Seq<u8>>) -> Option<
    (Seq<Seq<(Seq<u8>, Seq<u8>)>>, int, HpackModel),
>
    decreases frags.len(),
{
    if frags.len() == 0 {
        Some((Seq::empty(), 0, h))
    } else {
        match spec_decode(h.table, h.max, frags[0], 0) {
            Err(_) => None,
            Ok(o) => {
                match spec_decode_blocks(HpackModel { table: o.table, max: o.max }, frags.skip(1)) {
                    None => None,
                    Some((hs, sz, h2)) => Some((seq![o.headers] + hs, o.size + sz, h2)),
                }
            },
        }
    }
}

/// The header lists of a block sequence, concatenated in order.
pub open spec fn concat_header_lists(hs: Seq<Seq<(Seq<u8>, Seq<u8>)>>) -> Seq<(Seq<u8>, Seq<u8>)>
    decreases hs.len(),
{
    if hs.len() == 0 {
        Seq::empty()
    } else {
        hs[0] + concat_header_lists(hs.skip(1))
    }
}

/// A fragment sequence that decodes block-by-block decodes identically as
/// one concatenated block: the headers concatenate, the sizes add, and the
/// decoder ends in the same state.
pub proof fn lemma_decode_blocks_concat(h: HpackModel, frags: Seq<Seq<u8>>)
    requires
        spec_decode_blocks(h, frags) is Some,
    ensures
        ({
            let (hs, sz, h2) = spec_decode_blocks(h, frags)->0;
            spec_decode(h.table, h.max, concat_chunks(frags), 0) == Ok::<DecodeOut, HpackError>(
                DecodeOut {
                    headers: concat_header_lists(hs),
                    size: sz,
                    table: h2.table,
                    max: h2.max,
                },
            )
        }),
    decreases frags.len(),
{
    let (hs, sz, h2) = spec_decode_blocks(h, frags)->0;
    if frags.len() == 0 {
        assert(concat_chunks(frags) =~= Seq::<u8>::empty());
        assert(spec_decode(h.table, h.max, concat_chunks(frags), 0) == Ok::<
            DecodeOut,
            HpackError,
        >(DecodeOut { headers: Seq::empty(), size: 0, table: h.table, max: h.max }));
        assert(concat_header_lists(hs) =~= Seq::<(Seq<u8>, Seq<u8>)>::empty());
    } else {
        let o = spec_decode(h.table, h.max, frags[0], 0)->Ok_0;
        let hnext = HpackModel { table: o.table, max: o.max };
        lemma_decode_blocks_concat(hnext, frags.skip(1));
        let (hs1, sz1, _) = spec_decode_blocks(hnext, frags.skip(1))->0;
        lemma_decode_concat(h.table, h.max, frags[0], concat_chunks(frags.skip(1)), 0);
        assert(concat_chunks(frags) == frags[0] + concat_chunks(frags.skip(1)));
        assert(hs.skip(1) =~= hs1);
        assert(hs[0] == o.headers);
        assert(concat_header_lists(hs) == o.headers + concat_header_lists(hs1));
    }
}


/// Dispatch a run of CONTINUATION frames without END_HEADERS for one
/// stream, in order.
pub open spec fn spec_step_continuations(c: CtxModel, sid: u32, frags: Seq<Seq<u8>>) -> CtxModel
    decreases frags.len(),
{
    if frags.len() == 0 {
        c
    } else {
        spec_step_continuations(
            spec_step(
                c,
                FrameModel { stream_id: sid, flags: 0, payload: PayloadModel::Continuation(
                    frags[0],
                ) },
            ).ctx,
            sid,
            frags.skip(1),
        )
    }
}

/// A run of non-final CONTINUATIONs keeps the block open and appends each
/// fragment's decode to the stream's headers, threading the decoder.
proof fn lemma_continuations_progress(c: CtxModel, sid: u32, frags: Seq<Seq<u8>>)
    requires
        sid != 0,
        c.max_headers_len == 0,
        c.streams.contains_key(sid),
        c.streams[sid].state == StreamState::FillingHeaders,
        c.streams[sid].headers_open,
        c.streams[sid].end_stream,
        c.streams[sid].headers is Some,
        spec_decode_blocks(c.hpack, frags) is Some,
    ensures
        ({
            let (hs, sz, h2) = spec_decode_blocks(c.hpack, frags)->0;
            let cj = spec_step_continuations(c, sid, frags);
            &&& cj.hpack == h2
            &&& cj.max_headers_len == 0
            &&& cj.streams.contains_key(sid)
            &&& cj.streams[sid].state == StreamState::FillingHeaders
            &&& cj.streams[sid].headers_open
            &&& cj.streams[sid].end_stream
            &&& cj.streams[sid].headers == Some(
                c.streams[sid].headers->0 + concat_header_lists(hs),
            )
        }),
    decreases frags.len(),
{
    let (hs, sz, h2) = spec_decode_blocks(c.hpack, frags)->0;
    if frags.len() == 0 {
        assert(concat_header_lists(hs) =~= Seq::<(Seq<u8>, Seq<u8>)>::empty());
        assert(c.streams[sid].headers->0 + concat_header_lists(hs) =~= c.streams[sid].headers->0);
    } else {
        let f = FrameModel { stream_id: sid, flags: 0, payload: PayloadModel::Continuation(
            frags[0],
        ) };
        lemma_step_continuation_def(c, f);
        reveal(spec_step_headers);
        let o = spec_decode(c.hpack.table, c.hpack.max, frags[0], 0)->Ok_0;
        let c1 = spec_step(c, f).ctx;
        assert(!spec_has_flag(0, FLAG_END_HEADERS)) by (bit_vector);
        assert(!spec_has_flag(0, FLAG_END_STREAM)) by (bit_vector);
        assert(c1.streams[sid].headers == Some(c.streams[sid].headers->0 + o.headers));
        assert(c1.hpack == (HpackModel { table: o.table, max: o.max }));
        lemma_continuations_progress(c1, sid, frags.skip(1));
        let (hs1, sz1, _) = spec_decode_blocks(c1.hpack, frags.skip(1))->0;
        assert(hs.skip(1) =~= hs1);
        assert(hs[0] == o.headers);
        assert(concat_header_lists(hs) == o.headers + concat_header_lists(hs1));
        assert(c.streams[sid].headers->0 + (o.headers + concat_header_lists(hs1))
            =~= (c.streams[sid].headers->0 + o.headers) + concat_header_lists(hs1));
    }
}

/// Law (arbitrary split): a header block delivered as HEADERS (END_STREAM
/// set, END_HEADERS clear), any number of CONTINUATIONs, and a final
/// CONTINUATION with END_HEADERS, leaves the stream completed with
/// exactly the HPACK decoding of the concatenated fragments.
#[verifier::rlimit(100)]
pub proof fn lemma_headers_continuations_general(
    c: CtxModel,
    sid: u32,
    frag0: Seq<u8>,
    conts: Seq<Seq<u8>>,
    last: Seq<u8>,
)
    requires
        sid != 0,
        c.max_headers_len == 0,
        !c.streams.contains_key(sid),
        spec_decode_blocks(c.hpack, seq![frag0] + conts + seq![last]) is Some,
    ensures
        ({
            let all = frag0 + concat_chunks(conts) + last;
            let hf = FrameModel { stream_id: sid, flags: FLAG_END_STREAM,
                payload: PayloadModel::Headers(frag0) };
            let cf = FrameModel { stream_id: sid, flags: FLAG_END_HEADERS,
                payload: PayloadModel::Continuation(last) };
            let c1 = spec_step(c, hf).ctx;
            let cj = spec_step_continuations(c1, sid, conts);
            let cn = spec_step(cj, cf).ctx;
            &&& spec_decode(c.hpack.table, c.hpack.max, all, 0) matches Ok(oall)
                && cn.streams[sid].headers == Some(oall.headers)
            &&& cn.streams[sid].state == StreamState::Completed
        }),
{
    let allfrags = seq![frag0] + conts + seq![last];
    let hf = FrameModel { stream_id: sid, flags: FLAG_END_STREAM, payload: PayloadModel::Headers(
        frag0,
    ) };
    let cf = FrameModel { stream_id: sid, flags: FLAG_END_HEADERS,
        payload: PayloadModel::Continuation(last) };
    assert(allfrags[0] == frag0);
    let o0 = spec_decode(c.hpack.table, c.hpack.max, frag0, 0)->Ok_0;
    assert(addressed_stream(c, sid) == fresh_stream(sid));
    lemma_step_headers_def(c, hf);
    reveal(spec_step_headers);
    assert(!spec_has_flag(FLAG_END_STREAM, FLAG_END_HEADERS)) by (bit_vector);
    assert(spec_has_flag(FLAG_END_STREAM, FLAG_END_STREAM)) by (bit_vector);
    let c1 = spec_step(c, hf).ctx;
    assert(c1.streams[sid].headers == Some(o0.headers));
    assert(c1.streams[sid].state == StreamState::FillingHeaders);
    assert(c1.streams[sid].headers_open && c1.streams[sid].end_stream);
    assert(c1.hpack == (HpackModel { table: o0.table, max: o0.max }));
    assert(allfrags.skip(1) =~= conts + seq![last]);
    let (hsr, szr, hr) = spec_decode_blocks(c1.hpack, conts + seq![last])->0;
    // the run of non-final continuations
    assert(spec_decode_blocks(c1.hpack, conts) is Some) by {
        lemma_decode_blocks_prefix(c1.hpack, conts, seq![last]);
    }
    lemma_continuations_progress(c1, sid, conts);
    let (hs, sz, h2) = spec_decode_blocks(c1.hpack, conts)->0;
    let cj = spec_step_continuations(c1, sid, conts);
    assert(cj.streams[sid].headers == Some(o0.headers + concat_header_lists(hs)));
    // the closing continuation
    assert(spec_decode(h2.table, h2.max, last, 0) is Ok) by {
        lemma_decode_blocks_split(c1.hpack, conts, seq![last]);
    }
    let ol = spec_decode(h2.table, h2.max, last, 0)->Ok_0;
    lemma_step_continuation_def(cj, cf);
    assert(spec_has_flag(FLAG_END_HEADERS, FLAG_END_HEADERS)) by (bit_vector);
    let cn = spec_step(cj, cf).ctx;
    assert(cn.streams[sid].state == StreamState::Completed);
    assert(cn.streams[sid].headers == Some(
        (o0.headers + concat_header_lists(hs)) + ol.headers,
    ));
    // the byte-level equality with decoding the whole block at once
    lemma_blocks_assembly(c.hpack, frag0, conts, last);
}

/// Decoding a split block's fragments in sequence assembles exactly the
/// decode of the concatenated bytes: the opening fragment's headers, the
/// middle fragments' headers in order, then the closing fragment's.
proof fn lemma_blocks_assembly(h: HpackModel, frag0: Seq<u8>, conts: Seq<Seq<u8>>, last: Seq<u8>)
    requires
        spec_decode_blocks(h, seq![frag0] + conts + seq![last]) is Some,
    ensures
        ({
            let o0 = spec_decode(h.table, h.max, frag0, 0)->Ok_0;
            let h1 = HpackModel { table: o0.table, max: o0.max };
            let (hs, sz, h2) = spec_decode_blocks(h1, conts)->0;
            let ol = spec_decode(h2.table, h2.max, last, 0)->Ok_0;
            let all = frag0 + concat_chunks(conts) + last;
            spec_decode(h.table, h.max, all, 0) matches Ok(oall) && oall.headers == (o0.headers
                + concat_header_lists(hs)) + ol.headers
        }),
{
    let allfrags = seq![frag0] + conts + seq![last];
    assert(allfrags[0] == frag0);
    let o0 = spec_decode(h.table, h.max, frag0, 0)->Ok_0;
    let h1 = HpackModel { table: o0.table, max: o0.max };
    assert(allfrags.skip(1) =~= conts + seq![last]);
    lemma_decode_blocks_split(h1, conts, seq![last]);
    let (hs, sz, h2) = spec_decode_blocks(h1, conts)->0;
    assert(seq![last][0] == last);
    assert(seq![last].skip(1) =~= Seq::<Seq<u8>>::empty());
    let ol = spec_decode(h2.table, h2.max, last, 0)->Ok_0;
    let (hsl, szl, hl) = spec_decode_blocks(h2, seq![last])->0;
    assert(hsl =~= seq![ol.headers]) by {
        reveal_with_fuel(spec_decode_blocks, 3);
        assert(spec_decode_blocks(
            HpackModel { table: ol.table, max: ol.max },
            seq![last].skip(1),
        ) == Some((Seq::<Seq<(Seq<u8>, Seq<u8>)>>::empty(), 0int, HpackModel {
            table: ol.table,
            max: ol.max,
        })));
        assert(seq![ol.headers] + Seq::<Seq<(Seq<u8>, Seq<u8>)>>::empty() =~= seq![ol.headers]);
    }
    lemma_decode_blocks_concat(h, allfrags);
    let (hsa, sza, ha) = spec_decode_blocks(h, allfrags)->0;
    let all = frag0 + concat_chunks(conts) + last;
    assert(concat_chunks(allfrags) =~= all) by {
        reveal_with_fuel(concat_chunks, 3);
        lemma_concat_chunks_append(seq![frag0] + conts, seq![last]);
        lemma_concat_chunks_append(seq![frag0], conts);
        assert((seq![frag0] + conts) + seq![last] =~= allfrags);
        assert(seq![frag0].skip(1) =~= Seq::<Seq<u8>>::empty());
        assert(seq![last].skip(1) =~= Seq::<Seq<u8>>::empty());
        assert(concat_chunks(seq![frag0]) =~= frag0);
        assert(concat_chunks(seq![last]) =~= last);
        assert((frag0 + concat_chunks(conts)) + last =~= all);
    }
    assert(hsa =~= seq![o0.headers] + (hs + seq![ol.headers]));
    assert(concat_header_lists(hsa) =~= o0.headers + concat_header_lists(hs + seq![ol.headers]))
        by {
        assert(hsa[0] == o0.headers);
        assert(hsa.skip(1) =~= hs + seq![ol.headers]);
    }
    lemma_concat_header_lists_snoc(hs, ol.headers);
    assert((o0.headers + concat_header_lists(hs)) + ol.headers =~= concat_header_lists(hsa));
}

/// A decodable fragment sequence keeps every prefix decodable.
proof fn lemma_decode_blocks_prefix(h: HpackModel, a: Seq<Seq<u8>>, b: Seq<Seq<u8>>)
    requires
        spec_decode_blocks(h, a + b) is Some,
    ensures
        spec_decode_blocks(h, a) is Some,
    decreases a.len(),
{
    if a.len() > 0 {
        assert((a + b)[0] == a[0]);
        let o = spec_decode(h.table, h.max, a[0], 0)->Ok_0;
        assert((a + b).skip(1) =~= a.skip(1) + b);
        lemma_decode_blocks_prefix(HpackModel { table: o.table, max: o.max }, a.skip(1), b);
    }
}

/// Splitting a decodable fragment sequence: the second part decodes from
/// the first part's final state, and the block lists concatenate.
proof fn lemma_decode_blocks_split(h: HpackModel, a: Seq<Seq<u8>>, b: Seq<Seq<u8>>)
    requires
        spec_decode_blocks(h, a + b) is Some,
    ensures
        spec_decode_blocks(h, a) is Some,
        ({
            let (hsa, sza, ha) = spec_decode_blocks(h, a)->0;
            &&& spec_decode_blocks(ha, b) is Some
            &&& ({
                let (hsb, szb, hb) = spec_decode_blocks(ha, b)->0;
                let (hsw, szw, hw) = spec_decode_blocks(h, a + b)->0;
                hsw == hsa + hsb && szw == sza + szb && hw == hb
            })
        }),
    decreases a.len(),
{
    lemma_decode_blocks_prefix(h, a, b);
    if a.len() == 0 {
        assert(a + b =~= b);
        let (hsb, szb, hb) = spec_decode_blocks(h, b)->0;
        assert(Seq::<Seq<(Seq<u8>, Seq<u8>)>>::empty() + hsb =~= hsb);
    } else {
        assert((a + b)[0] == a[0]);
        let o = spec_decode(h.table, h.max, a[0], 0)->Ok_0;
        let h1 = HpackModel { table: o.table, max: o.max };
        assert((a + b).skip(1) =~= a.skip(1) + b);
        lemma_decode_blocks_split(h1, a.skip(1), b);
        let (hs1, sz1, ha) = spec_decode_blocks(h1, a.skip(1))->0;
        let (hsb, szb, hb) = spec_decode_blocks(ha, b)->0;
        assert(seq![o.headers] + (hs1 + hsb) =~= (seq![o.headers] + hs1) + hsb);
    }
}

/// Concatenating fragment sequences concatenates their bytes.
proof fn lemma_concat_chunks_append(a: Seq<Seq<u8>>, b: Seq<Seq<u8>>)
    ensures
        concat_chunks(a + b) == concat_chunks(a) + concat_chunks(b),
    decreases a.len(),
{
    if a.len() == 0 {
        assert(a + b =~= b);
        assert(concat_chunks(a) =~= Seq::<u8>::empty());
        assert(Seq::<u8>::empty() + concat_chunks(b) =~= concat_chunks(b));
        assert(concat_chunks(a + b) =~= concat_chunks(a) + concat_chunks(b));
    } else {
        assert((a + b)[0] == a[0]);
        assert((a + b).skip(1) =~= a.skip(1) + b);
        lemma_concat_chunks_append(a.skip(1), b);
        assert(a[0] + (concat_chunks(a.skip(1)) + concat_chunks(b)) =~= (a[0] + concat_chunks(
            a.skip(1),
        )) + concat_chunks(b));
        assert(concat_chunks(a + b) =~= concat_chunks(a) + concat_chunks(b));
    }
}

/// Appending one block to a block-list concatenation appends its headers.
proof fn lemma_concat_header_lists_snoc(hs: Seq<Seq<(Seq<u8>, Seq<u8>)>>, x: Seq<(Seq<u8>, Seq<u8>)>)
    ensures
        concat_header_lists(hs + seq![x]) == concat_header_lists(hs) + x,
    decreases hs.len(),
{
    if hs.len() == 0 {
        reveal_with_fuel(concat_header_lists, 3);
        assert(hs + seq![x] =~= seq![x]);
        assert(seq![x].skip(1) =~= Seq::<Seq<(Seq<u8>, Seq<u8>)>>::empty());
        assert(concat_header_lists(seq![x]) =~= x + Seq::<(Seq<u8>, Seq<u8>)>::empty());
        assert(x + Seq::<(Seq<u8>, Seq<u8>)>::empty() =~= x);
        assert(concat_header_lists(hs) + x =~= x);
        assert(concat_header_lists(hs + seq![x]) =~= concat_header_lists(hs) + x);
    } else {
        assert((hs + seq![x])[0] == hs[0]);
        assert((hs + seq![x]).skip(1) =~= hs.skip(1) + seq![x]);
        lemma_concat_header_lists_snoc(hs.skip(1), x);
        assert(hs[0] + (concat_header_lists(hs.skip(1)) + x) =~= (hs[0] + concat_header_lists(
            hs.skip(1),
        )) + x);
        assert(concat_header_lists(hs + seq![x]) =~= concat_header_lists(hs) + x);
    }
}



/// A decoded block sequence yields one header list per fragment.
proof fn lemma_decode_blocks_len(h: HpackModel, frags: Seq<Seq<u8>>)
    requires
        spec_decode_blocks(h, frags) is Some,
    ensures
        ({
            let (hs, sz, h2) = spec_decode_blocks(h, frags)->0;
            hs.len() == frags.len()
        }),
    decreases frags.len(),
{
    if frags.len() > 0 {
        let o = spec_decode(h.table, h.max, frags[0], 0)->Ok_0;
        lemma_decode_blocks_len(HpackModel { table: o.table, max: o.max }, frags.skip(1));
    }
}

/// Dispatch one self-contained HEADERS frame (END_STREAM and END_HEADERS
/// both set) per fragment, on the given stream ids, in order.
pub open spec fn spec_step_header_frames(c: CtxModel, sids: Seq<u32>, frags: Seq<Seq<u8>>) -> CtxModel
    decreases frags.len(),
{
    if frags.len() == 0 || sids.len() == 0 {
        c
    } else {
        spec_step_header_frames(
            spec_step(
                c,
                FrameModel {
                    stream_id: sids[0],
                    flags: FLAG_END_STREAM | FLAG_END_HEADERS,
                    payload: PayloadModel::Headers(frags[0]),
                },
            ).ctx,
            sids.skip(1),
            frags.skip(1),
        )
    }
}

/// Law (N blocks): dispatching N header blocks on one connection, in
/// arrival order, on fresh distinct streams, accumulates on each stream
/// exactly the headers an isolated decoder produces when seeded with the
/// same decoder state and fed the same blocks in the same order; the
/// connection's decoder ends in the isolated decoder's state.
#[verifier::rlimit(100)]
pub proof fn lemma_hpack_coherence_blocks(c: CtxModel, sids: Seq<u32>, frags: Seq<Seq<u8>>)
    requires
        sids.len() == frags.len(),
        c.max_headers_len == 0,
        forall|i: int| 0 <= i < sids.len() ==> #[trigger] sids[i] != 0,
        forall|i: int| 0 <= i < sids.len() ==> !c.streams.contains_key(#[trigger] sids[i]),
        forall|i: int, j: int| 0 <= i < j < sids.len() ==> sids[i] != sids[j],
        spec_decode_blocks(c.hpack, frags) is Some,
    ensures
        ({
            let (hs, sz, h2) = spec_decode_blocks(c.hpack, frags)->0;
            let cn = spec_step_header_frames(c, sids, frags);
            &&& cn.hpack == h2
            &&& forall|i: int|
                0 <= i < sids.len() ==> cn.streams.contains_key(#[trigger] sids[i])
                    && cn.streams[sids[i]].headers == Some(hs[i]) && cn.streams[sids[i]].state
                    == StreamState::Completed
            &&& forall|k: u32|
                #[trigger] c.streams.contains_key(k) ==> cn.streams.contains_key(k)
                    && cn.streams[k] == c.streams[k]
        }),
    decreases frags.len(),
{
    let (hs, sz, h2) = spec_decode_blocks(c.hpack, frags)->0;
    if frags.len() == 0 {
    } else {
        let f = FrameModel {
            stream_id: sids[0],
            flags: FLAG_END_STREAM | FLAG_END_HEADERS,
            payload: PayloadModel::Headers(frags[0]),
        };
        assert(spec_has_flag(FLAG_END_STREAM | FLAG_END_HEADERS, FLAG_END_STREAM))
            by (bit_vector);
        assert(spec_has_flag(FLAG_END_STREAM | FLAG_END_HEADERS, FLAG_END_HEADERS))
            by (bit_vector);
        assert(addressed_stream(c, sids[0]) == fresh_stream(sids[0]));
        lemma_step_headers_def(c, f);
        reveal(spec_step_headers);
        let o = spec_decode(c.hpack.table, c.hpack.max, frags[0], 0)->Ok_0;
        let c1 = spec_step(c, f).ctx;
        assert(c1.streams[sids[0]].headers == Some(o.headers));
        assert(c1.streams[sids[0]].state == StreamState::Completed);
        assert(c1.hpack == (HpackModel { table: o.table, max: o.max }));
        assert(c1.max_headers_len == 0);
        assert(forall|i: int|
            0 <= i < sids.skip(1).len() ==> !c1.streams.contains_key(#[trigger] sids.skip(1)[i]));
        lemma_decode_blocks_len(c.hpack, frags);
        lemma_decode_blocks_len(c1.hpack, frags.skip(1));
        lemma_hpack_coherence_blocks(c1, sids.skip(1), frags.skip(1));
        let cn = spec_step_header_frames(c1, sids.skip(1), frags.skip(1));
        assert(spec_step_header_frames(c, sids, frags) == cn);
        let (hs1, sz1, _) = spec_decode_blocks(c1.hpack, frags.skip(1))->0;
        assert(hs.skip(1) =~= hs1);
        assert(hs[0] == o.headers);
        assert forall|i: int| 0 <= i < sids.len() implies cn.streams.contains_key(
            #[trigger] sids[i],
        ) && cn.streams[sids[i]].headers == Some(hs[i]) && cn.streams[sids[i]].state
            == StreamState::Completed by {
            if i == 0 {
                assert(c1.streams.contains_key(sids[0]));
                assert(cn.streams[sids[0]] == c1.streams[sids[0]]);
            } else {
                assert(sids.skip(1)[i - 1] == sids[i]);
                assert(hs1[i - 1] == hs[i]);
            }
        }
        assert forall|k: u32| #[trigger] c.streams.contains_key(k) implies cn.streams.contains_key(
            k,
        ) && cn.streams[k] == c.streams[k] by {
            assert(k != sids[0]);
            assert(c1.streams.contains_key(k) && c1.streams[k] == c.streams[k]);
        }
    }
}

} // verus!
