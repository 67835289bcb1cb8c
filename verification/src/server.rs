//! The server loop's bookkeeping: a registry of connection contexts keyed
//! by readiness-poller token, and a pool of reusable tokens.  Token 0 is
//! reserved for the listener; the pool only ever hands out tokens from 1
//! upwards.  The caller owns the listener, the poller and the sockets; it
//! routes accepted connections and readiness events through this registry.

use vstd::prelude::*;

use std::collections::HashMap;

use id_pool::IdPool;

use crate::context::Http2Context;
use crate::context::ContextError;
use crate::context::CtxModel;
use crate::context::ReadEvent;
use crate::context::spec_read_result;
use crate::context::streams_view;
use crate::stream::Http2Stream;
use crate::stream::StreamModel;

verus! {

broadcast use vstd::std_specs::hash::group_hash_axioms;

#[derive(Debug, PartialEq, Eq, Clone, Copy)]
pub enum Http2Error {
    IOError,
    MaxActiveConnection,
}

#[verifier::external_type_specification]
#[verifier::external_body]
pub struct ExIdPool(IdPool);

/// The ids the pool can still hand out.
pub uninterp spec fn pool_free(p: IdPool) -> Set<usize>;

/// How many ids are handed out and not yet returned.
pub uninterp spec fn pool_used(p: IdPool) -> nat;

/// Relies on id_pool::IdPool::new: the default pool offers every id from 1
/// up to (excluding) usize::MAX, none in use.
#[verifier::external_body]
fn pool_new() -> (p: IdPool)
    ensures
        pool_free(p) == Set::new(|i: usize| 1 <= i < usize::MAX),
        pool_used(p) == 0,
{
    IdPool::new()
}

/// Relies on id_pool::IdPool::request_id: hands out some free id, removing
/// it from the free set, or reports exhaustion when nothing is free.
#[verifier::external_body]
fn pool_request(p: &mut IdPool) -> (r: Option<usize>)
    ensures
        match r {
            Some(id) => pool_free(*old(p)).contains(id) && pool_free(*final(p)) == pool_free(
                *old(p),
            ).remove(id) && pool_used(*final(p)) == pool_used(*old(p)) + 1,
            None => pool_free(*old(p)) == Set::<usize>::empty() && *final(p) == *old(p),
        },
{
    p.request_id()
}

/// Relies on id_pool::IdPool::return_id: an id that was handed out (and is
/// below the pool's upper bound) goes back into the free set.
#[verifier::external_body]
fn pool_return(p: &mut IdPool, id: usize) -> (r: Result<(), usize>)
    requires
        !pool_free(*old(p)).contains(id),
        1 <= id < usize::MAX,
        pool_used(*old(p)) >= 1,
    ensures
        r is Ok,
        pool_free(*final(p)) == pool_free(*old(p)).insert(id),
        pool_used(*final(p)) == pool_used(*old(p)) - 1,
{
    p.return_id(id)
}

/// What routing one readiness event to a connection produced.
#[derive(Debug)]
pub enum EventOutcome {
    /// No context under this token: a stale wakeup, dropped.
    UnknownToken,
    /// The connection stays; these streams completed (possibly none).
    Streams(Vec<Http2Stream>),
    /// A fatal error: the context was discarded and the token reclaimed.
    Closed(ContextError),
}

/// The registry of live connections and the token pool that keys them.
pub struct Http2Server {
    pub connections: HashMap<usize, Http2Context>,
    pub id_pool: IdPool,
}

impl View for Http2Server {
    type V = Map<usize, CtxModel>;

    open spec fn view(&self) -> Map<usize, CtxModel> {
        self.connections@.map_values(|c: Http2Context| c@)
    }
}

impl Http2Server {
    /// Every live token was handed out by the pool and is in the poller's
    /// usable range, the pool's outstanding count covers the registry, and
    /// each context's decoder state is consistent.
    pub open spec fn wf(&self) -> bool {
        &&& pool_free(self.id_pool).subset_of(Set::new(|i: usize| 1 <= i < usize::MAX))
        &&& forall|k: usize|
            #[trigger] self.connections@.contains_key(k) ==> 1 <= k < usize::MAX && !pool_free(
                self.id_pool,
            ).contains(k)
        &&& pool_used(self.id_pool) == self.connections@.len()
        &&& forall|k: usize|
            self.connections@.contains_key(k) ==> (#[trigger] self.connections@[k]).wf()
    }

    /// Fresh registry with no connections; every token from 1 up to (but
    /// excluding) usize::MAX is available.
    pub fn new() -> (s: Http2Server)
        ensures
            s.wf(),
            s@ == Map::<usize, CtxModel>::empty(),
            pool_free(s.id_pool) == Set::new(|i: usize| 1 <= i < usize::MAX),
    {
        let s = Http2Server { connections: HashMap::new(), id_pool: pool_new() };
        proof {
            assert(s@ =~= Map::<usize, CtxModel>::empty());
        }
        s
    }

    /// Accept a new connection: allocate a token and register a fresh
    /// context under it.  When the pool is exhausted the caller should
    /// turn the socket away.
    pub fn accept_connection(&mut self, max_header: Option<u32>, buffer_size: Option<usize>) -> (r:
        Result<usize, Http2Error>)
        requires
            old(self).wf(),
        ensures
            final(self).wf(),
            r is Err <==> pool_free(old(self).id_pool) == Set::<usize>::empty(),
            match r {
                Ok(token) => {
                    &&& 1 <= token < usize::MAX
                    &&& pool_free(old(self).id_pool).contains(token)
                    &&& pool_free(final(self).id_pool) == pool_free(old(self).id_pool).remove(
                        token,
                    )
                    &&& !old(self)@.contains_key(token)
                    &&& final(self)@ == old(self)@.insert(token, final(self)@[token])
                    &&& final(self)@.contains_key(token)
                    &&& final(self)@[token].handshaked == false
                    &&& final(self)@[token].streams == Map::<u32, StreamModel>::empty()
                },
                Err(e) => e == Http2Error::MaxActiveConnection && final(self)@ == old(self)@
                    && final(self).id_pool == old(self).id_pool,
            },
    {
        let ghost m0 = self@;
        match pool_request(&mut self.id_pool) {
            None => Err(Http2Error::MaxActiveConnection),
            Some(token) => {
                let ctx = Http2Context::new(max_header, buffer_size);
                proof {
                    assert(Set::new(|i: usize| 1 <= i < usize::MAX).contains(token));
                    assert(!self.connections@.contains_key(token));
                }
                let ghost pre = self.connections@;
                self.connections.insert(token, ctx);
                proof {
                    assert(self@ =~= pre.map_values(|c: Http2Context| c@).insert(token, ctx@));
                    assert(self.connections@.dom() =~= pre.dom().insert(token));
                    assert(!pre.dom().contains(token));
                    assert(self.connections@.len() == pre.len() + 1);
                    assert(pool_free(self.id_pool) == pool_free(old(self).id_pool).remove(
                        token,
                    ));
                    assert forall|k: usize| self.connections@.contains_key(k) implies 1 <= k
                        < usize::MAX && !pool_free(self.id_pool).contains(k) by {
                        if k != token {
                            assert(pre.contains_key(k));
                            assert(old(self).connections@.contains_key(k));
                            assert(!pool_free(old(self).id_pool).contains(k));
                        } else {
                            assert(Set::new(|i: usize| 1 <= i < usize::MAX).contains(token));
                        }
                    }
                    assert forall|k: usize| self.connections@.contains_key(k) implies (
                    #[trigger] self.connections@[k]).wf() by {
                        if k != token {
                            assert(pre.contains_key(k));
                            assert(self.connections@[k] == pre[k]);
                        }
                    }
                }
                Ok(token)
            },
        }
    }

    /// Route one readiness event to the context registered under `token`:
    /// feed it through the connection engine, deliver completed streams,
    /// and on a fatal error discard the context and reclaim the token.
    pub fn handle_event(&mut self, token: usize, event: ReadEvent, read_data_stream: bool) -> (r:
        EventOutcome)
        requires
            old(self).wf(),
        ensures
            final(self).wf(),
            match r {
                EventOutcome::UnknownToken => !old(self)@.contains_key(token) && final(self)@
                    == old(self)@ && final(self).id_pool == old(self).id_pool,
                EventOutcome::Streams(v) => old(self)@.contains_key(token) && final(self).id_pool
                    == old(self).id_pool && ({
                    let p = spec_read_result(old(self)@[token], event, read_data_stream);
                    match p.1 {
                        Ok(outs) => streams_view(v@) == outs && final(self)@ == old(self)@.insert(token, p.0),
                        Err(e) => e == ContextError::NoDataReady && v@.len() == 0 && final(self)@ == old(self)@,
                    }
                }),
                EventOutcome::Closed(e) => old(self)@.contains_key(token) && spec_read_result(
                    old(self)@[token],
                    event,
                    read_data_stream,
                ).1 == Err::<Seq<StreamModel>, ContextError>(e) && e != ContextError::NoDataReady
                    && final(self)@ == old(self)@.remove(token) && pool_free(final(self).id_pool)
                    == pool_free(old(self).id_pool).insert(token),
            },
    {
        let ghost m0 = self@;
        let ghost pre = self.connections@;
        match self.connections.remove(&token) {
            None => {
                proof {
                    assert(self@ =~= m0);
                }
                EventOutcome::UnknownToken
            },
            Some(mut ctx) => {
                let ghost c0 = ctx@;
                proof {
                    assert(pre.contains_key(token) && pre[token] == ctx);
                    assert(old(self).connections@.contains_key(token));
                    assert(m0[token] == c0);
                    assert(1 <= token < usize::MAX);
                    assert(!pool_free(old(self).id_pool).contains(token));
                    assert(self.connections@ =~= pre.remove(token));
                    assert(self.connections@.dom() =~= pre.dom().remove(token));
                    let single = Set::<usize>::empty().insert(token);
                    assert(single.subset_of(pre.dom()));
                    vstd::set_lib::lemma_len_subset(single, pre.dom());
                    assert(single.len() == 1);
                    assert(pre.len() >= 1);
                    assert(self.connections@.len() == pre.len() - 1);
                }
                let ghost ev = event;
                match ctx.handle_read(event, read_data_stream) {
                    Ok(streams) => {
                        let ghost c1 = ctx@;
                        let ghost mid = self.connections@;
                        self.connections.insert(token, ctx);
                        proof {
                            assert(self@ =~= m0.insert(token, c1));
                            assert(self.connections@.dom() =~= pre.dom());
                            assert(self.connections@.len() == pre.len());
                            assert forall|k: usize| self.connections@.contains_key(k) implies 1
                                <= k < usize::MAX && !pool_free(self.id_pool).contains(k) by {
                                assert(pre.contains_key(k));
                                assert(old(self).connections@.contains_key(k));
                            }
                            assert forall|k: usize| self.connections@.contains_key(k) implies (
                            #[trigger] self.connections@[k]).wf() by {
                                if k != token {
                                    assert(pre.contains_key(k));
                                    assert(old(self).connections@.contains_key(k));
                                    assert(self.connections@[k] == pre[k]);
                                }
                            }
                        }
                        EventOutcome::Streams(streams)
                    },
                    Err(ContextError::NoDataReady) => {
                        proof {
                            match ev {
                                ReadEvent::Data(d) => {
                                    if d@.len() > 0 {
                                        crate::context::lemma_absorb_err_kinds(
                                            c0,
                                            d@,
                                            read_data_stream,
                                        );
                                    }
                                },
                                _ => {},
                            }
                            assert(ctx@ == c0);
                        }
                        let ghost mid = self.connections@;
                        self.connections.insert(token, ctx);
                        proof {
                            assert(self@ =~= m0.insert(token, c0));
                            assert(m0.insert(token, c0) =~= m0);
                            assert(self.connections@.dom() =~= pre.dom());
                            assert(self.connections@.len() == pre.len());
                            assert forall|k: usize| self.connections@.contains_key(k) implies 1
                                <= k < usize::MAX && !pool_free(self.id_pool).contains(k) by {
                                assert(pre.contains_key(k));
                                assert(old(self).connections@.contains_key(k));
                            }
                            assert forall|k: usize| self.connections@.contains_key(k) implies (
                            #[trigger] self.connections@[k]).wf() by {
                                if k != token {
                                    assert(pre.contains_key(k));
                                    assert(old(self).connections@.contains_key(k));
                                    assert(self.connections@[k] == pre[k]);
                                }
                            }
                        }
                        EventOutcome::Streams(Vec::new())
                    },
                    Err(e) => {
                        let _returned = pool_return(&mut self.id_pool, token);
                        proof {
                            assert(self@ =~= m0.remove(token));
                            assert(Set::new(|i: usize| 1 <= i < usize::MAX).contains(token));
                            assert(pool_free(self.id_pool) == pool_free(
                                old(self).id_pool,
                            ).insert(token));
                            assert forall|k: usize| self.connections@.contains_key(k) implies 1
                                <= k < usize::MAX && !pool_free(self.id_pool).contains(k) by {
                                assert(pre.contains_key(k));
                                assert(old(self).connections@.contains_key(k));
                                assert(k != token);
                            }
                            assert forall|k: usize| self.connections@.contains_key(k) implies (
                            #[trigger] self.connections@[k]).wf() by {
                                assert(pre.contains_key(k));
                                assert(old(self).connections@.contains_key(k));
                                assert(self.connections@[k] == pre[k]);
                            }
                        }
                        EventOutcome::Closed(e)
                    },
                }
            },
        }
    }

    /// Queue response bytes on the connection registered under `token`
    /// (the write path drains them on writable readiness); reports whether
    /// the token was live.
    pub fn enqueue_response(&mut self, token: usize, bytes: &[u8]) -> (r: bool)
        requires
            old(self).wf(),
        ensures
            final(self).wf(),
            final(self).id_pool == old(self).id_pool,
            r == old(self)@.contains_key(token),
            r ==> final(self)@ == old(self)@.insert(
                token,
                CtxModel {
                    write_buffer: old(self)@[token].write_buffer + bytes@,
                    ..old(self)@[token]
                },
            ),
            !r ==> final(self)@ == old(self)@,
    {
        let ghost m0 = self@;
        let ghost pre = self.connections@;
        match self.connections.remove(&token) {
            None => {
                proof {
                    assert(self@ =~= m0);
                }
                false
            },
            Some(mut ctx) => {
                let ghost c0 = ctx@;
                proof {
                    assert(pre.contains_key(token) && pre[token] == ctx);
                    assert(old(self).connections@.contains_key(token));
                    assert(m0[token] == c0);
                    assert(self.connections@ =~= pre.remove(token));
                }
                ctx.enqueue_write(bytes);
                let ghost c1 = ctx@;
                self.connections.insert(token, ctx);
                proof {
                    assert(self@ =~= m0.insert(token, c1));
                    assert(self.connections@.dom() =~= pre.dom());
                    assert(self.connections@.len() == pre.len());
                    assert forall|k: usize| self.connections@.contains_key(k) implies 1 <= k
                        < usize::MAX && !pool_free(self.id_pool).contains(k) by {
                        assert(pre.contains_key(k));
                        assert(old(self).connections@.contains_key(k));
                    }
                    assert forall|k: usize| self.connections@.contains_key(k) implies (
                    #[trigger] self.connections@[k]).wf() by {
                        if k != token {
                            assert(pre.contains_key(k));
                            assert(old(self).connections@.contains_key(k));
                            assert(self.connections@[k] == pre[k]);
                        }
                    }
                }
                true
            },
        }
    }
}

} // verus!
