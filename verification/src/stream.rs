//! Per-stream request assembly: an accumulator of decoded headers and body
//! bytes, a flow-control window, and a lifecycle state.

use vstd::prelude::*;

use crate::frame::copy_range;
use crate::hpack::entries_view;

verus! {

/// Lifecycle of a stream.  `Completed` means both END_HEADERS and
/// END_STREAM were seen; `Ended` (after RST_STREAM) is dropped silently.
#[derive(Debug, PartialEq, Eq, Clone, Copy)]
pub enum StreamState {
    Idle,
    Initiate,
    FillingHeaders,
    FillingData,
    Completed,
    Ended,
}

/// One HTTP/2 stream being assembled into a request.  `end_stream` records
/// that the block-opening HEADERS carried END_STREAM (the stream completes
/// once its header block closes); `headers_open` records that a header
/// block is still open, END_HEADERS pending, so that only CONTINUATION
/// frames are legal for this stream.
#[derive(Debug)]
pub struct Http2Stream {
    pub state: StreamState,
    pub stream_id: u32,
    pub window: i128,
    pub data: Option<Vec<u8>>,
    pub headers: Option<Vec<(Vec<u8>, Vec<u8>)>>,
    pub headers_len: u32,
    pub end_stream: bool,
    pub headers_open: bool,
    pub ping_opaque: u64,
}

/// The mathematical value of a stream.
#[verifier::ext_equal]
pub struct StreamModel {
    pub state: StreamState,
    pub stream_id: u32,
    pub window: int,
    pub data: Option<Seq<u8>>,
    pub headers: Option<Seq<(Seq<u8>, Seq<u8>)>>,
    pub headers_len: u32,
    pub end_stream: bool,
    pub headers_open: bool,
    pub ping_opaque: u64,
}

impl View for Http2Stream {
    type V = StreamModel;

    open spec fn view(&self) -> StreamModel {
        StreamModel {
            state: self.state,
            stream_id: self.stream_id,
            window: self.window as int,
            data: match self.data {
                Some(ref d) => Some(d@),
                None => None,
            },
            headers: match self.headers {
                Some(ref h) => Some(entries_view(h@)),
                None => None,
            },
            headers_len: self.headers_len,
            end_stream: self.end_stream,
            headers_open: self.headers_open,
            ping_opaque: self.ping_opaque,
        }
    }
}

impl Http2Stream {
    /// Fresh stream: no headers, no body, default window.
    pub fn new(stream_id: u32) -> (s: Http2Stream)
        ensures
            s@ == (StreamModel {
                state: StreamState::Idle,
                stream_id,
                window: 4096,
                data: None::<Seq<u8>>,
                headers: None::<Seq<(Seq<u8>, Seq<u8>)>>,
                headers_len: 0,
                end_stream: false,
                headers_open: false,
                ping_opaque: 0,
            }),
    {
        Http2Stream {
            state: StreamState::Idle,
            stream_id,
            window: 4096,
            data: None,
            headers: None,
            headers_len: 0,
            end_stream: false,
            headers_open: false,
            ping_opaque: 0,
        }
    }

    pub fn get_stream_id(&self) -> (r: u32)
        ensures
            r == self@.stream_id,
    {
        self.stream_id
    }

    /// Replace the flow-control window (INITIAL_WINDOW_SIZE for this stream).
    pub fn set_window_frame_size(&mut self, value: u32)
        ensures
            final(self)@ == (StreamModel { window: value as int, ..old(self)@ }),
    {
        self.window = value as i128;
    }

    /// Widen the window by a WINDOW_UPDATE increment, saturating at the
    /// accumulator's upper bound instead of overflowing.
    pub fn window_frame_size_increament(&mut self, value: u32)
        ensures
            final(self)@ == (StreamModel {
                window: if old(self)@.window + value <= i128::MAX {
                    old(self)@.window + value
                } else {
                    i128::MAX as int
                },
                ..old(self)@
            }),
    {
        if self.window <= i128::MAX - value as i128 {
            self.window = self.window + value as i128;
        } else {
            self.window = i128::MAX;
        }
    }

    /// Append payload bytes to the body, allocating it on first use.
    pub fn write_data(&mut self, data: &[u8])
        ensures
            final(self)@ == (StreamModel {
                data: Some(
                    match old(self)@.data {
                        Some(d) => d + data@,
                        None => data@,
                    },
                ),
                ..old(self)@
            }),
    {
        if self.data.is_none() {
            self.data = Some(Vec::new());
        }
        match self.data {
            Some(ref mut buf) => {
                let mut i: usize = 0;
                let ghost base = buf@;
                while i < data.len()
                    invariant
                        i <= data@.len(),
                        buf@ == base + data@.take(i as int),
                    decreases data@.len() - i,
                {
                    buf.push(data[i]);
                    proof {
                        assert(base + data@.take(i as int) + seq![data@[i as int]] =~= base
                            + data@.take(i + 1));
                    }
                    i = i + 1;
                }
                proof {
                    assert(base + data@.take(data@.len() as int) =~= base + data@);
                }
            },
            None => {},
        }
        proof {
            match old(self)@.data {
                Some(d) => {},
                None => {
                    assert(Seq::<u8>::empty() + data@ =~= data@);
                },
            }
        }
    }

    /// A copy of the accumulated body; callers ask only after at least one
    /// DATA frame has arrived.
    pub fn read_data(&self) -> (r: Option<Vec<u8>>)
        requires
            self@.data is Some,
        ensures
            r matches Some(d) && Some(d@) == self@.data,
    {
        match self.data {
            Some(ref d) => Some(copy_range(d.as_slice(), 0, d.len())),
            None => None,
        }
    }

    pub fn get_headers_len(&self) -> (r: u32)
        ensures
            r == self@.headers_len,
    {
        self.headers_len
    }

    /// Append decoded headers and account their decoded size, saturating
    /// the counter at its upper bound instead of overflowing.
    pub fn add_headers(&mut self, headers: Vec<(Vec<u8>, Vec<u8>)>, size: u32)
        ensures
            final(self)@ == (StreamModel {
                headers: Some(
                    match old(self)@.headers {
                        Some(h) => h + entries_view(headers@),
                        None => entries_view(headers@),
                    },
                ),
                headers_len: if old(self)@.headers_len + size <= u32::MAX {
                    (old(self)@.headers_len + size) as u32
                } else {
                    u32::MAX
                },
                ..old(self)@
            }),
    {
        if self.headers.is_none() {
            self.headers = Some(Vec::new());
        }
        let mut headers = headers;
        let ghost incoming = headers@;
        match self.headers {
            Some(ref mut list) => {
                let ghost base = list@;
                list.append(&mut headers);
                proof {
                    assert(entries_view(base + incoming) =~= entries_view(base) + entries_view(
                        incoming,
                    ));
                    match old(self)@.headers {
                        Some(h) => {},
                        None => {
                            assert(base =~= Seq::<(Vec<u8>, Vec<u8>)>::empty());
                            assert(entries_view(base) + entries_view(incoming) =~= entries_view(
                                incoming,
                            ));
                        },
                    }
                }
            },
            None => {},
        }
        if self.headers_len <= u32::MAX - size {
            self.headers_len = self.headers_len + size;
        } else {
            self.headers_len = u32::MAX;
        }
    }

    /// Deep copy of the stream for delivery.
    pub fn clone(&self) -> (r: Http2Stream)
        ensures
            r@ == self@,
    {
        Http2Stream {
            state: self.state,
            stream_id: self.stream_id,
            window: self.window,
            data: match self.data {
                Some(ref d) => Some(copy_range(d.as_slice(), 0, d.len())),
                None => None,
            },
            headers: match self.headers {
                Some(ref h) => Some(clone_entries(h)),
                None => None,
            },
            headers_len: self.headers_len,
            end_stream: self.end_stream,
            headers_open: self.headers_open,
            ping_opaque: self.ping_opaque,
        }
    }

    /// Deep copy for delivery, clearing the body buffer in place (used for
    /// streaming DATA delivery: later chunks start from an empty buffer).
    pub fn clone_reset_data(&mut self) -> (r: Http2Stream)
        ensures
            r@ == old(self)@,
            final(self)@ == (StreamModel {
                data: match old(self)@.data {
                    Some(_) => Some(Seq::<u8>::empty()),
                    None => None,
                },
                ..old(self)@
            }),
    {
        let r = Http2Stream {
            state: self.state,
            stream_id: self.stream_id,
            window: self.window,
            data: match self.data {
                Some(ref d) => Some(copy_range(d.as_slice(), 0, d.len())),
                None => None,
            },
            headers: match self.headers {
                Some(ref h) => Some(clone_entries(h)),
                None => None,
            },
            headers_len: self.headers_len,
            end_stream: self.end_stream,
            headers_open: self.headers_open,
            ping_opaque: self.ping_opaque,
        };
        match self.data {
            Some(ref mut d) => {
                d.clear();
            },
            None => {},
        }
        r
    }

    /// Convert the assembled headers and body into a request: pseudo-header
    /// names map to the canonical fields, everything else is copied
    /// verbatim in order.
    pub fn into_request(self) -> (r: Http2Request)
        ensures
            r@ == spec_request(
                match self@.headers {
                    Some(h) => h,
                    None => Seq::empty(),
                },
                match self@.data {
                    Some(d) => d,
                    None => Seq::empty(),
                },
            ),
    {
        let headers = match self.headers {
            Some(h) => h,
            None => Vec::new(),
        };
        let body = match self.data {
            Some(d) => d,
            None => Vec::new(),
        };
        let ghost all = entries_view(headers@);
        let ghost body0 = body@;
        let mut r = Http2Request {
            method: None,
            path: None,
            scheme: None,
            authority: None,
            status: None,
            headers: Vec::new(),
            body,
        };
        proof {
            assert(r@.headers =~= Seq::<(Seq<u8>, Seq<u8>)>::empty());
            assert(r@ =~= spec_request_init(body0));
            assert(all.skip(0) =~= all);
        }
        let mut i: usize = 0;
        while i < headers.len()
            invariant
                i <= headers@.len(),
                all == entries_view(headers@),
                r@.body == body0,
                spec_request_fold(all, spec_request_init(body0)) == spec_request_fold(
                    all.skip(i as int),
                    r@,
                ),
            decreases headers@.len() - i,
        {
            let ghost pre = r@;
            let e = &headers[i];
            let name = copy_range(e.0.as_slice(), 0, e.0.len());
            let value = copy_range(e.1.as_slice(), 0, e.1.len());
            proof {
                assert(name@ =~= headers@[i as int].0@);
                assert(value@ =~= headers@[i as int].1@);
                assert(all[i as int] == (name@, value@));
                assert(all.skip(i as int)[0] == all[i as int]);
            }
            if bytes_eq(name.as_slice(), pseudo_method().as_slice()) {
                r.method = Some(value);
            } else if bytes_eq(name.as_slice(), pseudo_path().as_slice()) {
                r.path = Some(value);
            } else if bytes_eq(name.as_slice(), pseudo_scheme().as_slice()) {
                r.scheme = Some(value);
            } else if bytes_eq(name.as_slice(), pseudo_authority().as_slice()) {
                r.authority = Some(value);
            } else if bytes_eq(name.as_slice(), pseudo_status().as_slice()) {
                r.status = Some(value);
            } else {
                r.headers.push((name, value));
                proof {
                    assert(entries_view(r.headers@) =~= pre.headers + seq![all[i as int]]);
                }
            }
            proof {
                assert(all.skip(i as int).skip(1) =~= all.skip(i + 1));
            }
            i = i + 1;
        }
        proof {
            assert(all.skip(headers@.len() as int) =~= Seq::<(Seq<u8>, Seq<u8>)>::empty());
        }
        r
    }
}

/// Clone a list of (name, value) byte pairs.
fn clone_entries(v: &Vec<(Vec<u8>, Vec<u8>)>) -> (r: Vec<(Vec<u8>, Vec<u8>)>)
    ensures
        entries_view(r@) == entries_view(v@),
{
    let mut r: Vec<(Vec<u8>, Vec<u8>)> = Vec::new();
    let mut i: usize = 0;
    proof {
        assert(entries_view(r@) =~= entries_view(v@).take(0));
    }
    while i < v.len()
        invariant
            i <= v@.len(),
            entries_view(r@) == entries_view(v@).take(i as int),
        decreases v@.len() - i,
    {
        let ghost pre = entries_view(r@);
        let name = copy_range(v[i].0.as_slice(), 0, v[i].0.len());
        let value = copy_range(v[i].1.as_slice(), 0, v[i].1.len());
        proof {
            assert(name@ =~= v@[i as int].0@);
            assert(value@ =~= v@[i as int].1@);
        }
        r.push((name, value));
        proof {
            assert(entries_view(r@) =~= pre + seq![(name@, value@)]);
            assert(entries_view(v@).take(i + 1) =~= entries_view(v@).take(i as int) + seq![
                entries_view(v@)[i as int],
            ]);
            assert(entries_view(r@) =~= entries_view(v@).take(i + 1));
        }
        i = i + 1;
    }
    proof {
        assert(entries_view(v@).take(v@.len() as int) =~= entries_view(v@));
    }
    r
}

/// Byte-wise equality of two slices.
pub fn bytes_eq(a: &[u8], b: &[u8]) -> (r: bool)
    ensures
        r == (a@ =~= b@),
{
    if a.len() != b.len() {
        return false;
    }
    let mut i: usize = 0;
    while i < a.len()
        invariant
            i <= a@.len(),
            a@.len() == b@.len(),
            forall|j: int| 0 <= j < i ==> a@[j] == b@[j],
        decreases a@.len() - i,
    {
        if a[i] != b[i] {
            return false;
        }
        i = i + 1;
    }
    true
}

/// The pseudo-header name `:method`, as bytes.
pub open spec fn spec_pseudo_method() -> Seq<u8> {
    seq![58u8, 109, 101, 116, 104, 111, 100]
}

fn pseudo_method() -> (r: Vec<u8>)
    ensures
        r@ == spec_pseudo_method(),
{
    let r: Vec<u8> = vec![58u8, 109, 101, 116, 104, 111, 100];
    proof {
        assert(r@ =~= spec_pseudo_method());
    }
    r
}

/// The pseudo-header name `:path`, as bytes.
pub open spec fn spec_pseudo_path() -> Seq<u8> {
    seq![58u8, 112, 97, 116, 104]
}

fn pseudo_path() -> (r: Vec<u8>)
    ensures
        r@ == spec_pseudo_path(),
{
    let r: Vec<u8> = vec![58u8, 112, 97, 116, 104];
    proof {
        assert(r@ =~= spec_pseudo_path());
    }
    r
}

/// The pseudo-header name `:scheme`, as bytes.
pub open spec fn spec_pseudo_scheme() -> Seq<u8> {
    seq![58u8, 115, 99, 104, 101, 109, 101]
}

fn pseudo_scheme() -> (r: Vec<u8>)
    ensures
        r@ == spec_pseudo_scheme(),
{
    let r: Vec<u8> = vec![58u8, 115, 99, 104, 101, 109, 101];
    proof {
        assert(r@ =~= spec_pseudo_scheme());
    }
    r
}

/// The pseudo-header name `:authority`, as bytes.
pub open spec fn spec_pseudo_authority() -> Seq<u8> {
    seq![58u8, 97, 117, 116, 104, 111, 114, 105, 116, 121]
}

fn pseudo_authority() -> (r: Vec<u8>)
    ensures
        r@ == spec_pseudo_authority(),
{
    let r: Vec<u8> = vec![58u8, 97, 117, 116, 104, 111, 114, 105, 116, 121];
    proof {
        assert(r@ =~= spec_pseudo_authority());
    }
    r
}

/// The pseudo-header name `:status`, as bytes.
pub open spec fn spec_pseudo_status() -> Seq<u8> {
    seq![58u8, 115, 116, 97, 116, 117, 115]
}

fn pseudo_status() -> (r: Vec<u8>)
    ensures
        r@ == spec_pseudo_status(),
{
    let r: Vec<u8> = vec![58u8, 115, 116, 97, 116, 117, 115];
    proof {
        assert(r@ =~= spec_pseudo_status());
    }
    r
}

/// A generic request assembled from one completed stream.
#[derive(Debug)]
pub struct Http2Request {
    pub method: Option<Vec<u8>>,
    pub path: Option<Vec<u8>>,
    pub scheme: Option<Vec<u8>>,
    pub authority: Option<Vec<u8>>,
    pub status: Option<Vec<u8>>,
    pub headers: Vec<(Vec<u8>, Vec<u8>)>,
    pub body: Vec<u8>,
}

#[verifier::ext_equal]
pub struct RequestModel {
    pub method: Option<Seq<u8>>,
    pub path: Option<Seq<u8>>,
    pub scheme: Option<Seq<u8>>,
    pub authority: Option<Seq<u8>>,
    pub status: Option<Seq<u8>>,
    pub headers: Seq<(Seq<u8>, Seq<u8>)>,
    pub body: Seq<u8>,
}

impl View for Http2Request {
    type V = RequestModel;

    open spec fn view(&self) -> RequestModel {
        RequestModel {
            method: match self.method {
                Some(ref v) => Some(v@),
                None => None,
            },
            path: match self.path {
                Some(ref v) => Some(v@),
                None => None,
            },
            scheme: match self.scheme {
                Some(ref v) => Some(v@),
                None => None,
            },
            authority: match self.authority {
                Some(ref v) => Some(v@),
                None => None,
            },
            status: match self.status {
                Some(ref v) => Some(v@),
                None => None,
            },
            headers: entries_view(self.headers@),
            body: self.body@,
        }
    }
}

/// An empty request carrying only the body.
pub open spec fn spec_request_init(body: Seq<u8>) -> RequestModel {
    RequestModel {
        method: None,
        path: None,
        scheme: None,
        authority: None,
        status: None,
        headers: Seq::empty(),
        body,
    }
}

/// Process the header list in order: a pseudo-header sets its canonical
/// field (a later one wins), any other header is appended verbatim.
pub open spec fn spec_request_fold(hs: Seq<(Seq<u8>, Seq<u8>)>, acc: RequestModel) -> RequestModel
    decreases hs.len(),
{
    if hs.len() == 0 {
        acc
    } else {
        let e = hs[0];
        let acc2 = if e.0 == spec_pseudo_method() {
            RequestModel { method: Some(e.1), ..acc }
        } else if e.0 == spec_pseudo_path() {
            RequestModel { path: Some(e.1), ..acc }
        } else if e.0 == spec_pseudo_scheme() {
            RequestModel { scheme: Some(e.1), ..acc }
        } else if e.0 == spec_pseudo_authority() {
            RequestModel { authority: Some(e.1), ..acc }
        } else if e.0 == spec_pseudo_status() {
            RequestModel { status: Some(e.1), ..acc }
        } else {
            RequestModel { headers: acc.headers + seq![e], ..acc }
        };
        spec_request_fold(hs.skip(1), acc2)
    }
}

/// What `into_request` yields from a header list and body.
pub open spec fn spec_request(hs: Seq<(Seq<u8>, Seq<u8>)>, body: Seq<u8>) -> RequestModel {
    spec_request_fold(hs, spec_request_init(body))
}

} // verus!
