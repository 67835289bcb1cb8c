//! HPACK header-block decoding (static and dynamic index tables, integer
//! prefix coding, literal strings).  Huffman-coded literals are not
//! supported and are rejected with an error.  `spec_decode` is the
//! mathematical definition of decoding one block fragment against a table;
//! `HpackContext::decode` is the executable decoder, proved to agree with it.

use vstd::prelude::*;

use crate::frame::copy_range;

verus! {

#[derive(Debug, PartialEq, Eq, Clone, Copy)]
pub enum HpackError {
    Truncated,
    IntegerOverflow,
    InvalidIndex,
    HuffmanUnsupported,
}

/// Octets a table entry accounts for: name length + value length + 32.
pub open spec fn entry_size(e: (Seq<u8>, Seq<u8>)) -> int {
    e.0.len() + e.1.len() + 32int
}

/// Octets the whole dynamic table accounts for.
pub open spec fn table_size(t: Seq<(Seq<u8>, Seq<u8>)>) -> int
    decreases t.len(),
{
    if t.len() == 0 {
        0
    } else {
        entry_size(t[0]) + table_size(t.skip(1))
    }
}

/// Evict oldest entries (the back; the table is newest-first) until the
/// table fits in `max` octets.
pub open spec fn spec_evict(t: Seq<(Seq<u8>, Seq<u8>)>, max: int) -> Seq<(Seq<u8>, Seq<u8>)>
    decreases t.len(),
{
    if table_size(t) <= max {
        t
    } else if t.len() == 0 {
        t
    } else {
        spec_evict(t.drop_last(), max)
    }
}

/// Add an entry at the front, evicting from the back to make room; an entry
/// larger than the whole table empties it and is not added.
pub open spec fn spec_insert(
    t: Seq<(Seq<u8>, Seq<u8>)>,
    max: int,
    e: (Seq<u8>, Seq<u8>),
) -> Seq<(Seq<u8>, Seq<u8>)> {
    if entry_size(e) > max {
        Seq::empty()
    } else {
        seq![e] + spec_evict(t, max - entry_size(e))
    }
}

pub open spec fn pow128(k: nat) -> int
    decreases k,
{
    if k == 0 {
        1
    } else {
        128 * pow128((k - 1) as nat)
    }
}

/// Continuation octets of a prefixed integer: 7 value bits per octet,
/// little-endian groups, the high bit marks continuation.  `fuel` bounds the
/// number of continuation octets still allowed.
pub open spec fn spec_varint_rest(b: Seq<u8>, pos: int, fuel: nat) -> Result<
    (int, int),
    HpackError,
>
    decreases fuel,
{
    if pos >= b.len() {
        Err(HpackError::Truncated)
    } else if b[pos] < 128 {
        Ok((b[pos] as int, pos + 1))
    } else if fuel == 0 {
        Err(HpackError::IntegerOverflow)
    } else {
        match spec_varint_rest(b, pos + 1, (fuel - 1) as nat) {
            Err(e) => Err(e),
            Ok((v, np)) => Ok((b[pos] - 128 + 128 * v, np)),
        }
    }
}

/// A prefixed integer (RFC 7541 section 5.1) whose prefix holds values up
/// to `maxp` (15, 31, 63 or 127).  Yields the value and the next offset.
pub open spec fn spec_varint(b: Seq<u8>, pos: int, maxp: u8) -> Result<(int, int), HpackError>
    recommends
        0 <= pos < b.len(),
{
    let prefix = (b[pos] as int) % (maxp + 1);
    if prefix < maxp {
        Ok((prefix, pos + 1))
    } else {
        match spec_varint_rest(b, pos + 1, 3) {
            Err(e) => Err(e),
            Ok((v, np)) => Ok((maxp + v, np)),
        }
    }
}

proof fn lemma_pow128_4()
    ensures
        pow128(4) == 0x10000000,
{
    assert(pow128(0) == 1);
    assert(pow128(1) == 128);
    assert(pow128(2) == 16384);
    assert(pow128(3) == 2097152);
    assert(pow128(4) == 268435456);
}

pub proof fn lemma_varint_rest_props(b: Seq<u8>, pos: int, fuel: nat)
    ensures
        spec_varint_rest(b, pos, fuel) matches Ok((v, np)) ==> pos < np <= b.len() && 0 <= v
            < pow128(fuel + 1),
    decreases fuel,
{
    assert(pow128(0) == 1);
    assert(pow128(1) == 128);
    if pos >= b.len() {
    } else if b[pos] < 128 {
        lemma_pow128_increases(1, fuel + 1);
    } else if fuel == 0 {
    } else {
        lemma_varint_rest_props(b, pos + 1, (fuel - 1) as nat);
        match spec_varint_rest(b, pos + 1, (fuel - 1) as nat) {
            Ok((v, np)) => {
                let p = pow128(fuel);
                assert(v <= p - 1);
                assert(128 * v <= 128 * (p - 1)) by (nonlinear_arith)
                    requires
                        v <= p - 1,
                ;
                assert(b[pos] - 128 + 128 * v < 128 * p);
                assert(128 * pow128(fuel) == pow128(fuel + 1));
            },
            Err(_) => {},
        }
    }
}

proof fn lemma_pow128_pos(k: nat)
    ensures
        pow128(k) >= 1,
    decreases k,
{
    if k > 0 {
        lemma_pow128_pos((k - 1) as nat);
    }
}

proof fn lemma_pow128_increases(a: nat, c: nat)
    requires
        a <= c,
    ensures
        pow128(a) <= pow128(c),
        pow128(a) >= 1,
    decreases c,
{
    lemma_pow128_pos(a);
    if a < c {
        lemma_pow128_increases(a, (c - 1) as nat);
        lemma_pow128_pos((c - 1) as nat);
        assert(pow128(c) == 128 * pow128((c - 1) as nat));
    }
}

pub proof fn lemma_varint_props(b: Seq<u8>, pos: int, maxp: u8)
    requires
        0 <= pos < b.len(),
    ensures
        spec_varint(b, pos, maxp) matches Ok((v, np)) ==> pos < np <= b.len() && 0 <= v <= maxp
            + 0x10000000 - 1,
{
    lemma_varint_rest_props(b, pos + 1, 3);
    lemma_pow128_4();
}

/// A string literal (RFC 7541 section 5.2): length as a 7-bit prefixed
/// integer, then that many octets.  Huffman-coded strings are rejected.
pub open spec fn spec_string(b: Seq<u8>, pos: int) -> Result<(Seq<u8>, int), HpackError> {
    if pos >= b.len() {
        Err(HpackError::Truncated)
    } else if b[pos] >= 128 {
        Err(HpackError::HuffmanUnsupported)
    } else {
        match spec_varint(b, pos, 127) {
            Err(e) => Err(e),
            Ok((len, np)) => {
                if np + len <= b.len() {
                    Ok((b.subrange(np, np + len), np + len))
                } else {
                    Err(HpackError::Truncated)
                }
            },
        }
    }
}

pub proof fn lemma_string_props(b: Seq<u8>, pos: int)
    requires
        0 <= pos < b.len(),
    ensures
        spec_string(b, pos) matches Ok((s, np)) ==> pos < np <= b.len(),
{
    lemma_varint_props(b, pos, 127);
}

fn varint_rest(b: &[u8], pos: usize, fuel: u8) -> (r: Result<(u32, usize), HpackError>)
    requires
        pos <= b@.len(),
        fuel <= 3,
    ensures
        match r {
            Ok((v, np)) => spec_varint_rest(b@, pos as int, fuel as nat) == Ok::<
                (int, int),
                HpackError,
            >((v as int, np as int)),
            Err(e) => spec_varint_rest(b@, pos as int, fuel as nat) == Err::<(int, int), _>(e),
        },
    decreases fuel,
{
    proof {
        lemma_varint_rest_props(b@, pos as int, fuel as nat);
        lemma_pow128_4();
    }
    if pos >= b.len() {
        Err(HpackError::Truncated)
    } else if b[pos] < 128 {
        Ok(((b[pos]) as u32, pos + 1))
    } else if fuel == 0 {
        Err(HpackError::IntegerOverflow)
    } else {
        match varint_rest(b, pos + 1, fuel - 1) {
            Err(e) => Err(e),
            Ok((v, np)) => {
                proof {
                    lemma_varint_rest_props(b@, pos + 1 as int, (fuel - 1) as nat);
                    lemma_pow128_increases((fuel - 1 + 1) as nat, 4);
                }
                Ok(((b[pos] - 128) as u32 + 128 * v, np))
            },
        }
    }
}

/// Decode a prefixed integer; the value is bounded by `maxp + 0xFFFFFFF`.
fn varint(b: &[u8], pos: usize, maxp: u8) -> (r: Result<(u32, usize), HpackError>)
    requires
        pos < b@.len(),
        1 <= maxp,
    ensures
        match r {
            Ok((v, np)) => spec_varint(b@, pos as int, maxp) == Ok::<(int, int), HpackError>(
                (v as int, np as int),
            ) && pos < np <= b@.len() && v <= maxp + 0x10000000 - 1,
            Err(e) => spec_varint(b@, pos as int, maxp) == Err::<(int, int), _>(e),
        },
{
    proof {
        lemma_varint_props(b@, pos as int, maxp);
    }
    let prefix = (b[pos] as u32) % ((maxp as u32) + 1);
    if prefix < maxp as u32 {
        Ok((prefix, pos + 1))
    } else {
        match varint_rest(b, pos + 1, 3) {
            Err(e) => Err(e),
            Ok((v, np)) => {
                proof {
                    lemma_varint_rest_props(b@, pos + 1, 3);
                    lemma_pow128_4();
                }
                Ok(((maxp as u32) + v, np))
            },
        }
    }
}

/// Read a string literal at `pos`; returns the bytes and the next offset.
fn read_string(b: &[u8], pos: usize) -> (r: Result<(Vec<u8>, usize), HpackError>)
    requires
        pos <= b@.len(),
    ensures
        match r {
            Ok((s, np)) => spec_string(b@, pos as int) == Ok::<(Seq<u8>, int), HpackError>(
                (s@, np as int),
            ) && pos < np <= b@.len() && s@.len() <= b@.len(),
            Err(e) => spec_string(b@, pos as int) == Err::<(Seq<u8>, int), _>(e),
        },
{
    if pos >= b.len() {
        return Err(HpackError::Truncated);
    }
    if b[pos] >= 128 {
        return Err(HpackError::HuffmanUnsupported);
    }
    match varint(b, pos, 127) {
        Err(e) => Err(e),
        Ok((len, np)) => {
            if (len as usize) <= b.len() - np {
                let s = copy_range(b, np, np + (len as usize));
                Ok((s, np + (len as usize)))
            } else {
                Err(HpackError::Truncated)
            }
        },
    }
}

/// The HPACK static table: index 1 through 61, (name, value) byte pairs.
#[verifier::opaque]
pub open spec fn spec_static_entry(i: int) -> (Seq<u8>, Seq<u8>) {
    if i == 1 {
        // :authority
        (seq![58u8, 97, 117, 116, 104, 111, 114, 105, 116, 121], seq![])
    } else if i == 2 {
        // :method: GET
        (seq![58u8, 109, 101, 116, 104, 111, 100], seq![71u8, 69, 84])
    } else if i == 3 {
        // :method: POST
        (seq![58u8, 109, 101, 116, 104, 111, 100], seq![80u8, 79, 83, 84])
    } else if i == 4 {
        // :path: /
        (seq![58u8, 112, 97, 116, 104], seq![47u8])
    } else if i == 5 {
        // :path: /index.html
        (seq![58u8, 112, 97, 116, 104], seq![47u8, 105, 110, 100, 101, 120, 46, 104, 116, 109, 108])
    } else if i == 6 {
        // :scheme: http
        (seq![58u8, 115, 99, 104, 101, 109, 101], seq![104u8, 116, 116, 112])
    } else if i == 7 {
        // :scheme: https
        (seq![58u8, 115, 99, 104, 101, 109, 101], seq![104u8, 116, 116, 112, 115])
    } else if i == 8 {
        // :status: 200
        (seq![58u8, 115, 116, 97, 116, 117, 115], seq![50u8, 48, 48])
    } else if i == 9 {
        // :status: 204
        (seq![58u8, 115, 116, 97, 116, 117, 115], seq![50u8, 48, 52])
    } else if i == 10 {
        // :status: 206
        (seq![58u8, 115, 116, 97, 116, 117, 115], seq![50u8, 48, 54])
    } else if i == 11 {
        // :status: 304
        (seq![58u8, 115, 116, 97, 116, 117, 115], seq![51u8, 48, 52])
    } else if i == 12 {
        // :status: 400
        (seq![58u8, 115, 116, 97, 116, 117, 115], seq![52u8, 48, 48])
    } else if i == 13 {
        // :status: 404
        (seq![58u8, 115, 116, 97, 116, 117, 115], seq![52u8, 48, 52])
    } else if i == 14 {
        // :status: 500
        (seq![58u8, 115, 116, 97, 116, 117, 115], seq![53u8, 48, 48])
    } else if i == 15 {
        // accept-charset
        (seq![97u8, 99, 99, 101, 112, 116, 45, 99, 104, 97, 114, 115, 101, 116], seq![])
    } else if i == 16 {
        // accept-encoding: gzip, deflate
        (seq![97u8, 99, 99, 101, 112, 116, 45, 101, 110, 99, 111, 100, 105, 110, 103], seq![103u8, 122, 105, 112, 44, 32, 100, 101, 102, 108, 97, 116, 101])
    } else if i == 17 {
        // accept-language
        (seq![97u8, 99, 99, 101, 112, 116, 45, 108, 97, 110, 103, 117, 97, 103, 101], seq![])
    } else if i == 18 {
        // accept-ranges
        (seq![97u8, 99, 99, 101, 112, 116, 45, 114, 97, 110, 103, 101, 115], seq![])
    } else if i == 19 {
        // accept
        (seq![97u8, 99, 99, 101, 112, 116], seq![])
    } else if i == 20 {
        // access-control-allow-origin
        (seq![97u8, 99, 99, 101, 115, 115, 45, 99, 111, 110, 116, 114, 111, 108, 45, 97, 108, 108, 111, 119, 45, 111, 114, 105, 103, 105, 110], seq![])
    } else if i == 21 {
        // age
        (seq![97u8, 103, 101], seq![])
    } else if i == 22 {
        // allow
        (seq![97u8, 108, 108, 111, 119], seq![])
    } else if i == 23 {
        // authorization
        (seq![97u8, 117, 116, 104, 111, 114, 105, 122, 97, 116, 105, 111, 110], seq![])
    } else if i == 24 {
        // cache-control
        (seq![99u8, 97, 99, 104, 101, 45, 99, 111, 110, 116, 114, 111, 108], seq![])
    } else if i == 25 {
        // content-disposition
        (seq![99u8, 111, 110, 116, 101, 110, 116, 45, 100, 105, 115, 112, 111, 115, 105, 116, 105, 111, 110], seq![])
    } else if i == 26 {
        // content-encoding
        (seq![99u8, 111, 110, 116, 101, 110, 116, 45, 101, 110, 99, 111, 100, 105, 110, 103], seq![])
    } else if i == 27 {
        // content-language
        (seq![99u8, 111, 110, 116, 101, 110, 116, 45, 108, 97, 110, 103, 117, 97, 103, 101], seq![])
    } else if i == 28 {
        // content-length
        (seq![99u8, 111, 110, 116, 101, 110, 116, 45, 108, 101, 110, 103, 116, 104], seq![])
    } else if i == 29 {
        // content-location
        (seq![99u8, 111, 110, 116, 101, 110, 116, 45, 108, 111, 99, 97, 116, 105, 111, 110], seq![])
    } else if i == 30 {
        // content-range
        (seq![99u8, 111, 110, 116, 101, 110, 116, 45, 114, 97, 110, 103, 101], seq![])
    } else if i == 31 {
        // content-type
        (seq![99u8, 111, 110, 116, 101, 110, 116, 45, 116, 121, 112, 101], seq![])
    } else if i == 32 {
        // cookie
        (seq![99u8, 111, 111, 107, 105, 101], seq![])
    } else if i == 33 {
        // date
        (seq![100u8, 97, 116, 101], seq![])
    } else if i == 34 {
        // etag
        (seq![101u8, 116, 97, 103], seq![])
    } else if i == 35 {
        // expect
        (seq![101u8, 120, 112, 101, 99, 116], seq![])
    } else if i == 36 {
        // expires
        (seq![101u8, 120, 112, 105, 114, 101, 115], seq![])
    } else if i == 37 {
        // from
        (seq![102u8, 114, 111, 109], seq![])
    } else if i == 38 {
        // host
        (seq![104u8, 111, 115, 116], seq![])
    } else if i == 39 {
        // if-match
        (seq![105u8, 102, 45, 109, 97, 116, 99, 104], seq![])
    } else if i == 40 {
        // if-modified-since
        (seq![105u8, 102, 45, 109, 111, 100, 105, 102, 105, 101, 100, 45, 115, 105, 110, 99, 101], seq![])
    } else if i == 41 {
        // if-none-match
        (seq![105u8, 102, 45, 110, 111, 110, 101, 45, 109, 97, 116, 99, 104], seq![])
    } else if i == 42 {
        // if-range
        (seq![105u8, 102, 45, 114, 97, 110, 103, 101], seq![])
    } else if i == 43 {
        // if-unmodified-since
        (seq![105u8, 102, 45, 117, 110, 109, 111, 100, 105, 102, 105, 101, 100, 45, 115, 105, 110, 99, 101], seq![])
    } else if i == 44 {
        // last-modified
        (seq![108u8, 97, 115, 116, 45, 109, 111, 100, 105, 102, 105, 101, 100], seq![])
    } else if i == 45 {
        // link
        (seq![108u8, 105, 110, 107], seq![])
    } else if i == 46 {
        // location
        (seq![108u8, 111, 99, 97, 116, 105, 111, 110], seq![])
    } else if i == 47 {
        // max-forwards
        (seq![109u8, 97, 120, 45, 102, 111, 114, 119, 97, 114, 100, 115], seq![])
    } else if i == 48 {
        // proxy-authenticate
        (seq![112u8, 114, 111, 120, 121, 45, 97, 117, 116, 104, 101, 110, 116, 105, 99, 97, 116, 101], seq![])
    } else if i == 49 {
        // proxy-authorization
        (seq![112u8, 114, 111, 120, 121, 45, 97, 117, 116, 104, 111, 114, 105, 122, 97, 116, 105, 111, 110], seq![])
    } else if i == 50 {
        // range
        (seq![114u8, 97, 110, 103, 101], seq![])
    } else if i == 51 {
        // referer
        (seq![114u8, 101, 102, 101, 114, 101, 114], seq![])
    } else if i == 52 {
        // refresh
        (seq![114u8, 101, 102, 114, 101, 115, 104], seq![])
    } else if i == 53 {
        // retry-after
        (seq![114u8, 101, 116, 114, 121, 45, 97, 102, 116, 101, 114], seq![])
    } else if i == 54 {
        // server
        (seq![115u8, 101, 114, 118, 101, 114], seq![])
    } else if i == 55 {
        // set-cookie
        (seq![115u8, 101, 116, 45, 99, 111, 111, 107, 105, 101], seq![])
    } else if i == 56 {
        // strict-transport-security
        (seq![115u8, 116, 114, 105, 99, 116, 45, 116, 114, 97, 110, 115, 112, 111, 114, 116, 45, 115, 101, 99, 117, 114, 105, 116, 121], seq![])
    } else if i == 57 {
        // transfer-encoding
        (seq![116u8, 114, 97, 110, 115, 102, 101, 114, 45, 101, 110, 99, 111, 100, 105, 110, 103], seq![])
    } else if i == 58 {
        // user-agent
        (seq![117u8, 115, 101, 114, 45, 97, 103, 101, 110, 116], seq![])
    } else if i == 59 {
        // vary
        (seq![118u8, 97, 114, 121], seq![])
    } else if i == 60 {
        // via
        (seq![118u8, 105, 97], seq![])
    } else if i == 61 {
        // www-authenticate
        (seq![119u8, 119, 119, 45, 97, 117, 116, 104, 101, 110, 116, 105, 99, 97, 116, 101], seq![])
    } else {
        (seq![], seq![])
    }
}

/// Static-table lookup; `None` outside 1..=61.
fn static_entry(i: u32) -> (r: Option<(Vec<u8>, Vec<u8>)>)
    ensures
        1 <= i <= 61 ==> (r matches Some(e) && e.0@ == spec_static_entry(i as int).0
            && e.1@ == spec_static_entry(i as int).1),
        !(1 <= i <= 61) ==> r is None,
{
    proof {
        reveal(spec_static_entry);
    }
    if i < 1 || i > 61 {
        return None;
    }
    if i == 1 {
        Some((vec![58u8, 97, 117, 116, 104, 111, 114, 105, 116, 121], Vec::new()))
    } else if i == 2 {
        Some((vec![58u8, 109, 101, 116, 104, 111, 100], vec![71u8, 69, 84]))
    } else if i == 3 {
        Some((vec![58u8, 109, 101, 116, 104, 111, 100], vec![80u8, 79, 83, 84]))
    } else if i == 4 {
        Some((vec![58u8, 112, 97, 116, 104], vec![47u8]))
    } else if i == 5 {
        Some((vec![58u8, 112, 97, 116, 104], vec![47u8, 105, 110, 100, 101, 120, 46, 104, 116, 109, 108]))
    } else if i == 6 {
        Some((vec![58u8, 115, 99, 104, 101, 109, 101], vec![104u8, 116, 116, 112]))
    } else if i == 7 {
        Some((vec![58u8, 115, 99, 104, 101, 109, 101], vec![104u8, 116, 116, 112, 115]))
    } else if i == 8 {
        Some((vec![58u8, 115, 116, 97, 116, 117, 115], vec![50u8, 48, 48]))
    } else if i == 9 {
        Some((vec![58u8, 115, 116, 97, 116, 117, 115], vec![50u8, 48, 52]))
    } else if i == 10 {
        Some((vec![58u8, 115, 116, 97, 116, 117, 115], vec![50u8, 48, 54]))
    } else if i == 11 {
        Some((vec![58u8, 115, 116, 97, 116, 117, 115], vec![51u8, 48, 52]))
    } else if i == 12 {
        Some((vec![58u8, 115, 116, 97, 116, 117, 115], vec![52u8, 48, 48]))
    } else if i == 13 {
        Some((vec![58u8, 115, 116, 97, 116, 117, 115], vec![52u8, 48, 52]))
    } else if i == 14 {
        Some((vec![58u8, 115, 116, 97, 116, 117, 115], vec![53u8, 48, 48]))
    } else if i == 15 {
        Some((vec![97u8, 99, 99, 101, 112, 116, 45, 99, 104, 97, 114, 115, 101, 116], Vec::new()))
    } else if i == 16 {
        Some((vec![97u8, 99, 99, 101, 112, 116, 45, 101, 110, 99, 111, 100, 105, 110, 103], vec![103u8, 122, 105, 112, 44, 32, 100, 101, 102, 108, 97, 116, 101]))
    } else if i == 17 {
        Some((vec![97u8, 99, 99, 101, 112, 116, 45, 108, 97, 110, 103, 117, 97, 103, 101], Vec::new()))
    } else if i == 18 {
        Some((vec![97u8, 99, 99, 101, 112, 116, 45, 114, 97, 110, 103, 101, 115], Vec::new()))
    } else if i == 19 {
        Some((vec![97u8, 99, 99, 101, 112, 116], Vec::new()))
    } else if i == 20 {
        Some((vec![97u8, 99, 99, 101, 115, 115, 45, 99, 111, 110, 116, 114, 111, 108, 45, 97, 108, 108, 111, 119, 45, 111, 114, 105, 103, 105, 110], Vec::new()))
    } else if i == 21 {
        Some((vec![97u8, 103, 101], Vec::new()))
    } else if i == 22 {
        Some((vec![97u8, 108, 108, 111, 119], Vec::new()))
    } else if i == 23 {
        Some((vec![97u8, 117, 116, 104, 111, 114, 105, 122, 97, 116, 105, 111, 110], Vec::new()))
    } else if i == 24 {
        Some((vec![99u8, 97, 99, 104, 101, 45, 99, 111, 110, 116, 114, 111, 108], Vec::new()))
    } else if i == 25 {
        Some((vec![99u8, 111, 110, 116, 101, 110, 116, 45, 100, 105, 115, 112, 111, 115, 105, 116, 105, 111, 110], Vec::new()))
    } else if i == 26 {
        Some((vec![99u8, 111, 110, 116, 101, 110, 116, 45, 101, 110, 99, 111, 100, 105, 110, 103], Vec::new()))
    } else if i == 27 {
        Some((vec![99u8, 111, 110, 116, 101, 110, 116, 45, 108, 97, 110, 103, 117, 97, 103, 101], Vec::new()))
    } else if i == 28 {
        Some((vec![99u8, 111, 110, 116, 101, 110, 116, 45, 108, 101, 110, 103, 116, 104], Vec::new()))
    } else if i == 29 {
        Some((vec![99u8, 111, 110, 116, 101, 110, 116, 45, 108, 111, 99, 97, 116, 105, 111, 110], Vec::new()))
    } else if i == 30 {
        Some((vec![99u8, 111, 110, 116, 101, 110, 116, 45, 114, 97, 110, 103, 101], Vec::new()))
    } else if i == 31 {
        Some((vec![99u8, 111, 110, 116, 101, 110, 116, 45, 116, 121, 112, 101], Vec::new()))
    } else if i == 32 {
        Some((vec![99u8, 111, 111, 107, 105, 101], Vec::new()))
    } else if i == 33 {
        Some((vec![100u8, 97, 116, 101], Vec::new()))
    } else if i == 34 {
        Some((vec![101u8, 116, 97, 103], Vec::new()))
    } else if i == 35 {
        Some((vec![101u8, 120, 112, 101, 99, 116], Vec::new()))
    } else if i == 36 {
        Some((vec![101u8, 120, 112, 105, 114, 101, 115], Vec::new()))
    } else if i == 37 {
        Some((vec![102u8, 114, 111, 109], Vec::new()))
    } else if i == 38 {
        Some((vec![104u8, 111, 115, 116], Vec::new()))
    } else if i == 39 {
        Some((vec![105u8, 102, 45, 109, 97, 116, 99, 104], Vec::new()))
    } else if i == 40 {
        Some((vec![105u8, 102, 45, 109, 111, 100, 105, 102, 105, 101, 100, 45, 115, 105, 110, 99, 101], Vec::new()))
    } else if i == 41 {
        Some((vec![105u8, 102, 45, 110, 111, 110, 101, 45, 109, 97, 116, 99, 104], Vec::new()))
    } else if i == 42 {
        Some((vec![105u8, 102, 45, 114, 97, 110, 103, 101], Vec::new()))
    } else if i == 43 {
        Some((vec![105u8, 102, 45, 117, 110, 109, 111, 100, 105, 102, 105, 101, 100, 45, 115, 105, 110, 99, 101], Vec::new()))
    } else if i == 44 {
        Some((vec![108u8, 97, 115, 116, 45, 109, 111, 100, 105, 102, 105, 101, 100], Vec::new()))
    } else if i == 45 {
        Some((vec![108u8, 105, 110, 107], Vec::new()))
    } else if i == 46 {
        Some((vec![108u8, 111, 99, 97, 116, 105, 111, 110], Vec::new()))
    } else if i == 47 {
        Some((vec![109u8, 97, 120, 45, 102, 111, 114, 119, 97, 114, 100, 115], Vec::new()))
    } else if i == 48 {
        Some((vec![112u8, 114, 111, 120, 121, 45, 97, 117, 116, 104, 101, 110, 116, 105, 99, 97, 116, 101], Vec::new()))
    } else if i == 49 {
        Some((vec![112u8, 114, 111, 120, 121, 45, 97, 117, 116, 104, 111, 114, 105, 122, 97, 116, 105, 111, 110], Vec::new()))
    } else if i == 50 {
        Some((vec![114u8, 97, 110, 103, 101], Vec::new()))
    } else if i == 51 {
        Some((vec![114u8, 101, 102, 101, 114, 101, 114], Vec::new()))
    } else if i == 52 {
        Some((vec![114u8, 101, 102, 114, 101, 115, 104], Vec::new()))
    } else if i == 53 {
        Some((vec![114u8, 101, 116, 114, 121, 45, 97, 102, 116, 101, 114], Vec::new()))
    } else if i == 54 {
        Some((vec![115u8, 101, 114, 118, 101, 114], Vec::new()))
    } else if i == 55 {
        Some((vec![115u8, 101, 116, 45, 99, 111, 111, 107, 105, 101], Vec::new()))
    } else if i == 56 {
        Some((vec![115u8, 116, 114, 105, 99, 116, 45, 116, 114, 97, 110, 115, 112, 111, 114, 116, 45, 115, 101, 99, 117, 114, 105, 116, 121], Vec::new()))
    } else if i == 57 {
        Some((vec![116u8, 114, 97, 110, 115, 102, 101, 114, 45, 101, 110, 99, 111, 100, 105, 110, 103], Vec::new()))
    } else if i == 58 {
        Some((vec![117u8, 115, 101, 114, 45, 97, 103, 101, 110, 116], Vec::new()))
    } else if i == 59 {
        Some((vec![118u8, 97, 114, 121], Vec::new()))
    } else if i == 60 {
        Some((vec![118u8, 105, 97], Vec::new()))
    } else if i == 61 {
        Some((vec![119u8, 119, 119, 45, 97, 117, 116, 104, 101, 110, 116, 105, 99, 97, 116, 101], Vec::new()))
    } else {
        None
    }
}

/// Look an index up: 1..=61 is the static table, 62 onwards the dynamic
/// table, newest entry first.
pub open spec fn spec_lookup(t: Seq<(Seq<u8>, Seq<u8>)>, idx: int) -> Option<(Seq<u8>, Seq<u8>)> {
    if 1 <= idx <= 61 {
        Some(spec_static_entry(idx))
    } else if 62 <= idx < 62 + t.len() {
        Some(t[idx - 62])
    } else {
        None
    }
}

/// Decode one header field's name and value starting at `pos`, where the
/// first octet's integer prefix holds values up to `maxp`.  A zero index
/// means a literal name; otherwise the name is taken from the table.
pub open spec fn spec_field(
    t: Seq<(Seq<u8>, Seq<u8>)>,
    b: Seq<u8>,
    pos: int,
    maxp: u8,
) -> Result<((Seq<u8>, Seq<u8>), int), HpackError> {
    match spec_varint(b, pos, maxp) {
        Err(e) => Err(e),
        Ok((idx, np)) => {
            if idx == 0 {
                match spec_string(b, np) {
                    Err(e) => Err(e),
                    Ok((name, np2)) => match spec_string(b, np2) {
                        Err(e) => Err(e),
                        Ok((value, np3)) => Ok(((name, value), np3)),
                    },
                }
            } else {
                match spec_lookup(t, idx) {
                    None => Err(HpackError::InvalidIndex),
                    Some(en) => match spec_string(b, np) {
                        Err(e) => Err(e),
                        Ok((value, np2)) => Ok(((en.0, value), np2)),
                    },
                }
            }
        },
    }
}

pub proof fn lemma_field_props(t: Seq<(Seq<u8>, Seq<u8>)>, b: Seq<u8>, pos: int, maxp: u8)
    requires
        0 <= pos < b.len(),
        1 <= maxp,
    ensures
        spec_field(t, b, pos, maxp) matches Ok((e, np)) ==> pos < np <= b.len(),
{
    lemma_varint_props(b, pos, maxp);
    match spec_varint(b, pos, maxp) {
        Err(_) => {},
        Ok((idx, np)) => {
            if np < b.len() {
                lemma_string_props(b, np);
            }
            if idx == 0 {
                match spec_string(b, np) {
                    Err(_) => {},
                    Ok((name, np2)) => {
                        if np2 < b.len() {
                            lemma_string_props(b, np2);
                        }
                    },
                }
            }
        },
    }
}

/// The result of decoding a header-block fragment: the headers in order,
/// their accounted size, and the dynamic table and its capacity afterwards.
#[verifier::ext_equal]
pub struct DecodeOut {
    pub headers: Seq<(Seq<u8>, Seq<u8>)>,
    pub size: int,
    pub table: Seq<(Seq<u8>, Seq<u8>)>,
    pub max: int,
}

/// Decode the fragment `b` from offset `pos` against a dynamic table `t`
/// of capacity `max`: indexed fields, literal fields with or without
/// incremental indexing, and dynamic table size updates.
pub open spec fn spec_decode(
    t: Seq<(Seq<u8>, Seq<u8>)>,
    max: int,
    b: Seq<u8>,
    pos: int,
) -> Result<DecodeOut, HpackError>
    decreases b.len() - pos,
    when 0 <= pos
    via spec_decode_decreases
{
    if pos >= b.len() {
        Ok(DecodeOut { headers: seq![], size: 0, table: t, max })
    } else {
        let c = b[pos];
        if c >= 128 {
            match spec_varint(b, pos, 127) {
                Err(e) => Err(e),
                Ok((idx, np)) => match spec_lookup(t, idx) {
                    None => Err(HpackError::InvalidIndex),
                    Some(e) => match spec_decode(t, max, b, np) {
                        Err(er) => Err(er),
                        Ok(out) => Ok(
                            DecodeOut {
                                headers: seq![e] + out.headers,
                                size: entry_size(e) + out.size,
                                table: out.table,
                                max: out.max,
                            },
                        ),
                    },
                },
            }
        } else if c >= 64 {
            match spec_field(t, b, pos, 63) {
                Err(e) => Err(e),
                Ok((e, np)) => match spec_decode(spec_insert(t, max, e), max, b, np) {
                    Err(er) => Err(er),
                    Ok(out) => Ok(
                        DecodeOut {
                            headers: seq![e] + out.headers,
                            size: entry_size(e) + out.size,
                            table: out.table,
                            max: out.max,
                        },
                    ),
                },
            }
        } else if c >= 32 {
            match spec_varint(b, pos, 31) {
                Err(e) => Err(e),
                Ok((v, np)) => spec_decode(spec_evict(t, v), v, b, np),
            }
        } else {
            match spec_field(t, b, pos, 15) {
                Err(e) => Err(e),
                Ok((e, np)) => match spec_decode(t, max, b, np) {
                    Err(er) => Err(er),
                    Ok(out) => Ok(
                        DecodeOut {
                            headers: seq![e] + out.headers,
                            size: entry_size(e) + out.size,
                            table: out.table,
                            max: out.max,
                        },
                    ),
                },
            }
        }
    }
}

#[via_fn]
proof fn spec_decode_decreases(t: Seq<(Seq<u8>, Seq<u8>)>, max: int, b: Seq<u8>, pos: int) {
    if pos < b.len() {
        let c = b[pos];
        if c >= 128 {
            lemma_varint_props(b, pos, 127);
        } else if c >= 64 {
            lemma_field_props(t, b, pos, 63);
        } else if c >= 32 {
            lemma_varint_props(b, pos, 31);
        } else {
            lemma_field_props(t, b, pos, 15);
        }
    }
}

/// The (name, value) views of a list of byte-pair entries.
pub open spec fn entries_view(v: Seq<(Vec<u8>, Vec<u8>)>) -> Seq<(Seq<u8>, Seq<u8>)> {
    v.map_values(|e: (Vec<u8>, Vec<u8>)| (e.0@, e.1@))
}

pub proof fn lemma_table_size_nonneg(t: Seq<(Seq<u8>, Seq<u8>)>)
    ensures
        table_size(t) >= 0,
    decreases t.len(),
{
    if t.len() > 0 {
        lemma_table_size_nonneg(t.skip(1));
    }
}

pub proof fn lemma_table_size_last(t: Seq<(Seq<u8>, Seq<u8>)>)
    requires
        t.len() > 0,
    ensures
        table_size(t) == table_size(t.drop_last()) + entry_size(t.last()),
    decreases t.len(),
{
    if t.len() == 1 {
        assert(t.drop_last() =~= Seq::empty());
        assert(t.skip(1) =~= Seq::empty());
    } else {
        lemma_table_size_last(t.skip(1));
        assert(t.skip(1).drop_last() =~= t.drop_last().skip(1));
        assert(t.skip(1).last() == t.last());
        assert(t.drop_last()[0] == t[0]);
    }
}

pub proof fn lemma_entry_le_table(t: Seq<(Seq<u8>, Seq<u8>)>, i: int)
    requires
        0 <= i < t.len(),
    ensures
        entry_size(t[i]) <= table_size(t),
    decreases t.len(),
{
    lemma_table_size_nonneg(t.skip(1));
    if i == 0 {
    } else {
        lemma_entry_le_table(t.skip(1), i - 1);
    }
}

pub proof fn lemma_evict_le(t: Seq<(Seq<u8>, Seq<u8>)>, max: int)
    requires
        max >= 0,
    ensures
        table_size(spec_evict(t, max)) <= max,
    decreases t.len(),
{
    if table_size(t) <= max {
    } else if t.len() == 0 {
    } else {
        lemma_evict_le(t.drop_last(), max);
    }
}

pub proof fn lemma_cons_size(e: (Seq<u8>, Seq<u8>), t: Seq<(Seq<u8>, Seq<u8>)>)
    ensures
        table_size(seq![e] + t) == entry_size(e) + table_size(t),
{
    let c = seq![e] + t;
    assert(c[0] == e);
    assert(c.skip(1) =~= t);
}

/// HPACK decoder state for one connection: the dynamic index table
/// (newest entry first) and its octet capacity.
#[derive(Debug)]
pub struct HpackContext {
    pub dynamic: Vec<(Vec<u8>, Vec<u8>)>,
    pub max_size: u32,
    pub size: u64,
}

#[verifier::ext_equal]
pub struct HpackModel {
    pub table: Seq<(Seq<u8>, Seq<u8>)>,
    pub max: int,
}

impl View for HpackContext {
    type V = HpackModel;

    open spec fn view(&self) -> HpackModel {
        HpackModel { table: entries_view(self.dynamic@), max: self.max_size as int }
    }
}

impl HpackContext {
    /// The stored octet count matches the table, and the table fits its
    /// capacity.
    pub open spec fn wf(&self) -> bool {
        &&& self.size == table_size(self@.table)
        &&& table_size(self@.table) <= self.max_size
    }

    /// Fresh decoder with an empty dynamic table of the given capacity.
    pub fn new(max_size: u32) -> (c: HpackContext)
        ensures
            c.wf(),
            c@.table == Seq::<(Seq<u8>, Seq<u8>)>::empty(),
            c@.max == max_size as int,
    {
        let c = HpackContext { dynamic: Vec::new(), max_size, size: 0 };
        proof {
            assert(c@.table =~= Seq::<(Seq<u8>, Seq<u8>)>::empty());
        }
        c
    }

    /// Evict oldest entries until the table holds at most `limit` octets.
    fn evict_to(&mut self, limit: u64)
        requires
            old(self).size == table_size(old(self)@.table),
        ensures
            final(self)@.table == spec_evict(old(self)@.table, limit as int),
            final(self)@.max == old(self)@.max,
            final(self).size == table_size(final(self)@.table),
            final(self).size <= limit,
    {
        proof {
            lemma_table_size_nonneg(self@.table);
        }
        while self.size > limit
            invariant
                self.size == table_size(self@.table),
                spec_evict(old(self)@.table, limit as int) == spec_evict(
                    self@.table,
                    limit as int,
                ),
                self@.max == old(self)@.max,
            decreases self@.table.len(),
        {
            proof {
                lemma_table_size_nonneg(self@.table.skip(1));
                if self@.table.len() == 0 {
                    assert(table_size(self@.table) == 0);
                }
                lemma_table_size_last(self@.table);
                lemma_table_size_nonneg(self@.table.drop_last());
            }
            let ghost pre = self@.table;
            let e = self.dynamic.pop().unwrap();
            proof {
                assert(entries_view(self.dynamic@) =~= pre.drop_last());
                assert(entry_size(pre.last()) == e.0@.len() + e.1@.len() + 32);
            }
            self.size = self.size - (e.0.len() as u64 + e.1.len() as u64 + 32);
        }
    }

    /// Set a new capacity and evict to fit (a dynamic table size update or
    /// a HEADER_TABLE_SIZE setting).
    pub fn resize(&mut self, value: u32)
        requires
            old(self).wf(),
        ensures
            final(self).wf(),
            final(self)@.table == spec_evict(old(self)@.table, value as int),
            final(self)@.max == value as int,
    {
        self.max_size = value;
        self.evict_to(value as u64);
    }

    /// Add an entry at the front of the dynamic table, evicting to fit.
    fn insert_entry(&mut self, name: Vec<u8>, value: Vec<u8>)
        requires
            old(self).wf(),
            name@.len() + value@.len() + 32 <= u64::MAX,
        ensures
            final(self).wf(),
            final(self)@.table == spec_insert(
                old(self)@.table,
                old(self)@.max,
                (name@, value@),
            ),
            final(self)@.max == old(self)@.max,
    {
        let es: u64 = name.len() as u64 + value.len() as u64 + 32;
        if es > self.max_size as u64 {
            self.dynamic.clear();
            self.size = 0;
            proof {
                assert(entries_view(self.dynamic@) =~= Seq::<(Seq<u8>, Seq<u8>)>::empty());
            }
        } else {
            self.evict_to(self.max_size as u64 - es);
            let ghost evicted = self@.table;
            self.dynamic.insert(0, (name, value));
            self.size = self.size + es;
            proof {
                assert(entries_view(self.dynamic@) =~= seq![(name@, value@)] + evicted);
                lemma_cons_size((name@, value@), evicted);
            }
        }
    }

    /// Resolve an index to a cloned (name, value) pair, or `None` when the
    /// index is out of range.
    fn lookup_entry(&self, idx: u32) -> (r: Option<(Vec<u8>, Vec<u8>)>)
        requires
            self.wf(),
        ensures
            match r {
                Some(e) => spec_lookup(self@.table, idx as int) == Some((e.0@, e.1@))
                    && entry_size((e.0@, e.1@)) <= self.max_size as int + 0x100,
                None => spec_lookup(self@.table, idx as int) is None,
            },
    {
        if 1 <= idx && idx <= 61 {
            let e = static_entry(idx).unwrap();
            proof {
                reveal(spec_static_entry);
                assert(entry_size((e.0@, e.1@)) <= 0x100);
            }
            Some(e)
        } else if idx >= 62 && ((idx - 62) as usize) < self.dynamic.len() {
            let i = (idx - 62) as usize;
            let name = copy_range(self.dynamic[i].0.as_slice(), 0, self.dynamic[i].0.len());
            let value = copy_range(self.dynamic[i].1.as_slice(), 0, self.dynamic[i].1.len());
            proof {
                lemma_entry_le_table(self@.table, idx - 62);
                lemma_table_size_nonneg(self@.table);
                assert(self@.table[idx - 62] == (name@, value@));
            }
            Some((name, value))
        } else {
            None
        }
    }

    /// Decode one field's name and value at `pos` (prefix `maxp`): a zero
    /// index means both are literal strings, otherwise the name comes from
    /// the table and the value is a literal string.
    fn read_field(&self, b: &[u8], pos: usize, maxp: u8) -> (r: Result<
        ((Vec<u8>, Vec<u8>), usize),
        HpackError,
    >)
        requires
            self.wf(),
            pos < b@.len(),
            maxp == 15 || maxp == 63,
        ensures
            match r {
                Ok((e, np)) => spec_field(self@.table, b@, pos as int, maxp) == Ok::<
                    ((Seq<u8>, Seq<u8>), int),
                    HpackError,
                >(((e.0@, e.1@), np as int)) && pos < np <= b@.len() && entry_size((e.0@, e.1@))
                    <= self.max_size as int + 0x100 + 2 * b@.len() + 32,
                Err(e) => spec_field(self@.table, b@, pos as int, maxp) == Err::<
                    ((Seq<u8>, Seq<u8>), int),
                    _,
                >(e),
            },
    {
        match varint(b, pos, maxp) {
            Err(e) => Err(e),
            Ok((idx, np)) => {
                if idx == 0 {
                    if np >= b.len() {
                        return Err(HpackError::Truncated);
                    }
                    match read_string(b, np) {
                        Err(e) => Err(e),
                        Ok((name, np2)) => match read_string(b, np2) {
                            Err(e) => Err(e),
                            Ok((value, np3)) => Ok(((name, value), np3)),
                        },
                    }
                } else {
                    match self.lookup_entry(idx) {
                        None => Err(HpackError::InvalidIndex),
                        Some(en) => {
                            if np >= b.len() {
                                return Err(HpackError::Truncated);
                            }
                            match read_string(b, np) {
                                Err(e) => Err(e),
                                Ok((value, np2)) => Ok(((en.0, value), np2)),
                            }
                        },
                    }
                }
            },
        }
    }


    /// Decode the single field at `pos`, appending its header (if any) to
    /// `headers`, accounting its size into `size_acc`, and updating the
    /// dynamic table; returns the offset of the next field.
    #[verifier::rlimit(100)]
    fn decode_step(
        &mut self,
        fragment: &[u8],
        pos: usize,
        headers: &mut Vec<(Vec<u8>, Vec<u8>)>,
        size_acc: &mut u64,
    ) -> (r: Result<usize, HpackError>)
        requires
            old(self).wf(),
            pos < fragment@.len(),
            fragment@.len() < 0x1000000,
            *old(size_acc) < 0x200000000000000,
        ensures
            match r {
                Ok(np) => {
                    &&& pos < np <= fragment@.len()
                    &&& final(self).wf()
                    &&& old(headers)@.len() <= final(headers)@.len()
                    &&& final(headers)@.take(old(headers)@.len() as int) == old(headers)@
                    &&& *old(size_acc) <= *final(size_acc)
                    &&& *final(size_acc) - *old(size_acc) <= 0x200000000
                    &&& spec_decode(old(self)@.table, old(self)@.max, fragment@, pos as int)
                        == (match spec_decode(
                        final(self)@.table,
                        final(self)@.max,
                        fragment@,
                        np as int,
                    ) {
                        Err(e2) => Err::<DecodeOut, HpackError>(e2),
                        Ok(out2) => Ok(
                            DecodeOut {
                                headers: entries_view(
                                    final(headers)@.skip(old(headers)@.len() as int),
                                ) + out2.headers,
                                size: (*final(size_acc) - *old(size_acc)) + out2.size,
                                table: out2.table,
                                max: out2.max,
                            },
                        ),
                    })
                },
                Err(e) => final(self).wf() && spec_decode(
                    old(self)@.table,
                    old(self)@.max,
                    fragment@,
                    pos as int,
                ) == Err::<DecodeOut, HpackError>(e),
            },
    {
        let ghost t_pre = self@.table;
        let ghost m_pre = self@.max;
        let ghost hdrs_pre = headers@;
        let c = fragment[pos];
        if c >= 128 {
            match varint(fragment, pos, 127) {
                Err(e) => Err(e),
                Ok((idx, np)) => {
                    match self.lookup_entry(idx) {
                        None => Err(HpackError::InvalidIndex),
                        Some(e) => {
                            let es: u64 = e.0.len() as u64 + e.1.len() as u64 + 32;
                            let ghost ev = (e.0@, e.1@);
                            headers.push(e);
                            *size_acc = *size_acc + es;
                            proof {
                                lemma_step_indexed(
                                    t_pre,
                                    m_pre,
                                    fragment@,
                                    pos as int,
                                    idx as int,
                                    np as int,
                                    ev,
                                );
                                assert(headers@.take(hdrs_pre.len() as int) =~= hdrs_pre);
                                assert(entries_view(headers@.skip(hdrs_pre.len() as int))
                                    =~= seq![ev]);
                            }
                            Ok(np)
                        },
                    }
                },
            }
        } else if c >= 64 {
            match self.read_field(fragment, pos, 63) {
                Err(e) => Err(e),
                Ok((e, np)) => {
                    let es: u64 = e.0.len() as u64 + e.1.len() as u64 + 32;
                    let ghost ev = (e.0@, e.1@);
                    let name_copy = copy_range(e.0.as_slice(), 0, e.0.len());
                    let value_copy = copy_range(e.1.as_slice(), 0, e.1.len());
                    proof {
                        assert(name_copy@ =~= e.0@);
                        assert(value_copy@ =~= e.1@);
                    }
                    self.insert_entry(name_copy, value_copy);
                    headers.push(e);
                    *size_acc = *size_acc + es;
                    proof {
                        lemma_step_insert(t_pre, m_pre, fragment@, pos as int, ev, np as int);
                        assert(self@.table == spec_insert(t_pre, m_pre, ev));
                        assert(headers@.take(hdrs_pre.len() as int) =~= hdrs_pre);
                        assert(entries_view(headers@.skip(hdrs_pre.len() as int)) =~= seq![ev]);
                    }
                    Ok(np)
                },
            }
        } else if c >= 32 {
            match varint(fragment, pos, 31) {
                Err(e) => Err(e),
                Ok((v, np)) => {
                    self.resize(v);
                    proof {
                        lemma_step_resize(t_pre, m_pre, fragment@, pos as int, v as int, np as int);
                        assert(headers@.take(hdrs_pre.len() as int) =~= hdrs_pre);
                        assert(entries_view(headers@.skip(hdrs_pre.len() as int)) =~= Seq::<
                            (Seq<u8>, Seq<u8>),
                        >::empty());
                        match spec_decode(self@.table, self@.max, fragment@, np as int) {
                            Ok(out2) => {
                                assert(entries_view(headers@.skip(hdrs_pre.len() as int))
                                    + out2.headers =~= out2.headers);
                            },
                            Err(_) => {},
                        }
                    }
                    Ok(np)
                },
            }
        } else {
            match self.read_field(fragment, pos, 15) {
                Err(e) => Err(e),
                Ok((e, np)) => {
                    let es: u64 = e.0.len() as u64 + e.1.len() as u64 + 32;
                    let ghost ev = (e.0@, e.1@);
                    headers.push(e);
                    *size_acc = *size_acc + es;
                    proof {
                        lemma_step_plain(t_pre, m_pre, fragment@, pos as int, ev, np as int);
                        assert(headers@.take(hdrs_pre.len() as int) =~= hdrs_pre);
                        assert(entries_view(headers@.skip(hdrs_pre.len() as int)) =~= seq![ev]);
                    }
                    Ok(np)
                },
            }
        }
    }

    /// Decode one header-block fragment, returning the decoded headers in
    /// order together with their accounted size, and updating the dynamic
    /// table in place.  Fragments come from single frames, so their length
    /// is below the 24-bit frame size limit.
    #[verifier::rlimit(100)]
    pub fn decode(&mut self, fragment: &[u8]) -> (r: Result<
        (Vec<(Vec<u8>, Vec<u8>)>, u64),
        HpackError,
    >)
        requires
            old(self).wf(),
            fragment@.len() < 0x1000000,
        ensures
            final(self).wf(),
            r matches Ok((h, sz)) ==> {
                &&& spec_decode(old(self)@.table, old(self)@.max, fragment@, 0) matches Ok(out)
                &&& out.headers == entries_view(h@)
                &&& out.size == sz as int
                &&& out.table == final(self)@.table
                &&& out.max == final(self)@.max
                &&& sz < 0x200000000000000
            },
            r matches Err(e) ==> spec_decode(old(self)@.table, old(self)@.max, fragment@, 0)
                == Err::<DecodeOut, HpackError>(e),
    {
        let ghost t0 = self@.table;
        let ghost m0 = self@.max;
        let mut pos: usize = 0;
        let mut headers: Vec<(Vec<u8>, Vec<u8>)> = Vec::new();
        let mut size_acc: u64 = 0;
        proof {
            assert(entries_view(headers@) =~= Seq::<(Seq<u8>, Seq<u8>)>::empty());
        }
        while pos < fragment.len()
            invariant
                self.wf(),
                t0 == old(self)@.table,
                m0 == old(self)@.max,
                pos <= fragment@.len(),
                fragment@.len() < 0x1000000,
                size_acc <= pos * 0x200000000,
                match spec_decode(self@.table, self@.max, fragment@, pos as int) {
                    Ok(out) => {
                        &&& spec_decode(t0, m0, fragment@, 0) matches Ok(tot)
                        &&& tot.headers == entries_view(headers@) + out.headers
                        &&& tot.size == size_acc + out.size
                        &&& tot.table == out.table
                        &&& tot.max == out.max
                    },
                    Err(e) => spec_decode(t0, m0, fragment@, 0) == Err::<DecodeOut, HpackError>(
                        e,
                    ),
                },
            decreases fragment@.len() - pos,
        {
            let ghost t_pre = self@.table;
            let ghost m_pre = self@.max;
            let ghost hdrs_pre = headers@;
            let ghost acc_pre = size_acc as int;
            match self.decode_step(fragment, pos, &mut headers, &mut size_acc) {
                Err(e) => {
                    return Err(e);
                },
                Ok(np) => {
                    proof {
                        let delta = headers@.skip(hdrs_pre.len() as int);
                        assert(headers@ =~= hdrs_pre + delta);
                        assert(entries_view(hdrs_pre + delta) =~= entries_view(hdrs_pre)
                            + entries_view(delta));
                        match spec_decode(self@.table, self@.max, fragment@, np as int) {
                            Ok(out2) => {
                                assert(entries_view(hdrs_pre) + (entries_view(delta)
                                    + out2.headers) =~= entries_view(headers@) + out2.headers);
                            },
                            Err(_) => {},
                        }
                    }
                    pos = np;
                },
            }
        }
        proof {
            assert(entries_view(headers@) + Seq::<(Seq<u8>, Seq<u8>)>::empty() =~= entries_view(
                headers@,
            ));
        }
        Ok((headers, size_acc))
    }

}


/// One decoding step of an indexed header field, as `spec_decode` takes it.
proof fn lemma_step_indexed(
    t: Seq<(Seq<u8>, Seq<u8>)>,
    m: int,
    b: Seq<u8>,
    pos: int,
    idx: int,
    np: int,
    e: (Seq<u8>, Seq<u8>),
)
    requires
        0 <= pos < b.len(),
        b[pos] >= 128,
        spec_varint(b, pos, 127) == Ok::<(int, int), HpackError>((idx, np)),
        pos < np <= b.len(),
        spec_lookup(t, idx) == Some(e),
    ensures
        spec_decode(t, m, b, pos) == (match spec_decode(t, m, b, np) {
            Err(e2) => Err(e2),
            Ok(out) => Ok(
                DecodeOut {
                    headers: seq![e] + out.headers,
                    size: entry_size(e) + out.size,
                    table: out.table,
                    max: out.max,
                },
            ),
        }),
{
    reveal_with_fuel(spec_decode, 2);
}

/// One decoding step of a literal field with incremental indexing.
proof fn lemma_step_insert(
    t: Seq<(Seq<u8>, Seq<u8>)>,
    m: int,
    b: Seq<u8>,
    pos: int,
    e: (Seq<u8>, Seq<u8>),
    np: int,
)
    requires
        0 <= pos < b.len(),
        64 <= b[pos] < 128,
        spec_field(t, b, pos, 63) == Ok::<((Seq<u8>, Seq<u8>), int), HpackError>((e, np)),
        pos < np <= b.len(),
    ensures
        spec_decode(t, m, b, pos) == (match spec_decode(spec_insert(t, m, e), m, b, np) {
            Err(e2) => Err(e2),
            Ok(out) => Ok(
                DecodeOut {
                    headers: seq![e] + out.headers,
                    size: entry_size(e) + out.size,
                    table: out.table,
                    max: out.max,
                },
            ),
        }),
{
    reveal_with_fuel(spec_decode, 2);
}

/// One decoding step of a dynamic table size update.
proof fn lemma_step_resize(t: Seq<(Seq<u8>, Seq<u8>)>, m: int, b: Seq<u8>, pos: int, v: int, np: int)
    requires
        0 <= pos < b.len(),
        32 <= b[pos] < 64,
        spec_varint(b, pos, 31) == Ok::<(int, int), HpackError>((v, np)),
        pos < np <= b.len(),
        0 <= v,
    ensures
        spec_decode(t, m, b, pos) == spec_decode(spec_evict(t, v), v, b, np),
{
    reveal_with_fuel(spec_decode, 2);
}

/// One decoding step of a literal field without indexing.
proof fn lemma_step_plain(
    t: Seq<(Seq<u8>, Seq<u8>)>,
    m: int,
    b: Seq<u8>,
    pos: int,
    e: (Seq<u8>, Seq<u8>),
    np: int,
)
    requires
        0 <= pos < b.len(),
        b[pos] < 32,
        spec_field(t, b, pos, 15) == Ok::<((Seq<u8>, Seq<u8>), int), HpackError>((e, np)),
        pos < np <= b.len(),
    ensures
        spec_decode(t, m, b, pos) == (match spec_decode(t, m, b, np) {
            Err(e2) => Err(e2),
            Ok(out) => Ok(
                DecodeOut {
                    headers: seq![e] + out.headers,
                    size: entry_size(e) + out.size,
                    table: out.table,
                    max: out.max,
                },
            ),
        }),
{
    reveal_with_fuel(spec_decode, 2);
}


/// Appending bytes after a successfully parsed integer changes nothing.
proof fn lemma_varint_rest_append(a: Seq<u8>, b: Seq<u8>, pos: int, fuel: nat)
    requires
        0 <= pos,
        spec_varint_rest(a, pos, fuel) is Ok,
    ensures
        spec_varint_rest(a + b, pos, fuel) == spec_varint_rest(a, pos, fuel),
    decreases fuel,
{
    if pos < a.len() {
        assert((a + b)[pos] == a[pos]);
        if a[pos] >= 128 && fuel > 0 {
            lemma_varint_rest_append(a, b, pos + 1, (fuel - 1) as nat);
        }
    }
}

/// Appending bytes after a successfully parsed prefixed integer changes
/// nothing.
proof fn lemma_varint_append(a: Seq<u8>, b: Seq<u8>, pos: int, maxp: u8)
    requires
        0 <= pos < a.len(),
        spec_varint(a, pos, maxp) is Ok,
    ensures
        spec_varint(a + b, pos, maxp) == spec_varint(a, pos, maxp),
{
    assert((a + b)[pos] == a[pos]);
    if (a[pos] as int) % (maxp + 1) >= maxp {
        lemma_varint_rest_append(a, b, pos + 1, 3);
    }
}

/// Appending bytes after a successfully parsed string literal changes
/// nothing.
proof fn lemma_string_append(a: Seq<u8>, b: Seq<u8>, pos: int)
    requires
        0 <= pos < a.len(),
        spec_string(a, pos) is Ok,
    ensures
        spec_string(a + b, pos) == spec_string(a, pos),
{
    assert((a + b)[pos] == a[pos]);
    lemma_varint_props(a, pos, 127);
    lemma_varint_append(a, b, pos, 127);
    match spec_varint(a, pos, 127) {
        Err(_) => {},
        Ok((len, np)) => {
            assert((a + b).subrange(np, np + len) =~= a.subrange(np, np + len));
        },
    }
}

/// Appending bytes after a successfully parsed field changes nothing.
proof fn lemma_field_append(
    t: Seq<(Seq<u8>, Seq<u8>)>,
    a: Seq<u8>,
    b: Seq<u8>,
    pos: int,
    maxp: u8,
)
    requires
        0 <= pos < a.len(),
        1 <= maxp,
        spec_field(t, a, pos, maxp) is Ok,
    ensures
        spec_field(t, a + b, pos, maxp) == spec_field(t, a, pos, maxp),
{
    lemma_varint_props(a, pos, maxp);
    lemma_varint_append(a, b, pos, maxp);
    match spec_varint(a, pos, maxp) {
        Err(_) => {},
        Ok((idx, np)) => {
            if idx == 0 {
                if np < a.len() {
                    lemma_string_props(a, np);
                    lemma_string_append(a, b, np);
                    match spec_string(a, np) {
                        Err(_) => {},
                        Ok((name, np2)) => {
                            if np2 < a.len() {
                                lemma_string_append(a, b, np2);
                            }
                        },
                    }
                }
            } else {
                if np < a.len() {
                    lemma_string_append(a, b, np);
                }
            }
        },
    }
}

/// Parsing an integer in the concatenation, starting inside the second
/// part, is parsing it in the second part with shifted offsets.
proof fn lemma_varint_rest_shift(a: Seq<u8>, b: Seq<u8>, pos: int, fuel: nat)
    requires
        0 <= pos,
    ensures
        ({
            let shifted = spec_varint_rest(a + b, a.len() + pos, fuel);
            match spec_varint_rest(b, pos, fuel) {
                Ok((v, np)) => shifted == Ok::<(int, int), HpackError>((v, a.len() + np)),
                Err(e) => shifted == Err::<(int, int), HpackError>(e),
            }
        }),
    decreases fuel,
{
    if pos < b.len() {
        assert((a + b)[a.len() + pos] == b[pos]);
        if b[pos] >= 128 && fuel > 0 {
            lemma_varint_rest_shift(a, b, pos + 1, (fuel - 1) as nat);
        }
    }
}

proof fn lemma_varint_shift(a: Seq<u8>, b: Seq<u8>, pos: int, maxp: u8)
    requires
        0 <= pos < b.len(),
    ensures
        ({
            let shifted = spec_varint(a + b, a.len() + pos, maxp);
            match spec_varint(b, pos, maxp) {
                Ok((v, np)) => shifted == Ok::<(int, int), HpackError>((v, a.len() + np)),
                Err(e) => shifted == Err::<(int, int), HpackError>(e),
            }
        }),
{
    assert((a + b)[a.len() + pos] == b[pos]);
    if (b[pos] as int) % (maxp + 1) >= maxp {
        lemma_varint_rest_shift(a, b, pos + 1, 3);
    }
}

proof fn lemma_string_shift(a: Seq<u8>, b: Seq<u8>, pos: int)
    requires
        0 <= pos,
    ensures
        ({
            let shifted = spec_string(a + b, a.len() + pos, );
            match spec_string(b, pos) {
                Ok((s, np)) => shifted == Ok::<(Seq<u8>, int), HpackError>((s, a.len() + np)),
                Err(e) => shifted == Err::<(Seq<u8>, int), HpackError>(e),
            }
        }),
{
    if pos < b.len() {
        assert((a + b)[a.len() + pos] == b[pos]);
        if b[pos] < 128 {
            lemma_varint_props(b, pos, 127);
            lemma_varint_shift(a, b, pos, 127);
            match spec_varint(b, pos, 127) {
                Err(_) => {},
                Ok((len, np)) => {
                    if np + len <= b.len() {
                        assert((a + b).subrange(a.len() + np, a.len() + np + len) =~= b.subrange(
                            np,
                            np + len,
                        ));
                    }
                },
            }
        }
    }
}

proof fn lemma_field_shift(t: Seq<(Seq<u8>, Seq<u8>)>, a: Seq<u8>, b: Seq<u8>, pos: int, maxp: u8)
    requires
        0 <= pos < b.len(),
        1 <= maxp,
    ensures
        ({
            let shifted = spec_field(t, a + b, a.len() + pos, maxp);
            match spec_field(t, b, pos, maxp) {
                Ok((e, np)) => shifted == Ok::<((Seq<u8>, Seq<u8>), int), HpackError>(
                    (e, a.len() + np),
                ),
                Err(e) => shifted == Err::<((Seq<u8>, Seq<u8>), int), HpackError>(e),
            }
        }),
{
    lemma_varint_props(b, pos, maxp);
    lemma_varint_shift(a, b, pos, maxp);
    match spec_varint(b, pos, maxp) {
        Err(_) => {},
        Ok((idx, np)) => {
            if np < b.len() {
                lemma_string_props(b, np);
            }
            if idx == 0 {
                lemma_string_shift(a, b, np);
                match spec_string(b, np) {
                    Err(_) => {},
                    Ok((name, np2)) => {
                        lemma_string_shift(a, b, np2);
                    },
                }
            } else {
                lemma_string_shift(a, b, np);
            }
        },
    }
}

/// Decoding the concatenation from the start of the second part is
/// decoding the second part alone.
#[verifier::rlimit(100)]
proof fn lemma_decode_shift(
    t: Seq<(Seq<u8>, Seq<u8>)>,
    m: int,
    a: Seq<u8>,
    b: Seq<u8>,
    pos: int,
)
    requires
        0 <= pos,
    ensures
        spec_decode(t, m, a + b, a.len() + pos) == spec_decode(t, m, b, pos),
    decreases b.len() - pos,
{
    if pos >= b.len() {
        assert(spec_decode(t, m, a + b, a.len() + pos) =~= spec_decode(t, m, b, pos));
    } else {
        let c = b[pos];
        assert((a + b)[a.len() + pos] == c);
        if c >= 128 {
            lemma_varint_props(b, pos, 127);
            lemma_varint_shift(a, b, pos, 127);
            match spec_varint(b, pos, 127) {
                Err(_) => {},
                Ok((idx, np)) => {
                    match spec_lookup(t, idx) {
                        None => {},
                        Some(e) => {
                            lemma_decode_shift(t, m, a, b, np);
                        },
                    }
                },
            }
        } else if c >= 64 {
            lemma_field_props(t, b, pos, 63);
            lemma_field_shift(t, a, b, pos, 63);
            match spec_field(t, b, pos, 63) {
                Err(_) => {},
                Ok((e, np)) => {
                    lemma_decode_shift(spec_insert(t, m, e), m, a, b, np);
                },
            }
        } else if c >= 32 {
            lemma_varint_props(b, pos, 31);
            lemma_varint_shift(a, b, pos, 31);
            match spec_varint(b, pos, 31) {
                Err(_) => {},
                Ok((v, np)) => {
                    lemma_decode_shift(spec_evict(t, v), v, a, b, np);
                },
            }
        } else {
            lemma_field_props(t, b, pos, 15);
            lemma_field_shift(t, a, b, pos, 15);
            match spec_field(t, b, pos, 15) {
                Err(_) => {},
                Ok((e, np)) => {
                    lemma_decode_shift(t, m, a, b, np);
                },
            }
        }
    }
}

/// A fragment that decodes completely composes: decoding it with more
/// bytes appended decodes the appended part against the table the first
/// part left behind, and the headers and accounted sizes concatenate.
pub proof fn lemma_decode_concat(
    t: Seq<(Seq<u8>, Seq<u8>)>,
    m: int,
    a: Seq<u8>,
    b: Seq<u8>,
    pos: int,
)
    requires
        0 <= pos <= a.len(),
        spec_decode(t, m, a, pos) is Ok,
    ensures
        ({
            let o1 = spec_decode(t, m, a, pos)->Ok_0;
            match spec_decode(o1.table, o1.max, b, 0) {
                Err(e) => spec_decode(t, m, a + b, pos) == Err::<DecodeOut, HpackError>(e),
                Ok(o2) => spec_decode(t, m, a + b, pos) == Ok::<DecodeOut, HpackError>(
                    DecodeOut {
                        headers: o1.headers + o2.headers,
                        size: o1.size + o2.size,
                        table: o2.table,
                        max: o2.max,
                    },
                ),
            }
        }),
    decreases a.len() - pos, 1int,
{
    let o1 = spec_decode(t, m, a, pos)->Ok_0;
    if pos == a.len() {
        lemma_decode_shift(t, m, a, b, 0);
        assert(spec_decode(t, m, a + b, pos) == spec_decode(t, m, b, 0));
        match spec_decode(o1.table, o1.max, b, 0) {
            Err(e) => {},
            Ok(o2) => {
                assert(o1.headers + o2.headers =~= o2.headers);
            },
        }
    } else {
        let c = a[pos];
        assert((a + b)[pos] == c);
        if c >= 128 {
            lemma_dc_indexed(t, m, a, b, pos);
        } else if c >= 64 {
            lemma_dc_insert(t, m, a, b, pos);
        } else if c >= 32 {
            lemma_dc_update(t, m, a, b, pos);
        } else {
            lemma_dc_plain(t, m, a, b, pos);
        }
    }
}

/// The indexed-field case of `lemma_decode_concat`.
#[verifier::rlimit(100)]
proof fn lemma_dc_indexed(t: Seq<(Seq<u8>, Seq<u8>)>, m: int, a: Seq<u8>, b: Seq<u8>, pos: int)
    requires
        0 <= pos < a.len(),
        a[pos] >= 128,
        spec_decode(t, m, a, pos) is Ok,
    ensures
        ({
            let o1 = spec_decode(t, m, a, pos)->Ok_0;
            match spec_decode(o1.table, o1.max, b, 0) {
                Err(e) => spec_decode(t, m, a + b, pos) == Err::<DecodeOut, HpackError>(e),
                Ok(o2) => spec_decode(t, m, a + b, pos) == Ok::<DecodeOut, HpackError>(
                    DecodeOut {
                        headers: o1.headers + o2.headers,
                        size: o1.size + o2.size,
                        table: o2.table,
                        max: o2.max,
                    },
                ),
            }
        }),
    decreases a.len() - pos, 0int,
{
    assert((a + b)[pos] == a[pos]);
    lemma_varint_props(a, pos, 127);
    lemma_varint_append(a, b, pos, 127);
    match spec_varint(a, pos, 127) {
        Err(_) => {},
        Ok((idx, np)) => {
            match spec_lookup(t, idx) {
                None => {},
                Some(e) => {
                    lemma_decode_concat(t, m, a, b, np);
                    let r1 = spec_decode(t, m, a, np)->Ok_0;
                    match spec_decode(r1.table, r1.max, b, 0) {
                        Err(_) => {},
                        Ok(o2) => {
                            assert(seq![e] + (r1.headers + o2.headers) =~= (seq![e] + r1.headers)
                                + o2.headers);
                        },
                    }
                },
            }
        },
    }
}

/// The literal-with-incremental-indexing case of `lemma_decode_concat`.
#[verifier::rlimit(100)]
proof fn lemma_dc_insert(t: Seq<(Seq<u8>, Seq<u8>)>, m: int, a: Seq<u8>, b: Seq<u8>, pos: int)
    requires
        0 <= pos < a.len(),
        64 <= a[pos] < 128,
        spec_decode(t, m, a, pos) is Ok,
    ensures
        ({
            let o1 = spec_decode(t, m, a, pos)->Ok_0;
            match spec_decode(o1.table, o1.max, b, 0) {
                Err(e) => spec_decode(t, m, a + b, pos) == Err::<DecodeOut, HpackError>(e),
                Ok(o2) => spec_decode(t, m, a + b, pos) == Ok::<DecodeOut, HpackError>(
                    DecodeOut {
                        headers: o1.headers + o2.headers,
                        size: o1.size + o2.size,
                        table: o2.table,
                        max: o2.max,
                    },
                ),
            }
        }),
    decreases a.len() - pos, 0int,
{
    assert((a + b)[pos] == a[pos]);
    lemma_field_props(t, a, pos, 63);
    lemma_field_append(t, a, b, pos, 63);
    match spec_field(t, a, pos, 63) {
        Err(_) => {},
        Ok((e, np)) => {
            lemma_decode_concat(spec_insert(t, m, e), m, a, b, np);
            let r1 = spec_decode(spec_insert(t, m, e), m, a, np)->Ok_0;
            match spec_decode(r1.table, r1.max, b, 0) {
                Err(_) => {},
                Ok(o2) => {
                    assert(seq![e] + (r1.headers + o2.headers) =~= (seq![e] + r1.headers)
                        + o2.headers);
                },
            }
        },
    }
}

/// The table-size-update case of `lemma_decode_concat`.
#[verifier::rlimit(100)]
proof fn lemma_dc_update(t: Seq<(Seq<u8>, Seq<u8>)>, m: int, a: Seq<u8>, b: Seq<u8>, pos: int)
    requires
        0 <= pos < a.len(),
        32 <= a[pos] < 64,
        spec_decode(t, m, a, pos) is Ok,
    ensures
        ({
            let o1 = spec_decode(t, m, a, pos)->Ok_0;
            match spec_decode(o1.table, o1.max, b, 0) {
                Err(e) => spec_decode(t, m, a + b, pos) == Err::<DecodeOut, HpackError>(e),
                Ok(o2) => spec_decode(t, m, a + b, pos) == Ok::<DecodeOut, HpackError>(
                    DecodeOut {
                        headers: o1.headers + o2.headers,
                        size: o1.size + o2.size,
                        table: o2.table,
                        max: o2.max,
                    },
                ),
            }
        }),
    decreases a.len() - pos, 0int,
{
    assert((a + b)[pos] == a[pos]);
    lemma_varint_props(a, pos, 31);
    lemma_varint_append(a, b, pos, 31);
    match spec_varint(a, pos, 31) {
        Err(_) => {},
        Ok((v, np)) => {
            lemma_decode_concat(spec_evict(t, v), v, a, b, np);
        },
    }
}

/// The literal-without-indexing case of `lemma_decode_concat`.
#[verifier::rlimit(100)]
proof fn lemma_dc_plain(t: Seq<(Seq<u8>, Seq<u8>)>, m: int, a: Seq<u8>, b: Seq<u8>, pos: int)
    requires
        0 <= pos < a.len(),
        a[pos] < 32,
        spec_decode(t, m, a, pos) is Ok,
    ensures
        ({
            let o1 = spec_decode(t, m, a, pos)->Ok_0;
            match spec_decode(o1.table, o1.max, b, 0) {
                Err(e) => spec_decode(t, m, a + b, pos) == Err::<DecodeOut, HpackError>(e),
                Ok(o2) => spec_decode(t, m, a + b, pos) == Ok::<DecodeOut, HpackError>(
                    DecodeOut {
                        headers: o1.headers + o2.headers,
                        size: o1.size + o2.size,
                        table: o2.table,
                        max: o2.max,
                    },
                ),
            }
        }),
    decreases a.len() - pos, 0int,
{
    assert((a + b)[pos] == a[pos]);
    lemma_field_props(t, a, pos, 15);
    lemma_field_append(t, a, b, pos, 15);
    match spec_field(t, a, pos, 15) {
        Err(_) => {},
        Ok((e, np)) => {
            lemma_decode_concat(t, m, a, b, np);
            let r1 = spec_decode(t, m, a, np)->Ok_0;
            match spec_decode(r1.table, r1.max, b, 0) {
                Err(_) => {},
                Ok(o2) => {
                    assert(seq![e] + (r1.headers + o2.headers) =~= (seq![e] + r1.headers)
                        + o2.headers);
                },
            }
        },
    }
}

} // verus!

