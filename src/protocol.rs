//! The wire protocol: length-prefixed request frames, the marker lines that
//! delimit the response stream, and what a server does for one request.

use vstd::prelude::*;
use crate::bytes::{append_bytes, bytes_eq, slice_to_vec};
use crate::filter::SLASH;
use crate::index::{find_results, result_line, Entries};
use crate::laws::lemma_find_results_origin;

verus! {

/// Bytes in the length prefix of a request frame.
pub const PREFIX_LEN: usize = 8;

/// `n` as eight little-endian bytes.
pub open spec fn le_bytes(n: u64) -> Seq<u8> {
    seq![
        n as u8,
        (n >> 8u64) as u8,
        (n >> 16u64) as u8,
        (n >> 24u64) as u8,
        (n >> 32u64) as u8,
        (n >> 40u64) as u8,
        (n >> 48u64) as u8,
        (n >> 56u64) as u8,
    ]
}

/// The number that the first eight bytes of `b` give, little-endian.
pub open spec fn le_value(b: Seq<u8>) -> u64
    recommends
        b.len() >= 8,
{
    (b[0] as u64) | ((b[1] as u64) << 8u64) | ((b[2] as u64) << 16u64) | ((b[3] as u64) << 24u64)
        | ((b[4] as u64) << 32u64) | ((b[5] as u64) << 40u64) | ((b[6] as u64) << 48u64) | ((
    b[7] as u64) << 56u64)
}

/// A request frame: the payload's length, then the payload.
pub open spec fn frame(payload: Seq<u8>) -> Seq<u8> {
    le_bytes(payload.len() as u64) + payload
}

/// The payload of the frame at the start of `b`, when `b` holds a whole frame.
pub open spec fn unframe(b: Seq<u8>) -> Option<Seq<u8>> {
    if b.len() < 8 {
        None
    } else if le_value(b) > b.len() - 8 {
        None
    } else {
        Some(b.subrange(8, 8 + le_value(b)))
    }
}

proof fn lemma_le_round_trip(n: u64)
    ensures
        le_value(le_bytes(n)) == n,
{
    let b = le_bytes(n);
    let b0 = n as u8;
    let b1 = (n >> 8u64) as u8;
    let b2 = (n >> 16u64) as u8;
    let b3 = (n >> 24u64) as u8;
    let b4 = (n >> 32u64) as u8;
    let b5 = (n >> 40u64) as u8;
    let b6 = (n >> 48u64) as u8;
    let b7 = (n >> 56u64) as u8;
    assert(b[0] == b0 && b[1] == b1 && b[2] == b2 && b[3] == b3);
    assert(b[4] == b4 && b[5] == b5 && b[6] == b6 && b[7] == b7);
    assert((b0 as u64) | ((b1 as u64) << 8u64) | ((b2 as u64) << 16u64) | ((b3 as u64) << 24u64)
        | ((b4 as u64) << 32u64) | ((b5 as u64) << 40u64) | ((b6 as u64) << 48u64) | ((b7 as u64)
        << 56u64) == n) by (bit_vector)
        requires
            b0 == n as u8,
            b1 == (n >> 8u64) as u8,
            b2 == (n >> 16u64) as u8,
            b3 == (n >> 24u64) as u8,
            b4 == (n >> 32u64) as u8,
            b5 == (n >> 40u64) as u8,
            b6 == (n >> 48u64) as u8,
            b7 == (n >> 56u64) as u8,
    ;
}

/// Framing round trip: the payload of a frame is what was framed, and the
/// prefix is the payload's byte count.
pub proof fn lemma_frame_round_trip(payload: Seq<u8>)
    requires
        payload.len() <= u64::MAX,
    ensures
        unframe(frame(payload)) == Some(payload),
        le_value(frame(payload)) == payload.len(),
        frame(payload).len() == payload.len() + 8,
{
    let f = frame(payload);
    lemma_le_round_trip(payload.len() as u64);
    assert(f.subrange(0, 8) =~= le_bytes(payload.len() as u64));
    assert(le_value(f) == le_value(le_bytes(payload.len() as u64)));
    assert(f.subrange(8, 8 + payload.len() as int) =~= payload);
}

/// Frames `payload` for sending.
pub fn encode_frame(payload: &[u8]) -> (r: Vec<u8>)
    ensures
        r@ == frame(payload@),
{
    let n = payload.len() as u64;
    let mut r: Vec<u8> = Vec::new();
    r.push(n as u8);
    r.push((n >> 8u64) as u8);
    r.push((n >> 16u64) as u8);
    r.push((n >> 24u64) as u8);
    r.push((n >> 32u64) as u8);
    r.push((n >> 40u64) as u8);
    r.push((n >> 48u64) as u8);
    r.push((n >> 56u64) as u8);
    assert(r@ =~= le_bytes(n));
    append_bytes(&mut r, payload);
    r
}

/// The payload length that an eight-byte prefix announces.
pub fn frame_length(prefix: &[u8]) -> (r: u64)
    requires
        prefix@.len() >= 8,
    ensures
        r == le_value(prefix@),
{
    (prefix[0] as u64) | ((prefix[1] as u64) << 8u64) | ((prefix[2] as u64) << 16u64) | ((
    prefix[3] as u64) << 24u64) | ((prefix[4] as u64) << 32u64) | ((prefix[5] as u64) << 40u64)
        | ((prefix[6] as u64) << 48u64) | ((prefix[7] as u64) << 56u64)
}

/// The payload of the frame at the start of `b`; `None` when `b` is shorter
/// than the prefix or than the length it announces.
pub fn decode_frame(b: &[u8]) -> (r: Option<Vec<u8>>)
    ensures
        r is Some <==> unframe(b@) is Some,
        r matches Some(p) ==> unframe(b@) == Some(p@),
{
    if b.len() < PREFIX_LEN {
        return None;
    }
    let n = frame_length(b);
    if n > (b.len() - PREFIX_LEN) as u64 {
        return None;
    }
    Some(slice_to_vec(b, PREFIX_LEN, PREFIX_LEN + n as usize))
}

pub const HASH: u8 = 35;

/// `###{name}_end###`.
pub open spec fn marker(name: Seq<u8>) -> Seq<u8> {
    seq![HASH, HASH, HASH] + name + seq![95u8, 101u8, 110u8, 100u8, HASH, HASH, HASH]
}

/// `server_to_client`
pub open spec fn server_to_client() -> Seq<u8> {
    seq![115u8, 101, 114, 118, 101, 114, 95, 116, 111, 95, 99, 108, 105, 101, 110, 116]
}

/// `server_to_server`
pub open spec fn server_to_server() -> Seq<u8> {
    seq![115u8, 101, 114, 118, 101, 114, 95, 116, 111, 95, 115, 101, 114, 118, 101, 114]
}

/// `main_server`
pub open spec fn main_server() -> Seq<u8> {
    seq![109u8, 97, 105, 110, 95, 115, 101, 114, 118, 101, 114]
}

/// The line a server sends to the reply channel after its own results.
pub open spec fn own_results_end() -> Seq<u8> {
    marker(server_to_client())
}

/// The line a server sends back on the request connection when it is done,
/// its children included.
pub open spec fn request_end() -> Seq<u8> {
    marker(server_to_server())
}

/// The line the entry-point server sends last, after all children.
pub open spec fn stream_end() -> Seq<u8> {
    marker(main_server())
}

fn marker_line(name: &[u8]) -> (r: Vec<u8>)
    ensures
        r@ == marker(name@),
{
    let mut r: Vec<u8> = vec![HASH, HASH, HASH];
    append_bytes(&mut r, name);
    let tail: Vec<u8> = vec![95u8, 101u8, 110u8, 100u8, HASH, HASH, HASH];
    append_bytes(&mut r, tail.as_slice());
    assert(r@ =~= marker(name@));
    r
}

/// `###server_to_client_end###`
pub fn own_results_end_line() -> (r: Vec<u8>)
    ensures
        r@ == own_results_end(),
{
    let name: Vec<u8> = vec![115u8, 101, 114, 118, 101, 114, 95, 116, 111, 95, 99, 108, 105, 101, 110, 116];
    assert(name@ =~= server_to_client());
    marker_line(name.as_slice())
}

/// `###server_to_server_end###`
pub fn request_end_line() -> (r: Vec<u8>)
    ensures
        r@ == request_end(),
{
    let name: Vec<u8> = vec![115u8, 101, 114, 118, 101, 114, 95, 116, 111, 95, 115, 101, 114, 118, 101, 114];
    assert(name@ =~= server_to_server());
    marker_line(name.as_slice())
}

/// `###main_server_end###`
pub fn stream_end_line() -> (r: Vec<u8>)
    ensures
        r@ == stream_end(),
{
    let name: Vec<u8> = vec![109u8, 97, 105, 110, 95, 115, 101, 114, 118, 101, 114];
    assert(name@ =~= main_server());
    marker_line(name.as_slice())
}

/// Whitespace that is trimmed from a received line.
pub open spec fn is_space(c: u8) -> bool {
    c == 32 || (9 <= c <= 13)
}

pub open spec fn trim_start(s: Seq<u8>) -> Seq<u8>
    decreases s.len(),
{
    if s.len() > 0 && is_space(s[0]) {
        trim_start(s.drop_first())
    } else {
        s
    }
}

pub open spec fn trim_end(s: Seq<u8>) -> Seq<u8>
    decreases s.len(),
{
    if s.len() > 0 && is_space(s.last()) {
        trim_end(s.drop_last())
    } else {
        s
    }
}

/// A line without its leading and trailing whitespace.
pub open spec fn trim(s: Seq<u8>) -> Seq<u8> {
    trim_end(trim_start(s))
}

proof fn lemma_trim_start(s: Seq<u8>, i: int)
    requires
        0 <= i <= s.len(),
        forall|k: int| 0 <= k < i ==> is_space(s[k]),
        i == s.len() || !is_space(s[i]),
    ensures
        trim_start(s) == s.skip(i),
    decreases i,
{
    if i == 0 {
        assert(s.skip(0) =~= s);
    } else {
        lemma_trim_start(s.drop_first(), i - 1);
        assert(s.drop_first().skip(i - 1) =~= s.skip(i));
    }
}

proof fn lemma_trim_end(s: Seq<u8>, j: int)
    requires
        0 <= j <= s.len(),
        forall|k: int| j <= k < s.len() ==> is_space(s[k]),
        j == 0 || !is_space(s[j - 1]),
    ensures
        trim_end(s) == s.subrange(0, j),
    decreases s.len() - j,
{
    if j == s.len() {
        assert(s.subrange(0, j) =~= s);
    } else {
        lemma_trim_end(s.drop_last(), j);
        assert(s.drop_last().subrange(0, j) =~= s.subrange(0, j));
    }
}

pub fn is_space_byte(c: u8) -> (r: bool)
    ensures
        r == is_space(c),
{
    c == 32 || (9 <= c && c <= 13)
}

/// `line` without its leading and trailing whitespace.
pub fn trim_line(line: &[u8]) -> (r: Vec<u8>)
    ensures
        r@ == trim(line@),
{
    let mut lo: usize = 0;
    while lo < line.len() && is_space_byte(line[lo])
        invariant
            lo <= line@.len(),
            forall|k: int| 0 <= k < lo ==> is_space(line@[k]),
        decreases line.len() - lo,
    {
        lo = lo + 1;
    }
    proof {
        lemma_trim_start(line@, lo as int);
    }
    let mut hi: usize = line.len();
    while hi > lo && is_space_byte(line[hi - 1])
        invariant
            lo <= hi <= line@.len(),
            forall|k: int| hi <= k < line@.len() ==> is_space(line@[k]),
        decreases hi,
    {
        hi = hi - 1;
    }
    let ghost t = line@.skip(lo as int);
    proof {
        assert forall|k: int| hi - lo <= k < t.len() implies is_space(t[k]) by {
            assert(t[k] == line@[lo + k]);
        }
        if hi > lo {
            assert(t[hi - lo - 1] == line@[hi - 1]);
        }
        lemma_trim_end(t, hi - lo);
        assert(t.subrange(0, hi - lo) =~= line@.subrange(lo as int, hi as int));
    }
    slice_to_vec(line, lo, hi)
}

/// What a received (trimmed) line is.
#[derive(Clone, Copy, PartialEq, Eq, Structural)]
pub enum Reply {
    /// A result line, to be shown.
    Text,
    /// An empty line, shown as nothing.
    Blank,
    /// One server has sent all of its own results.
    OwnResultsEnd,
    /// A server is done with a forwarded request.
    RequestEnd,
    /// The entry-point server is done: no more lines will come.
    StreamEnd,
}

pub open spec fn reply_kind(t: Seq<u8>) -> Reply {
    if t == own_results_end() {
        Reply::OwnResultsEnd
    } else if t == request_end() {
        Reply::RequestEnd
    } else if t == stream_end() {
        Reply::StreamEnd
    } else if t.len() == 0 {
        Reply::Blank
    } else {
        Reply::Text
    }
}

/// Classifies a line that has been trimmed.
pub fn classify_reply(t: &[u8]) -> (r: Reply)
    ensures
        r == reply_kind(t@),
{
    if bytes_eq(t, own_results_end_line().as_slice()) {
        Reply::OwnResultsEnd
    } else if bytes_eq(t, request_end_line().as_slice()) {
        Reply::RequestEnd
    } else if bytes_eq(t, stream_end_line().as_slice()) {
        Reply::StreamEnd
    } else if t.len() == 0 {
        Reply::Blank
    } else {
        Reply::Text
    }
}

proof fn lemma_trim_end_keeps_first(r: Seq<u8>)
    requires
        r.len() > 0,
        !is_space(r[0]),
    ensures
        trim_end(r).len() > 0,
        trim_end(r)[0] == r[0],
    decreases r.len(),
{
    if is_space(r.last()) {
        assert(r.len() > 1);
        lemma_trim_end_keeps_first(r.drop_last());
    }
}

/// Result lines never read as markers: when every indexed path is absolute,
/// every reported line, trimmed or not, starts with `/`, so the receiver
/// takes it for a result line.
pub proof fn lemma_results_are_not_markers(s: Entries, term: Seq<u8>, word: bool, k: int)
    requires
        forall|i: int| 0 <= i < s.len() ==> (#[trigger] s[i].0).len() > 0 && s[i].0[0] == SLASH,
        0 <= k < find_results(s, term, word).len(),
    ensures
        find_results(s, term, word)[k][0] == SLASH,
        trim(find_results(s, term, word)[k])[0] == SLASH,
        reply_kind(trim(find_results(s, term, word)[k])) == Reply::Text,
{
    lemma_find_results_origin(s, term, word, k);
    let r = find_results(s, term, word)[k];
    let (i, m) = choose|i: int, m: int|
        0 <= i < s.len() && 0 <= m < crate::text::split_lines(s[i].1).len() && r == result_line(
            s[i].0,
            (1 + m) as nat,
            #[trigger] crate::text::split_lines(s[i].1)[m],
        ) && crate::index::line_hit(crate::text::split_lines(s[i].1)[m], term, word);
    assert(r[0] == s[i].0[0]);
    assert(trim_start(r) == r);
    lemma_trim_end_keeps_first(r);
    let t = trim(r);
    assert(own_results_end()[0] == HASH);
    assert(request_end()[0] == HASH);
    assert(stream_end()[0] == HASH);
    assert(t != own_results_end());
    assert(t != request_end());
    assert(t != stream_end());
}

} // verus!
