//! The wire protocol: each message is framed by an 8-byte big-endian length,
//! followed by that many bytes of the encoded request or response. Strings
//! inside a message are length-prefixed UTF-8; a message with trailing or
//! missing bytes is rejected.

use vstd::prelude::*;
use vstd::bytes::{spec_u64_from_le_bytes, spec_u64_to_le_bytes, u64_from_le_bytes, u64_to_le_bytes};
use vstd::slice::{slice_index_get, slice_subrange, slice_to_vec};
use vstd::utf8::{decode_utf8, encode_utf8, encode_utf8_decode_utf8, encode_utf8_valid_utf8, valid_utf8};
use crate::codec::string_from_utf8;
use crate::message::{ReqView, Request, RespView, Response};

verus! {

/// Frame header: the body length as 8 big-endian bytes.
pub open spec fn spec_u64_to_be_bytes(x: u64) -> Seq<u8> {
    seq![
        (x >> 56) as u8,
        ((x >> 48) & 0xff) as u8,
        ((x >> 40) & 0xff) as u8,
        ((x >> 32) & 0xff) as u8,
        ((x >> 24) & 0xff) as u8,
        ((x >> 16) & 0xff) as u8,
        ((x >> 8) & 0xff) as u8,
        (x & 0xff) as u8,
    ]
}

pub open spec fn spec_u64_from_be_bytes(s: Seq<u8>) -> u64 {
    (
    (s[0] as u64) << 56 | (s[1] as u64) << 48 | (s[2] as u64) << 40 | (s[3] as u64) << 32 | (
    s[4] as u64) << 24 | (s[5] as u64) << 16 | (s[6] as u64) << 8 | (s[7] as u64)) as u64
}

pub proof fn lemma_u64_be_roundtrip(x: u64)
    ensures
        spec_u64_from_be_bytes(spec_u64_to_be_bytes(x)) == x,
{
    let s = spec_u64_to_be_bytes(x);
    let b0 = s[0];
    let b1 = s[1];
    let b2 = s[2];
    let b3 = s[3];
    let b4 = s[4];
    let b5 = s[5];
    let b6 = s[6];
    let b7 = s[7];
    assert(((b0 as u64) << 56 | (b1 as u64) << 48 | (b2 as u64) << 40 | (b3 as u64) << 32 | (
    b4 as u64) << 24 | (b5 as u64) << 16 | (b6 as u64) << 8 | (b7 as u64)) as u64 == x)
        by (bit_vector)
        requires
            b0 == (x >> 56) as u8 && b1 == ((x >> 48) & 0xff) as u8 && b2 == ((x >> 40)
                & 0xff) as u8 && b3 == ((x >> 32) & 0xff) as u8 && b4 == ((x >> 24)
                & 0xff) as u8 && b5 == ((x >> 16) & 0xff) as u8 && b6 == ((x >> 8) & 0xff) as u8
                && b7 == (x & 0xff) as u8,
    ;
}

/// Writes the frame header for a body of `len` bytes.
pub fn frame_header(len: u64) -> (h: Vec<u8>)
    ensures
        h@ == spec_u64_to_be_bytes(len),
        h@.len() == 8,
{
    let mut h: Vec<u8> = Vec::new();
    h.push((len >> 56) as u8);
    h.push(((len >> 48) & 0xff) as u8);
    h.push(((len >> 40) & 0xff) as u8);
    h.push(((len >> 32) & 0xff) as u8);
    h.push(((len >> 24) & 0xff) as u8);
    h.push(((len >> 16) & 0xff) as u8);
    h.push(((len >> 8) & 0xff) as u8);
    h.push((len & 0xff) as u8);
    proof {
        assert(h@ =~= spec_u64_to_be_bytes(len));
    }
    h
}

/// Reads the body length out of a frame header.
pub fn frame_length(h: &[u8]) -> (len: u64)
    requires
        h@.len() == 8,
    ensures
        len == spec_u64_from_be_bytes(h@),
        forall|x: u64| h@ == spec_u64_to_be_bytes(x) ==> len == x,
{
    let b0 = *slice_index_get(h, 0);
    let b1 = *slice_index_get(h, 1);
    let b2 = *slice_index_get(h, 2);
    let b3 = *slice_index_get(h, 3);
    let b4 = *slice_index_get(h, 4);
    let b5 = *slice_index_get(h, 5);
    let b6 = *slice_index_get(h, 6);
    let b7 = *slice_index_get(h, 7);
    let len = (b0 as u64) << 56 | (b1 as u64) << 48 | (b2 as u64) << 40 | (b3 as u64) << 32 | (
    b4 as u64) << 24 | (b5 as u64) << 16 | (b6 as u64) << 8 | (b7 as u64);
    proof {
        assert forall|x: u64| h@ == spec_u64_to_be_bytes(x) implies len == x by {
            lemma_u64_be_roundtrip(x);
        }
    }
    len
}

/// A length-prefixed string: its UTF-8 byte count, then its UTF-8 bytes.
pub open spec fn enc_str(s: Seq<char>) -> Seq<u8> {
    spec_u64_to_le_bytes(encode_utf8(s).len() as u64) + encode_utf8(s)
}

/// Reads a length-prefixed string starting at `pos`; yields the string and
/// the offset just past it.
pub open spec fn dec_str(s: Seq<u8>, pos: int) -> Option<(Seq<char>, int)> {
    if pos < 0 || s.len() < pos + 8 {
        None
    } else {
        let l = spec_u64_from_le_bytes(s.subrange(pos, pos + 8)) as int;
        if s.len() < pos + 8 + l {
            None
        } else {
            let b = s.subrange(pos + 8, pos + 8 + l);
            if valid_utf8(b) {
                Some((decode_utf8(b), pos + 8 + l))
            } else {
                None
            }
        }
    }
}

/// A string whose UTF-8 form carries a 64-bit length prefix; every string
/// held in memory satisfies it.
pub open spec fn str_fits(s: Seq<char>) -> bool {
    encode_utf8(s).len() <= u64::MAX
}

/// Reading a just-written string finds it, wherever it lies and whatever
/// follows it.
pub proof fn lemma_dec_enc_str(prefix: Seq<u8>, s: Seq<char>, tail: Seq<u8>)
    requires
        str_fits(s),
    ensures
        dec_str(prefix + enc_str(s) + tail, prefix.len() as int) == Some(
            (s, (prefix.len() + enc_str(s).len()) as int),
        ),
{
    vstd::bytes::lemma_auto_spec_u64_to_from_le_bytes();
    encode_utf8_valid_utf8(s);
    encode_utf8_decode_utf8(s);
    let whole = prefix + enc_str(s) + tail;
    let pos = prefix.len() as int;
    let b = encode_utf8(s);
    let l = b.len() as int;
    assert(whole.subrange(pos, pos + 8) =~= spec_u64_to_le_bytes(l as u64));
    assert(spec_u64_from_le_bytes(whole.subrange(pos, pos + 8)) == l as u64);
    assert(whole.subrange(pos + 8, pos + 8 + l) =~= b);
}

/// Appends a length-prefixed string.
fn put_str(out: &mut Vec<u8>, s: &str)
    ensures
        final(out)@ == old(out)@ + enc_str(s@),
{
    let b = s.as_bytes();
    let header = u64_to_le_bytes(b.len() as u64);
    out.extend_from_slice(header.as_slice());
    out.extend_from_slice(b);
    proof {
        assert(final(out)@ =~= old(out)@ + enc_str(s@));
    }
}

/// Reads a length-prefixed string starting at `pos`.
fn take_str(bytes: &[u8], pos: usize) -> (r: Option<(String, usize)>)
    requires
        pos <= bytes@.len(),
    ensures
        match r {
            Some(found) => dec_str(bytes@, pos as int) == Some((found.0@, found.1 as int))
                && pos < found.1 <= bytes@.len(),
            None => dec_str(bytes@, pos as int) is None,
        },
{
    let n = bytes.len();
    if n - pos < 8 {
        return None;
    }
    let hdr = slice_subrange(bytes, pos, pos + 8);
    proof {
        assert(hdr@ =~= bytes@.subrange(pos as int, pos as int + 8));
    }
    let l = u64_from_le_bytes(hdr);
    let rest = (n - pos - 8) as u64;
    if l > rest {
        return None;
    }
    let lu = l as usize;
    let b = slice_to_vec(slice_subrange(bytes, pos + 8, pos + 8 + lu));
    proof {
        assert(b@ =~= bytes@.subrange(pos as int + 8, pos as int + 8 + l as int));
    }
    match string_from_utf8(b) {
        Some(s) => Some((s, pos + 8 + lu)),
        None => None,
    }
}

/// Byte encoding of a request: a tag, then its length-prefixed strings.
pub open spec fn spec_encode_request(r: ReqView) -> Seq<u8> {
    match r {
        ReqView::Get { key } => seq![0u8] + enc_str(key),
        ReqView::Put { key, value } => seq![1u8] + enc_str(key) + enc_str(value),
        ReqView::Remove { key } => seq![2u8] + enc_str(key),
    }
}

/// Decodes a whole request body; trailing bytes reject it.
pub open spec fn spec_decode_request(s: Seq<u8>) -> Option<ReqView> {
    if s.len() < 1 {
        None
    } else if s[0] == 0 {
        match dec_str(s, 1) {
            Some(found) => if found.1 == s.len() {
                Some(ReqView::Get { key: found.0 })
            } else {
                None
            },
            None => None,
        }
    } else if s[0] == 1 {
        match dec_str(s, 1) {
            Some(found) => match dec_str(s, found.1) {
                Some(found2) => if found2.1 == s.len() {
                    Some(ReqView::Put { key: found.0, value: found2.0 })
                } else {
                    None
                },
                None => None,
            },
            None => None,
        }
    } else if s[0] == 2 {
        match dec_str(s, 1) {
            Some(found) => if found.1 == s.len() {
                Some(ReqView::Remove { key: found.0 })
            } else {
                None
            },
            None => None,
        }
    } else {
        None
    }
}

pub open spec fn req_fits(r: ReqView) -> bool {
    match r {
        ReqView::Get { key } => str_fits(key),
        ReqView::Put { key, value } => str_fits(key) && str_fits(value),
        ReqView::Remove { key } => str_fits(key),
    }
}

/// Round trip: decoding an encoded request yields it back.
pub proof fn lemma_request_roundtrip(r: ReqView)
    requires
        req_fits(r),
    ensures
        spec_decode_request(spec_encode_request(r)) == Some(r),
{
    let s = spec_encode_request(r);
    match r {
        ReqView::Get { key } => {
            lemma_dec_enc_str(seq![0u8], key, Seq::empty());
            assert(seq![0u8] + enc_str(key) + Seq::<u8>::empty() =~= s);
        },
        ReqView::Put { key, value } => {
            lemma_dec_enc_str(seq![1u8], key, enc_str(value));
            assert(seq![1u8] + enc_str(key) + enc_str(value) =~= s);
            lemma_dec_enc_str(seq![1u8] + enc_str(key), value, Seq::empty());
            assert(seq![1u8] + enc_str(key) + enc_str(value) + Seq::<u8>::empty() =~= s);
        },
        ReqView::Remove { key } => {
            lemma_dec_enc_str(seq![2u8], key, Seq::empty());
            assert(seq![2u8] + enc_str(key) + Seq::<u8>::empty() =~= s);
        },
    }
}

/// Encodes a request body.
pub fn encode_request(req: &Request) -> (out: Vec<u8>)
    ensures
        out@ == spec_encode_request(req@),
{
    let mut out: Vec<u8> = Vec::new();
    match req {
        Request::Get { key } => {
            out.push(0);
            put_str(&mut out, key.as_str());
            proof {
                assert(out@ =~= spec_encode_request(req@));
            }
        },
        Request::Put { key, value } => {
            out.push(1);
            put_str(&mut out, key.as_str());
            put_str(&mut out, value.as_str());
            proof {
                assert(out@ =~= spec_encode_request(req@));
            }
        },
        Request::Remove { key } => {
            out.push(2);
            put_str(&mut out, key.as_str());
            proof {
                assert(out@ =~= spec_encode_request(req@));
            }
        },
    }
    out
}

/// Decodes a request body.
pub fn decode_request(bytes: &[u8]) -> (r: Option<Request>)
    ensures
        match r {
            Some(req) => spec_decode_request(bytes@) == Some(req@),
            None => spec_decode_request(bytes@) is None,
        },
{
    let n = bytes.len();
    if n < 1 {
        return None;
    }
    let tag = *slice_index_get(bytes, 0);
    if tag == 0 {
        match take_str(bytes, 1) {
            Some(found) => {
                if found.1 == n {
                    Some(Request::Get { key: found.0 })
                } else {
                    None
                }
            },
            None => None,
        }
    } else if tag == 1 {
        match take_str(bytes, 1) {
            Some(found) => {
                let end1 = found.1;
                match take_str(bytes, end1) {
                    Some(found2) => {
                        if found2.1 == n {
                            Some(Request::Put { key: found.0, value: found2.0 })
                        } else {
                            None
                        }
                    },
                    None => None,
                }
            },
            None => None,
        }
    } else if tag == 2 {
        match take_str(bytes, 1) {
            Some(found) => {
                if found.1 == n {
                    Some(Request::Remove { key: found.0 })
                } else {
                    None
                }
            },
            None => None,
        }
    } else {
        None
    }
}

/// Byte encoding of a response: a tag, then its length-prefixed string if it
/// carries one.
pub open spec fn spec_encode_response(r: RespView) -> Seq<u8> {
    match r {
        RespView::OkValue { value } => match value {
            Some(v) => seq![0u8] + enc_str(v),
            None => seq![1u8],
        },
        RespView::OkNoContent => seq![2u8],
        RespView::ErrorKeyNotFound => seq![3u8],
        RespView::ErrorUnknown { message } => seq![4u8] + enc_str(message),
    }
}

/// Decodes a whole response body; trailing bytes reject it.
pub open spec fn spec_decode_response(s: Seq<u8>) -> Option<RespView> {
    if s.len() < 1 {
        None
    } else if s[0] == 0 {
        match dec_str(s, 1) {
            Some(found) => if found.1 == s.len() {
                Some(RespView::OkValue { value: Some(found.0) })
            } else {
                None
            },
            None => None,
        }
    } else if s[0] == 1 {
        if s.len() == 1 {
            Some(RespView::OkValue { value: None })
        } else {
            None
        }
    } else if s[0] == 2 {
        if s.len() == 1 {
            Some(RespView::OkNoContent)
        } else {
            None
        }
    } else if s[0] == 3 {
        if s.len() == 1 {
            Some(RespView::ErrorKeyNotFound)
        } else {
            None
        }
    } else if s[0] == 4 {
        match dec_str(s, 1) {
            Some(found) => if found.1 == s.len() {
                Some(RespView::ErrorUnknown { message: found.0 })
            } else {
                None
            },
            None => None,
        }
    } else {
        None
    }
}

pub open spec fn resp_fits(r: RespView) -> bool {
    match r {
        RespView::OkValue { value } => match value {
            Some(v) => str_fits(v),
            None => true,
        },
        RespView::ErrorUnknown { message } => str_fits(message),
        _ => true,
    }
}

/// Round trip: decoding an encoded response yields it back.
pub proof fn lemma_response_roundtrip(r: RespView)
    requires
        resp_fits(r),
    ensures
        spec_decode_response(spec_encode_response(r)) == Some(r),
{
    let s = spec_encode_response(r);
    match r {
        RespView::OkValue { value } => match value {
            Some(v) => {
                lemma_dec_enc_str(seq![0u8], v, Seq::empty());
                assert(seq![0u8] + enc_str(v) + Seq::<u8>::empty() =~= s);
            },
            None => {},
        },
        RespView::ErrorUnknown { message } => {
            lemma_dec_enc_str(seq![4u8], message, Seq::empty());
            assert(seq![4u8] + enc_str(message) + Seq::<u8>::empty() =~= s);
        },
        _ => {},
    }
}

/// Encodes a response body.
pub fn encode_response(resp: &Response) -> (out: Vec<u8>)
    ensures
        out@ == spec_encode_response(resp@),
{
    let mut out: Vec<u8> = Vec::new();
    match resp {
        Response::OkValue { value } => match value {
            Some(v) => {
                out.push(0);
                put_str(&mut out, v.as_str());
                proof {
                    assert(out@ =~= spec_encode_response(resp@));
                }
            },
            None => {
                out.push(1);
                proof {
                    assert(out@ =~= spec_encode_response(resp@));
                }
            },
        },
        Response::OkNoContent => {
            out.push(2);
            proof {
                assert(out@ =~= spec_encode_response(resp@));
            }
        },
        Response::ErrorKeyNotFound => {
            out.push(3);
            proof {
                assert(out@ =~= spec_encode_response(resp@));
            }
        },
        Response::ErrorUnknown { message } => {
            out.push(4);
            put_str(&mut out, message.as_str());
            proof {
                assert(out@ =~= spec_encode_response(resp@));
            }
        },
    }
    out
}

/// Decodes a response body.
pub fn decode_response(bytes: &[u8]) -> (r: Option<Response>)
    ensures
        match r {
            Some(resp) => spec_decode_response(bytes@) == Some(resp@),
            None => spec_decode_response(bytes@) is None,
        },
{
    let n = bytes.len();
    if n < 1 {
        return None;
    }
    let tag = *slice_index_get(bytes, 0);
    if tag == 0 {
        match take_str(bytes, 1) {
            Some(found) => {
                if found.1 == n {
                    Some(Response::OkValue { value: Some(found.0) })
                } else {
                    None
                }
            },
            None => None,
        }
    } else if tag == 1 {
        if n == 1 {
            Some(Response::OkValue { value: None })
        } else {
            None
        }
    } else if tag == 2 {
        if n == 1 {
            Some(Response::OkNoContent)
        } else {
            None
        }
    } else if tag == 3 {
        if n == 1 {
            Some(Response::ErrorKeyNotFound)
        } else {
            None
        }
    } else if tag == 4 {
        match take_str(bytes, 1) {
            Some(found) => {
                if found.1 == n {
                    Some(Response::ErrorUnknown { message: found.0 })
                } else {
                    None
                }
            },
            None => None,
        }
    } else {
        None
    }
}

} // verus!
