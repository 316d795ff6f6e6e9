//! Self-delimiting byte encoding of command records.
//!
//! Layout: a one-byte tag, then the key as a little-endian 64-bit byte count
//! followed by its UTF-8 bytes, and, for `Put` only, the value in the same
//! length-prefixed form. A streaming decoder consumes exactly one record and
//! reports the number of bytes consumed, so consecutive records need no
//! external framing.

use vstd::prelude::*;
use vstd::bytes::{spec_u64_from_le_bytes, spec_u64_to_le_bytes, u64_from_le_bytes, u64_to_le_bytes};
use vstd::slice::{slice_index_get, slice_subrange, slice_to_vec};
use vstd::utf8::{decode_utf8, encode_utf8, encode_utf8_decode_utf8, encode_utf8_valid_utf8, valid_utf8};
use crate::cmd::{Command, Rec};

verus! {

/// Tag byte opening a `Put` record.
pub const PUT_TAG: u8 = 0;

/// Tag byte opening a `Remove` record.
pub const REMOVE_TAG: u8 = 1;

/// What a decoder finds at the head of a byte sequence: a whole record and
/// the count of bytes it occupies, too few bytes for one (`Short`), or bytes
/// that can never open a record (`Bad`).
pub enum Decoded {
    Found { rec: Rec, len: int },
    Short,
    Bad,
}

/// True when both strings of the record can carry a 64-bit byte-length
/// prefix; every string held in memory satisfies it.
pub open spec fn rec_fits(r: Rec) -> bool {
    match r {
        Rec::Put { key, value } => encode_utf8(key).len() <= u64::MAX
            && encode_utf8(value).len() <= u64::MAX,
        Rec::Remove { key } => encode_utf8(key).len() <= u64::MAX,
    }
}

/// The byte encoding of a record.
pub open spec fn spec_encode(r: Rec) -> Seq<u8> {
    match r {
        Rec::Put { key, value } => seq![PUT_TAG] + spec_u64_to_le_bytes(
            encode_utf8(key).len() as u64,
        ) + encode_utf8(key) + spec_u64_to_le_bytes(encode_utf8(value).len() as u64) + encode_utf8(
            value,
        ),
        Rec::Remove { key } => seq![REMOVE_TAG] + spec_u64_to_le_bytes(encode_utf8(key).len() as u64)
            + encode_utf8(key),
    }
}

/// Decodes the record that starts at the head of `s`.
pub open spec fn spec_decode(s: Seq<u8>) -> Decoded {
    if s.len() < 1 {
        Decoded::Short
    } else if s[0] == PUT_TAG {
        spec_decode_put(s)
    } else if s[0] == REMOVE_TAG {
        spec_decode_remove(s)
    } else {
        Decoded::Bad
    }
}

pub open spec fn spec_decode_remove(s: Seq<u8>) -> Decoded {
    if s.len() < 9 {
        Decoded::Short
    } else {
        let kl = spec_u64_from_le_bytes(s.subrange(1, 9)) as int;
        if s.len() < 9 + kl {
            Decoded::Short
        } else {
            let kb = s.subrange(9, 9 + kl);
            if valid_utf8(kb) {
                Decoded::Found { rec: Rec::Remove { key: decode_utf8(kb) }, len: 9 + kl }
            } else {
                Decoded::Bad
            }
        }
    }
}

pub open spec fn spec_decode_put(s: Seq<u8>) -> Decoded {
    if s.len() < 9 {
        Decoded::Short
    } else {
        let kl = spec_u64_from_le_bytes(s.subrange(1, 9)) as int;
        if s.len() < 17 + kl {
            Decoded::Short
        } else {
            let kb = s.subrange(9, 9 + kl);
            let vl = spec_u64_from_le_bytes(s.subrange(9 + kl, 17 + kl)) as int;
            if s.len() < 17 + kl + vl {
                Decoded::Short
            } else {
                let vb = s.subrange(17 + kl, 17 + kl + vl);
                if valid_utf8(kb) && valid_utf8(vb) {
                    Decoded::Found {
                        rec: Rec::Put { key: decode_utf8(kb), value: decode_utf8(vb) },
                        len: 17 + kl + vl,
                    }
                } else {
                    Decoded::Bad
                }
            }
        }
    }
}

/// A found record occupies at least its tag and one length prefix, and lies
/// entirely within the decoded bytes.
pub proof fn lemma_decode_bounds(s: Seq<u8>)
    requires
        spec_decode(s) is Found,
    ensures
        9 <= spec_decode(s)->Found_len <= s.len(),
{
}

/// Decoding reads only the bytes of the record it finds: any sequence that
/// agrees on that prefix decodes to the same record.
pub proof fn lemma_decode_prefix(s1: Seq<u8>, s2: Seq<u8>)
    requires
        spec_decode(s1) is Found,
        s2.len() >= spec_decode(s1)->Found_len,
        s2.subrange(0, spec_decode(s1)->Found_len) == s1.subrange(0, spec_decode(s1)->Found_len),
    ensures
        spec_decode(s2) == spec_decode(s1),
{
    let l = spec_decode(s1)->Found_len;
    lemma_decode_bounds(s1);
    assert(s2[0] == s1[0]) by {
        assert(s2.subrange(0, l)[0] == s1.subrange(0, l)[0]);
    }
    assert(s2.subrange(1, 9) =~= s1.subrange(1, 9)) by {
        assert forall|i: int| 0 <= i < 8 implies #[trigger] s2.subrange(1, 9)[i] == s1.subrange(1, 9)[i] by {
            assert(s2.subrange(0, l)[i + 1] == s1.subrange(0, l)[i + 1]);
        }
    }
    if s1[0] == PUT_TAG {
        let kl = spec_u64_from_le_bytes(s1.subrange(1, 9)) as int;
        let vl = spec_u64_from_le_bytes(s1.subrange(9 + kl, 17 + kl)) as int;
        assert(l == 17 + kl + vl);
        assert(s2.subrange(9, 9 + kl) =~= s1.subrange(9, 9 + kl)) by {
            assert forall|i: int| 0 <= i < kl implies #[trigger] s2.subrange(9, 9 + kl)[i] == s1.subrange(
                9,
                9 + kl,
            )[i] by {
                assert(s2.subrange(0, l)[i + 9] == s1.subrange(0, l)[i + 9]);
            }
        }
        assert(s2.subrange(9 + kl, 17 + kl) =~= s1.subrange(9 + kl, 17 + kl)) by {
            assert forall|i: int| 0 <= i < 8 implies #[trigger] s2.subrange(9 + kl, 17 + kl)[i] == s1.subrange(9 + kl, 17 + kl)[i] by {
                assert(s2.subrange(0, l)[i + 9 + kl] == s1.subrange(0, l)[i + 9 + kl]);
            }
        }
        assert(s2.subrange(17 + kl, 17 + kl + vl) =~= s1.subrange(17 + kl, 17 + kl + vl)) by {
            assert forall|i: int| 0 <= i < vl implies #[trigger] s2.subrange(17 + kl, 17 + kl + vl)[i] == s1.subrange(17 + kl, 17 + kl + vl)[i] by {
                assert(s2.subrange(0, l)[i + 17 + kl] == s1.subrange(0, l)[i + 17 + kl]);
            }
        }
    } else {
        let kl = spec_u64_from_le_bytes(s1.subrange(1, 9)) as int;
        assert(l == 9 + kl);
        assert(s2.subrange(9, 9 + kl) =~= s1.subrange(9, 9 + kl)) by {
            assert forall|i: int| 0 <= i < kl implies #[trigger] s2.subrange(9, 9 + kl)[i] == s1.subrange(
                9,
                9 + kl,
            )[i] by {
                assert(s2.subrange(0, l)[i + 9] == s1.subrange(0, l)[i + 9]);
            }
        }
    }
}

/// Round trip: a decoder pointed at an encoded record, whatever follows it,
/// finds exactly that record and consumes exactly its bytes.
pub proof fn lemma_decode_encode(r: Rec, tail: Seq<u8>)
    requires
        rec_fits(r),
    ensures
        spec_decode(spec_encode(r) + tail) == (Decoded::Found {
            rec: r,
            len: spec_encode(r).len() as int,
        }),
{
    vstd::bytes::lemma_auto_spec_u64_to_from_le_bytes();
    let s = spec_encode(r) + tail;
    match r {
        Rec::Put { key, value } => {
            let kb = encode_utf8(key);
            let vb = encode_utf8(value);
            encode_utf8_valid_utf8(key);
            encode_utf8_valid_utf8(value);
            encode_utf8_decode_utf8(key);
            encode_utf8_decode_utf8(value);
            let kl = kb.len() as int;
            let vl = vb.len() as int;
            assert(spec_encode(r).len() == 17 + kl + vl);
            assert(s[0] == PUT_TAG);
            assert(s.subrange(1, 9) =~= spec_u64_to_le_bytes(kl as u64));
            assert(spec_u64_from_le_bytes(s.subrange(1, 9)) == kl as u64);
            assert(s.subrange(9, 9 + kl) =~= kb);
            assert(s.subrange(9 + kl, 17 + kl) =~= spec_u64_to_le_bytes(vl as u64));
            assert(spec_u64_from_le_bytes(s.subrange(9 + kl, 17 + kl)) == vl as u64);
            assert(s.subrange(17 + kl, 17 + kl + vl) =~= vb);
            assert(spec_decode(s) == (Decoded::Found {
                rec: Rec::Put { key: decode_utf8(kb), value: decode_utf8(vb) },
                len: 17 + kl + vl,
            }));
        },
        Rec::Remove { key } => {
            let kb = encode_utf8(key);
            encode_utf8_valid_utf8(key);
            encode_utf8_decode_utf8(key);
            let kl = kb.len() as int;
            assert(spec_encode(r).len() == 9 + kl);
            assert(s[0] == REMOVE_TAG);
            assert(s.subrange(1, 9) =~= spec_u64_to_le_bytes(kl as u64));
            assert(spec_u64_from_le_bytes(s.subrange(1, 9)) == kl as u64);
            assert(s.subrange(9, 9 + kl) =~= kb);
            assert(spec_decode(s) == (Decoded::Found {
                rec: Rec::Remove { key: decode_utf8(kb) },
                len: 9 + kl,
            }));
        },
    }
}

/// Encoding is deterministic and never produces an empty byte sequence.
pub proof fn lemma_encode_len(r: Rec)
    ensures
        spec_encode(r).len() >= 9,
{
    vstd::bytes::lemma_auto_spec_u64_to_from_le_bytes();
}

/// Turns a record into its byte encoding.
pub fn encode_command(cmd: &Command) -> (out: Vec<u8>)
    ensures
        out@ == spec_encode(cmd@),
{
    let mut out: Vec<u8> = Vec::new();
    match cmd {
        Command::Put { key, value } => {
            out.push(PUT_TAG);
            let kb = key.as_str().as_bytes();
            let kl = u64_to_le_bytes(kb.len() as u64);
            out.extend_from_slice(kl.as_slice());
            out.extend_from_slice(kb);
            let vb = value.as_str().as_bytes();
            let vl = u64_to_le_bytes(vb.len() as u64);
            out.extend_from_slice(vl.as_slice());
            out.extend_from_slice(vb);
            assert(out@ =~= spec_encode(cmd@));
        },
        Command::Remove { key } => {
            out.push(REMOVE_TAG);
            let kb = key.as_str().as_bytes();
            let kl = u64_to_le_bytes(kb.len() as u64);
            out.extend_from_slice(kl.as_slice());
            out.extend_from_slice(kb);
            assert(out@ =~= spec_encode(cmd@));
        },
    }
    out
}

/// Why a record could not be decoded: the bytes end before the record does,
/// or they can never open one.
#[derive(Debug, Clone, Copy, PartialEq, Eq)]
pub enum DecodeError {
    Truncated,
    Malformed,
}

/// Relies on `String::from_utf8`: it succeeds exactly on valid UTF-8 input
/// and returns the string those bytes encode.
#[verifier::external_body]
pub(crate) fn string_from_utf8(bytes: Vec<u8>) -> (r: Option<String>)
    ensures
        r is Some <==> valid_utf8(bytes@),
        r is Some ==> r->Some_0@ == decode_utf8(bytes@),
{
    String::from_utf8(bytes).ok()
}

/// Decodes the record starting at `pos`, returning it with the count of
/// bytes it occupies.
pub fn decode_command(bytes: &[u8], pos: usize) -> (r: Result<(Command, usize), DecodeError>)
    requires
        pos <= bytes@.len(),
    ensures
        match r {
            Ok(found) => spec_decode(bytes@.skip(pos as int)) == (Decoded::Found {
                rec: found.0@,
                len: found.1 as int,
            }) && pos + found.1 <= bytes@.len() && found.1 >= 9,
            Err(DecodeError::Truncated) => spec_decode(bytes@.skip(pos as int)) is Short,
            Err(DecodeError::Malformed) => spec_decode(bytes@.skip(pos as int)) is Bad,
        },
{
    let ghost s = bytes@.skip(pos as int);
    let n = bytes.len();
    if n - pos < 9 {
        if n - pos < 1 {
            return Err(DecodeError::Truncated);
        }
        let tag = *slice_index_get(bytes, pos);
        assert(tag == s[0]);
        if tag == PUT_TAG || tag == REMOVE_TAG {
            return Err(DecodeError::Truncated);
        } else {
            return Err(DecodeError::Malformed);
        }
    }
    let tag = *slice_index_get(bytes, pos);
    assert(tag == s[0]);
    if tag != PUT_TAG && tag != REMOVE_TAG {
        return Err(DecodeError::Malformed);
    }
    let kl_bytes = slice_subrange(bytes, pos + 1, pos + 9);
    assert(kl_bytes@ =~= s.subrange(1, 9));
    let kl = u64_from_le_bytes(kl_bytes);
    let rest = (n - pos - 9) as u64;
    if tag == REMOVE_TAG {
        if kl > rest {
            return Err(DecodeError::Truncated);
        }
        let klu = kl as usize;
        let kb = slice_to_vec(slice_subrange(bytes, pos + 9, pos + 9 + klu));
        assert(kb@ =~= s.subrange(9, 9 + kl as int));
        match string_from_utf8(kb) {
            Some(key) => {
                let cmd = Command::Remove { key };
                Ok((cmd, 9 + klu))
            },
            None => Err(DecodeError::Malformed),
        }
    } else {
        if rest < 8 || kl > rest - 8 {
            return Err(DecodeError::Truncated);
        }
        let klu = kl as usize;
        let kb = slice_to_vec(slice_subrange(bytes, pos + 9, pos + 9 + klu));
        assert(kb@ =~= s.subrange(9, 9 + kl as int));
        let vl_bytes = slice_subrange(bytes, pos + 9 + klu, pos + 17 + klu);
        assert(vl_bytes@ =~= s.subrange(9 + kl as int, 17 + kl as int));
        let vl = u64_from_le_bytes(vl_bytes);
        let rest2 = (n - pos - 17 - klu) as u64;
        if vl > rest2 {
            return Err(DecodeError::Truncated);
        }
        let vlu = vl as usize;
        let vb = slice_to_vec(slice_subrange(bytes, pos + 17 + klu, pos + 17 + klu + vlu));
        assert(vb@ =~= s.subrange(17 + kl as int, 17 + kl as int + vl as int));
        match string_from_utf8(kb) {
            Some(key) => match string_from_utf8(vb) {
                Some(value) => {
                    let cmd = Command::Put { key, value };
                    Ok((cmd, 17 + klu + vlu))
                },
                None => Err(DecodeError::Malformed),
            },
            None => Err(DecodeError::Malformed),
        }
    }
}

} // verus!
