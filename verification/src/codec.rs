//! The netstring codec: incremental frame extraction and encoding.

use vstd::prelude::*;
use bytes::BytesMut;

use crate::buffer::{buf_byte_at, buf_bytes, buf_extend, buf_len, buf_split_to};
use crate::wire::{
    all_digits, colon_pos, dec_repr, digits_value, encoded, frame_ok, frame_payload, frame_rest,
    has_colon, is_first_colon, len_digits, length_ok,
    lemma_digits_value_prefix_le, lemma_digits_value_step, lemma_first_colon_unique,
    malformed_length, need_more, payload_len, terminator_mismatch, COLON, COMMA, NINE, ZERO,
};
use vstd::string::StringSliceAdditionalSpecFns;
use vstd::utf8::{decode_utf8, valid_utf8};

verus! {

/// Why a buffer can never again become a valid frame stream. Every variant
/// is fatal for the connection: netstring framing has no safe point to
/// resynchronise at once length or terminator trust is broken.
#[derive(Clone, Copy, Debug, PartialEq, Eq, Structural)]
pub enum DecodeError {
    /// The bytes in front of the first colon are not a plain decimal number,
    /// or its value does not fit the size type.
    MalformedLength,
    /// The byte at the position the length field points at is not a comma.
    TerminatorMismatch,
    /// The payload is not valid text.
    InvalidPayload,
}

/// The stateless netstring codec.
pub struct NetStringCodec {}

/// Position of the first colon in the buffer, if any byte is one.
fn find_colon(src: &BytesMut) -> (r: Option<usize>)
    ensures
        match r {
            Some(l) => is_first_colon(buf_bytes(*src), l as int),
            None => !has_colon(buf_bytes(*src)),
        },
{
    let n = buf_len(src);
    let mut i: usize = 0;
    while i < n
        invariant
            i <= n,
            n == buf_bytes(*src).len(),
            forall|j: int| 0 <= j < i ==> #[trigger] buf_bytes(*src)[j] != COLON,
        decreases n - i,
    {
        if buf_byte_at(src, i) == COLON {
            return Some(i);
        }
        i = i + 1;
    }
    proof {
        if has_colon(buf_bytes(*src)) {
            let k = colon_pos(buf_bytes(*src));
            assert(is_first_colon(buf_bytes(*src), k));
        }
    }
    None
}

/// Parse `data[..end]` as an unsigned decimal number. `None` exactly when
/// the field is empty, holds a non-digit byte, or its value does not fit
/// the size type.
fn parse_decimal(data: &[u8], end: usize) -> (r: Option<usize>)
    requires
        end <= data@.len(),
    ensures
        ({
            let f = data@.subrange(0, end as int);
            match r {
                Some(v) => end >= 1 && all_digits(f) && v == digits_value(f),
                None => !(end >= 1 && all_digits(f) && digits_value(f) <= usize::MAX),
            }
        }),
{
    let ghost f = data@.subrange(0, end as int);
    if end == 0 {
        return None;
    }
    let mut val: usize = 0;
    let mut i: usize = 0;
    while i < end
        invariant
            i <= end,
            end <= data@.len(),
            f == data@.subrange(0, end as int),
            all_digits(data@.subrange(0, i as int)),
            val == digits_value(data@.subrange(0, i as int)),
        decreases end - i,
    {
        let b = data[i];
        if b < ZERO || b > NINE {
            proof {
                assert(f[i as int] == data@[i as int]);
            }
            return None;
        }
        let d = b - ZERO;
        proof {
            lemma_digits_value_step(data@, i as int);
            assert(data@.subrange(0, i + 1) =~= f.subrange(0, i + 1));
        }
        if val > usize::MAX / 10 || (val == usize::MAX / 10 && d > (usize::MAX % 10) as u8) {
            proof {
                if all_digits(f) {
                    lemma_digits_value_prefix_le(f, i + 1);
                    assert(digits_value(f.subrange(0, i + 1)) == val * 10 + d);
                    assert(digits_value(f) >= val * 10 + d);
                    assert(val * 10 + d > usize::MAX);
                }
            }
            return None;
        }
        val = val * 10 + (d as usize);
        i = i + 1;
    }
    proof {
        assert(data@.subrange(0, i as int) =~= f);
    }
    Some(val)
}

/// Validate that `data[..left]` declares exactly the payload that would lie
/// between a colon at `left` and a comma at `right`: the field parses as a
/// decimal number equal to `right - left - 1`.
pub fn check(left: usize, right: usize, data: &[u8]) -> (r: Result<(), DecodeError>)
    requires
        left <= data@.len(),
    ensures
        ({
            let f = data@.subrange(0, left as int);
            match r {
                Ok(_) => left >= 1 && all_digits(f) && right > left && right - left - 1
                    == digits_value(f),
                Err(DecodeError::MalformedLength) => !(left >= 1 && all_digits(f)
                    && digits_value(f) <= usize::MAX),
                Err(DecodeError::TerminatorMismatch) => left >= 1 && all_digits(f)
                    && digits_value(f) <= usize::MAX && !(right > left && right - left - 1
                    == digits_value(f)),
                Err(DecodeError::InvalidPayload) => false,
            }
        }),
{
    match parse_decimal(data, left) {
        None => Err(DecodeError::MalformedLength),
        Some(v) => {
            if right > left && right - left - 1 == v {
                Ok(())
            } else {
                Err(DecodeError::TerminatorMismatch)
            }
        },
    }
}

/// Relies on `String::from_utf8`: it succeeds exactly on valid UTF-8 and
/// yields the text that decodes those bytes.
#[verifier::external_body]
fn bytes_to_string(v: Vec<u8>) -> (r: Option<String>)
    ensures
        r is Some <==> valid_utf8(v@),
        r matches Some(item) ==> item@ == decode_utf8(v@),
{
    String::from_utf8(v).ok()
}

impl NetStringCodec {
    /// Try to take one complete frame off the front of `src`.
    ///
    /// At most one frame is consumed per call. When no complete frame has
    /// arrived yet the buffer is left untouched, so a later call can start
    /// over once more bytes are in. On any error the buffer is left
    /// untouched as well; every error is fatal for the stream.
    pub fn extract_frame(&self, src: &mut BytesMut) -> (r: Result<Option<String>, DecodeError>)
        ensures
            ({
                let s = buf_bytes(*old(src));
                match r {
                    Ok(None) => need_more(s) && buf_bytes(*final(src)) == s,
                    Ok(Some(item)) => frame_ok(s) && valid_utf8(frame_payload(s)) && item@
                        == decode_utf8(frame_payload(s)) && buf_bytes(*final(src))
                        == frame_rest(s),
                    Err(DecodeError::MalformedLength) => malformed_length(s) && buf_bytes(
                        *final(src),
                    ) == s,
                    Err(DecodeError::TerminatorMismatch) => terminator_mismatch(s) && buf_bytes(
                        *final(src),
                    ) == s,
                    Err(DecodeError::InvalidPayload) => frame_ok(s) && !valid_utf8(
                        frame_payload(s),
                    ) && buf_bytes(*final(src)) == s,
                }
            }),
    {
        let ghost s = buf_bytes(*src);
        let n = buf_len(src);
        let l = match find_colon(src) {
            None => {
                return Ok(None);
            },
            Some(l) => l,
        };
        proof {
            lemma_first_colon_unique(s, l as int);
        }
        let mut field: Vec<u8> = Vec::new();
        let mut i: usize = 0;
        while i < l
            invariant
                i <= l,
                l < n,
                n == buf_bytes(*src).len(),
                s == buf_bytes(*src),
                field@ == s.subrange(0, i as int),
            decreases l - i,
        {
            field.push(buf_byte_at(src, i));
            proof {
                assert(field@ =~= s.subrange(0, i + 1));
            }
            i = i + 1;
        }
        let v = match parse_decimal(field.as_slice(), l) {
            None => {
                proof {
                    assert(field@.subrange(0, l as int) =~= len_digits(s));
                }
                return Err(DecodeError::MalformedLength);
            },
            Some(v) => v,
        };
        proof {
            assert(field@.subrange(0, l as int) =~= len_digits(s));
            assert(length_ok(s));
            assert(payload_len(s) == v);
        }
        let after_colon = n - l - 1;
        if after_colon == 0 || after_colon - 1 < v {
            return Ok(None);
        }
        let t = l + 1 + v;
        if buf_byte_at(src, t) != COMMA {
            return Err(DecodeError::TerminatorMismatch);
        }
        let mut payload: Vec<u8> = Vec::new();
        let mut j: usize = 0;
        while j < v
            invariant
                j <= v,
                l + 1 + v < n,
                n == buf_bytes(*src).len(),
                s == buf_bytes(*src),
                payload@ == s.subrange(l + 1, l + 1 + j),
            decreases v - j,
        {
            payload.push(buf_byte_at(src, l + 1 + j));
            proof {
                assert(payload@ =~= s.subrange(l + 1, l + 1 + j + 1));
            }
            j = j + 1;
        }
        proof {
            assert(payload@ =~= frame_payload(s));
        }
        match bytes_to_string(payload) {
            None => Err(DecodeError::InvalidPayload),
            Some(item) => {
                let _consumed = buf_split_to(src, t + 1);
                proof {
                    assert(buf_bytes(*src) =~= frame_rest(s));
                }
                Ok(Some(item))
            },
        }
    }

    /// Append the wire representation of `item` to `dst`: its byte length
    /// in decimal, a colon, its bytes, and a comma.
    pub fn encode(&self, item: &str, dst: &mut BytesMut)
        ensures
            buf_bytes(*final(dst)) == buf_bytes(*old(dst)) + encoded(item.spec_bytes()),
    {
        let bytes = item.as_bytes();
        let len = bytes.len();
        let mut out: Vec<u8> = Vec::new();
        push_decimal(len, &mut out);
        out.push(COLON);
        proof {
            assert(out@ =~= dec_repr(len as int) + seq![COLON] + bytes@.subrange(0, 0));
        }
        let mut j: usize = 0;
        while j < len
            invariant
                j <= len,
                len == bytes@.len(),
                out@ == dec_repr(len as int) + seq![COLON] + bytes@.subrange(0, j as int),
            decreases len - j,
        {
            out.push(bytes[j]);
            proof {
                assert(out@ =~= dec_repr(len as int) + seq![COLON] + bytes@.subrange(0, j + 1));
            }
            j = j + 1;
        }
        out.push(COMMA);
        proof {
            assert(bytes@.subrange(0, len as int) =~= bytes@);
            assert(out@ =~= encoded(item.spec_bytes()));
        }
        buf_extend(dst, out.as_slice());
    }
}

/// Append the decimal representation of `n` to `out`.
fn push_decimal(n: usize, out: &mut Vec<u8>)
    ensures
        final(out)@ == old(out)@ + dec_repr(n as int),
    decreases n,
{
    if n <= 9 {
        out.push(ZERO + (n as u8));
        proof {
            assert(out@ =~= old(out)@ + dec_repr(n as int));
        }
    } else {
        push_decimal(n / 10, out);
        out.push(ZERO + ((n % 10) as u8));
        proof {
            assert(out@ =~= old(out)@ + dec_repr(n as int));
        }
    }
}

} // verus!
