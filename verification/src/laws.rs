//! The laws the codec obeys, proved over the wire model: round trip,
//! exact consumption, and invariance under chunking.

use vstd::prelude::*;

use crate::wire::{
    colon_pos, concat_chunks, dec_repr, decode_all, encoded, feed_items, frame_len, frame_ok,
    frame_payload, frame_rest, has_colon, is_digit_byte, is_first_colon, len_digits, length_ok,
    lemma_dec_repr, lemma_first_colon_unique, lemma_frame_len_bounds, residue, COLON, COMMA,
};
use vstd::utf8::{
    decode_utf8, encode_utf8, encode_utf8_decode_utf8, encode_utf8_valid_utf8, valid_utf8,
};

verus! {

/// Law: exact consumption. One encoded frame in front of arbitrary trailing
/// bytes is a complete frame whose payload is exactly what was encoded, and
/// whose extraction leaves exactly the trailing bytes: nothing after the
/// frame is touched, whether those bytes hold further frames, a partial
/// frame, or garbage.
pub proof fn lemma_encoded_frame(p: Seq<u8>, rest: Seq<u8>)
    requires
        p.len() <= usize::MAX,
    ensures
        frame_ok(encoded(p) + rest),
        frame_len(encoded(p) + rest) == encoded(p).len(),
        frame_payload(encoded(p) + rest) == p,
        frame_rest(encoded(p) + rest) == rest,
{
    let d = dec_repr(p.len() as int);
    lemma_dec_repr(p.len() as int);
    let s = encoded(p) + rest;
    let dl = d.len() as int;
    assert(s[dl] == COLON);
    assert forall|j: int| 0 <= j < dl implies s[j] != COLON by {
        assert(s[j] == d[j]);
        assert(is_digit_byte(d[j]));
    }
    assert(is_first_colon(s, dl));
    lemma_first_colon_unique(s, dl);
    assert(len_digits(s) =~= d);
    assert(length_ok(s));
    assert(s.len() == dl + 2 + p.len() + rest.len());
    assert(s[frame_len(s) - 1] == COMMA);
    assert(frame_payload(s) =~= p);
    assert(frame_rest(s) =~= rest);
}

/// Law: round trip. Encoding any text and handing the bytes to the decoder
/// as one buffer yields a complete frame whose payload decodes back to
/// exactly that text, with nothing left over.
pub proof fn lemma_round_trip(item: Seq<char>)
    requires
        encode_utf8(item).len() <= usize::MAX,
    ensures
        frame_ok(encoded(encode_utf8(item))),
        valid_utf8(frame_payload(encoded(encode_utf8(item)))),
        decode_utf8(frame_payload(encoded(encode_utf8(item)))) == item,
        frame_rest(encoded(encode_utf8(item))) == Seq::<u8>::empty(),
{
    let p = encode_utf8(item);
    lemma_encoded_frame(p, Seq::empty());
    assert(encoded(p) + Seq::<u8>::empty() =~= encoded(p));
    encode_utf8_valid_utf8(item);
    encode_utf8_decode_utf8(item);
}

/// Law: a complete frame is stable under arrival of more bytes. Whatever
/// arrives later leaves the frame's boundaries and payload as they are, and
/// ends up, in order, behind the untouched remainder.
pub proof fn lemma_first_frame_extend(s: Seq<u8>, m: Seq<u8>)
    requires
        frame_ok(s),
    ensures
        frame_ok(s + m),
        frame_len(s + m) == frame_len(s),
        frame_payload(s + m) == frame_payload(s),
        frame_rest(s + m) == frame_rest(s) + m,
{
    let l = colon_pos(s);
    assert(is_first_colon(s, l));
    assert forall|j: int| 0 <= j < l implies (s + m)[j] != COLON by {
        assert((s + m)[j] == s[j]);
    }
    assert((s + m)[l] == s[l]);
    assert(is_first_colon(s + m, l));
    lemma_first_colon_unique(s + m, l);
    assert(len_digits(s + m) =~= len_digits(s));
    lemma_frame_len_bounds(s);
    assert((s + m)[frame_len(s) - 1] == s[frame_len(s) - 1]);
    assert(frame_payload(s + m) =~= frame_payload(s));
    assert(frame_rest(s + m) =~= frame_rest(s) + m);
}

/// After draining, no complete frame is left: repeated extraction really
/// did take everything that had fully arrived.
pub proof fn lemma_residue_no_frame(s: Seq<u8>)
    ensures
        !frame_ok(residue(s)),
        decode_all(residue(s)) == Seq::<Seq<u8>>::empty(),
    decreases s.len(),
{
    if frame_ok(s) {
        lemma_frame_len_bounds(s);
        lemma_residue_no_frame(frame_rest(s));
    }
}

/// Draining a buffer and then appending more bytes yields the same items
/// and the same leftover as appending first and draining once: the step
/// case of chunking invariance.
pub proof fn lemma_drain_then_extend(s: Seq<u8>, m: Seq<u8>)
    ensures
        decode_all(s + m) == decode_all(s) + decode_all(residue(s) + m),
        residue(s + m) == residue(residue(s) + m),
    decreases s.len(),
{
    if frame_ok(s) {
        lemma_frame_len_bounds(s);
        lemma_first_frame_extend(s, m);
        lemma_drain_then_extend(frame_rest(s), m);
        assert(decode_all(s + m) =~= decode_all(s) + decode_all(residue(s) + m));
    } else {
        assert(decode_all(s + m) =~= decode_all(s) + decode_all(residue(s) + m));
    }
}

/// Chunking invariance from any drained starting buffer: feeding the chunks
/// one at a time, draining after each, yields exactly the items of decoding
/// the whole concatenation at once.
pub proof fn lemma_feed_items(buf: Seq<u8>, cs: Seq<Seq<u8>>)
    requires
        !frame_ok(buf),
    ensures
        feed_items(buf, cs) == decode_all(buf + concat_chunks(cs)),
    decreases cs.len(),
{
    if cs.len() == 0 {
        assert(buf + concat_chunks(cs) =~= buf);
    } else {
        let c0 = cs[0];
        let cc = concat_chunks(cs.drop_first());
        lemma_residue_no_frame(buf + c0);
        lemma_feed_items(residue(buf + c0), cs.drop_first());
        lemma_drain_then_extend(buf + c0, cc);
        assert(buf + concat_chunks(cs) =~= (buf + c0) + cc);
    }
}

/// Law: chunking invariance. However an incoming byte stream is split into
/// chunks, feeding them incrementally from an empty buffer decodes to the
/// same sequence of items as decoding the whole stream at once.
pub proof fn lemma_chunking(cs: Seq<Seq<u8>>)
    ensures
        feed_items(Seq::empty(), cs) == decode_all(concat_chunks(cs)),
{
    let e = Seq::<u8>::empty();
    assert(forall|i: int| !is_first_colon(e, i));
    assert(!has_colon(e));
    lemma_feed_items(e, cs);
    assert(e + concat_chunks(cs) =~= concat_chunks(cs));
}

} // verus!
