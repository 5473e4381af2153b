//! Mathematical model of the netstring wire format.
//!
//! A frame is `<ascii-decimal-length> ':' <payload> ','`. The spec functions
//! here describe, over a `Seq<u8>`, where the first colon stands, whether the
//! length field in front of it is well formed, where the computed terminator
//! lies, and what the payload and the remainder of the buffer are. The
//! executable codec's contracts are stated over these functions.

use vstd::prelude::*;

verus! {

/// ASCII ':', the byte that ends the length field.
pub const COLON: u8 = 58;

/// ASCII ',', the byte that terminates a frame.
pub const COMMA: u8 = 44;

/// ASCII '0'.
pub const ZERO: u8 = 48;

/// ASCII '9'.
pub const NINE: u8 = 57;

/// An ASCII decimal digit.
pub open spec fn is_digit_byte(b: u8) -> bool {
    ZERO <= b <= NINE
}

/// Every byte of the sequence is an ASCII decimal digit.
pub open spec fn all_digits(s: Seq<u8>) -> bool {
    forall|i: int| 0 <= i < s.len() ==> is_digit_byte(#[trigger] s[i])
}

/// Numeric value of a sequence of ASCII decimal digits, most significant first.
pub open spec fn digits_value(s: Seq<u8>) -> int
    recommends
        all_digits(s),
    decreases s.len(),
{
    if s.len() == 0 {
        0
    } else {
        digits_value(s.drop_last()) * 10 + s.last() - ZERO
    }
}

/// The canonical ASCII decimal representation of a non-negative number:
/// no leading zeros, except that zero itself is written "0".
pub open spec fn dec_repr(n: int) -> Seq<u8>
    recommends
        n >= 0,
    decreases n,
{
    if n <= 9 {
        seq![(ZERO + n) as u8]
    } else {
        dec_repr(n / 10) + seq![(ZERO + n % 10) as u8]
    }
}

/// `i` is the position of the first colon in `s`.
pub open spec fn is_first_colon(s: Seq<u8>, i: int) -> bool {
    &&& 0 <= i < s.len()
    &&& s[i] == COLON
    &&& forall|j: int| 0 <= j < i ==> #[trigger] s[j] != COLON
}

/// Some byte of `s` is a colon.
pub open spec fn has_colon(s: Seq<u8>) -> bool {
    exists|i: int| is_first_colon(s, i)
}

/// Position of the first colon in `s`.
pub open spec fn colon_pos(s: Seq<u8>) -> int
    recommends
        has_colon(s),
{
    choose|i: int| is_first_colon(s, i)
}

/// The length field: the bytes in front of the first colon.
pub open spec fn len_digits(s: Seq<u8>) -> Seq<u8>
    recommends
        has_colon(s),
{
    s.subrange(0, colon_pos(s))
}

/// The length field is well formed: non-empty, all digits, and its value
/// fits the size type. A buffer that has a colon but breaks this can never
/// become a valid frame, however many bytes arrive.
pub open spec fn length_ok(s: Seq<u8>) -> bool {
    &&& has_colon(s)
    &&& colon_pos(s) >= 1
    &&& all_digits(len_digits(s))
    &&& digits_value(len_digits(s)) <= usize::MAX
}

/// The declared payload length.
pub open spec fn payload_len(s: Seq<u8>) -> int
    recommends
        length_ok(s),
{
    digits_value(len_digits(s))
}

/// Total length of the frame at the front of `s`: length field, colon,
/// payload, and the trailing comma.
pub open spec fn frame_len(s: Seq<u8>) -> int
    recommends
        length_ok(s),
{
    colon_pos(s) + 2 + payload_len(s)
}

/// Enough bytes have arrived to hold the whole declared frame.
pub open spec fn frame_complete(s: Seq<u8>) -> bool {
    length_ok(s) && s.len() >= frame_len(s)
}

/// A complete frame stands at the front of `s`: the byte at the computed
/// terminator position is the comma.
pub open spec fn frame_ok(s: Seq<u8>) -> bool {
    frame_complete(s) && s[frame_len(s) - 1] == COMMA
}

/// The payload of the frame at the front of `s`.
pub open spec fn frame_payload(s: Seq<u8>) -> Seq<u8>
    recommends
        frame_complete(s),
{
    s.subrange(colon_pos(s) + 1, frame_len(s) - 1)
}

/// What remains of `s` after the frame at its front.
pub open spec fn frame_rest(s: Seq<u8>) -> Seq<u8>
    recommends
        frame_complete(s),
{
    s.subrange(frame_len(s), s.len() as int)
}

/// No decision can be made yet: either no colon has arrived, or the length
/// field is fine but the payload or terminator has not fully arrived.
pub open spec fn need_more(s: Seq<u8>) -> bool {
    ||| !has_colon(s)
    ||| (length_ok(s) && s.len() < frame_len(s))
}

/// The length field in front of the first colon is broken for good.
pub open spec fn malformed_length(s: Seq<u8>) -> bool {
    has_colon(s) && !length_ok(s)
}

/// The whole declared frame has arrived but the byte at the computed
/// terminator position is not a comma.
pub open spec fn terminator_mismatch(s: Seq<u8>) -> bool {
    frame_complete(s) && s[frame_len(s) - 1] != COMMA
}

/// The wire representation of one payload.
pub open spec fn encoded(p: Seq<u8>) -> Seq<u8> {
    dec_repr(p.len() as int) + seq![COLON] + p + seq![COMMA]
}

/// The payloads of all complete frames at the front of `s`, in order:
/// what repeated extraction yields before it first reports that more
/// bytes are needed or that the stream is broken.
pub open spec fn decode_all(s: Seq<u8>) -> Seq<Seq<u8>>
    decreases s.len(),
{
    if frame_ok(s) && 0 < frame_len(s) <= s.len() {
        seq![frame_payload(s)] + decode_all(frame_rest(s))
    } else {
        seq![]
    }
}

/// What remains of `s` after every complete frame at its front is removed.
pub open spec fn residue(s: Seq<u8>) -> Seq<u8>
    decreases s.len(),
{
    if frame_ok(s) && 0 < frame_len(s) <= s.len() {
        residue(frame_rest(s))
    } else {
        s
    }
}

/// One byte sequence out of many chunks.
pub open spec fn concat_chunks(cs: Seq<Seq<u8>>) -> Seq<u8>
    decreases cs.len(),
{
    if cs.len() == 0 {
        Seq::empty()
    } else {
        cs[0] + concat_chunks(cs.drop_first())
    }
}

/// The items a transport sees when it appends the chunks to `buf` one at a
/// time and drains every complete frame after each append.
pub open spec fn feed_items(buf: Seq<u8>, cs: Seq<Seq<u8>>) -> Seq<Seq<u8>>
    decreases cs.len(),
{
    if cs.len() == 0 {
        Seq::empty()
    } else {
        decode_all(buf + cs[0]) + feed_items(residue(buf + cs[0]), cs.drop_first())
    }
}

/// The first colon of a sequence stands at one position only.
pub proof fn lemma_first_colon_unique(s: Seq<u8>, i: int)
    requires
        is_first_colon(s, i),
    ensures
        has_colon(s),
        colon_pos(s) == i,
{
    assert(has_colon(s));
    let w = colon_pos(s);
    assert(is_first_colon(s, w));
    if w < i {
        assert(s[w] != COLON);
    } else if i < w {
        assert(s[i] != COLON);
    }
}

/// A sequence of digits has a non-negative value.
pub proof fn lemma_digits_value_nonneg(s: Seq<u8>)
    requires
        all_digits(s),
    ensures
        digits_value(s) >= 0,
    decreases s.len(),
{
    if s.len() > 0 {
        assert(all_digits(s.drop_last()));
        lemma_digits_value_nonneg(s.drop_last());
    }
}

/// Reading one more digit multiplies the value so far by ten and adds it.
pub proof fn lemma_digits_value_step(s: Seq<u8>, i: int)
    requires
        0 <= i < s.len(),
    ensures
        digits_value(s.subrange(0, i + 1)) == digits_value(s.subrange(0, i)) * 10 + s[i] - ZERO,
{
    assert(s.subrange(0, i + 1).drop_last() =~= s.subrange(0, i));
    assert(s.subrange(0, i + 1).last() == s[i]);
}

/// The value of a digit sequence is at least the value of any of its prefixes.
pub proof fn lemma_digits_value_prefix_le(s: Seq<u8>, i: int)
    requires
        all_digits(s),
        0 <= i <= s.len(),
    ensures
        digits_value(s.subrange(0, i)) <= digits_value(s),
    decreases s.len() - i,
{
    if i < s.len() {
        lemma_digits_value_step(s, i);
        assert(all_digits(s.subrange(0, i)));
        lemma_digits_value_nonneg(s.subrange(0, i));
        lemma_digits_value_prefix_le(s, i + 1);
    } else {
        assert(s.subrange(0, i) =~= s);
    }
}

/// The canonical decimal representation is a non-empty digit string whose
/// value is the number it was made from.
pub proof fn lemma_dec_repr(n: int)
    requires
        n >= 0,
    ensures
        dec_repr(n).len() >= 1,
        all_digits(dec_repr(n)),
        digits_value(dec_repr(n)) == n,
    decreases n,
{
    if n <= 9 {
        let d = dec_repr(n);
        assert(d.drop_last() =~= Seq::<u8>::empty());
        assert(digits_value(d) == digits_value(Seq::<u8>::empty()) * 10 + d.last() - ZERO);
    } else {
        lemma_dec_repr(n / 10);
        let d = dec_repr(n);
        assert(d.drop_last() =~= dec_repr(n / 10));
        assert(d.last() == (ZERO + n % 10) as u8);
        assert(digits_value(d) == digits_value(dec_repr(n / 10)) * 10 + (n % 10));
    }
}

/// A well-formed length field puts the frame's end past the colon: the
/// frame is at least three bytes long.
pub proof fn lemma_frame_len_bounds(s: Seq<u8>)
    requires
        length_ok(s),
    ensures
        payload_len(s) >= 0,
        frame_len(s) >= 3,
        colon_pos(s) < s.len(),
{
    lemma_digits_value_nonneg(len_digits(s));
    assert(is_first_colon(s, colon_pos(s)));
}

} // verus!
