use bytes::BytesMut;
use netstring::{DecodeError, NetStringCodec};

fn drain(codec: &NetStringCodec, buf: &mut BytesMut) -> Vec<String> {
    let mut items = Vec::new();
    loop {
        match codec.extract_frame(buf) {
            Ok(Some(item)) => items.push(item),
            Ok(None) => return items,
            Err(e) => panic!("unexpected decode error: {:?}", e),
        }
    }
}

#[test]
fn round_trip_single_chunk() {
    let codec = NetStringCodec {};
    let mut buf = BytesMut::new();
    codec.encode("hello", &mut buf);
    assert_eq!(&buf[..], b"5:hello,");
    let item = codec.extract_frame(&mut buf).unwrap().unwrap();
    assert_eq!(item, "hello");
    assert_eq!(buf.len(), 0);
}

#[test]
fn round_trip_empty_item() {
    let codec = NetStringCodec {};
    let mut buf = BytesMut::new();
    codec.encode("", &mut buf);
    assert_eq!(&buf[..], b"0:,");
    let item = codec.extract_frame(&mut buf).unwrap().unwrap();
    assert_eq!(item, "");
    assert_eq!(buf.len(), 0);
}

#[test]
fn round_trip_multibyte_text() {
    let codec = NetStringCodec {};
    let mut buf = BytesMut::new();
    codec.encode("h\u{e9}llo", &mut buf);
    // the length field counts bytes, not characters
    assert_eq!(&buf[..], b"6:h\xc3\xa9llo,");
    let item = codec.extract_frame(&mut buf).unwrap().unwrap();
    assert_eq!(item, "h\u{e9}llo");
    assert_eq!(buf.len(), 0);
}

#[test]
fn encode_two_digit_length() {
    let codec = NetStringCodec {};
    let mut buf = BytesMut::new();
    codec.encode("hello world", &mut buf);
    assert_eq!(&buf[..], b"11:hello world,");
}

#[test]
fn encode_appends_after_existing_bytes() {
    let codec = NetStringCodec {};
    let mut buf = BytesMut::from(&b"3:abc,"[..]);
    codec.encode("de", &mut buf);
    assert_eq!(&buf[..], b"3:abc,2:de,");
}

#[test]
fn zero_length_payload_consumes_three_bytes() {
    let codec = NetStringCodec {};
    let mut buf = BytesMut::from(&b"0:,x"[..]);
    let item = codec.extract_frame(&mut buf).unwrap().unwrap();
    assert_eq!(item, "");
    assert_eq!(&buf[..], b"x");
}

#[test]
fn malformed_length_is_fatal_not_incomplete() {
    let codec = NetStringCodec {};
    let mut buf = BytesMut::from(&b"ab:xx,"[..]);
    let r = codec.extract_frame(&mut buf);
    assert_eq!(r, Err(DecodeError::MalformedLength));
    // the buffer is left as it was
    assert_eq!(&buf[..], b"ab:xx,");
}

#[test]
fn empty_length_field_is_fatal() {
    let codec = NetStringCodec {};
    let mut buf = BytesMut::from(&b":x,"[..]);
    assert_eq!(codec.extract_frame(&mut buf), Err(DecodeError::MalformedLength));
}

#[test]
fn oversized_length_field_is_fatal() {
    let codec = NetStringCodec {};
    let mut buf = BytesMut::from(&b"99999999999999999999999999:x,"[..]);
    assert_eq!(codec.extract_frame(&mut buf), Err(DecodeError::MalformedLength));
}

#[test]
fn terminator_mismatch_is_fatal() {
    let codec = NetStringCodec {};
    let mut buf = BytesMut::from(&b"5:hello;"[..]);
    assert_eq!(codec.extract_frame(&mut buf), Err(DecodeError::TerminatorMismatch));
    assert_eq!(&buf[..], b"5:hello;");
}

#[test]
fn invalid_utf8_payload_is_fatal() {
    let codec = NetStringCodec {};
    let mut buf = BytesMut::from(&b"1:\xff,"[..]);
    assert_eq!(codec.extract_frame(&mut buf), Err(DecodeError::InvalidPayload));
    assert_eq!(&buf[..], b"1:\xff,");
}

#[test]
fn payload_may_contain_comma_and_colon() {
    let codec = NetStringCodec {};
    let mut buf = BytesMut::from(&b"7:a,b:c,d,"[..]);
    let item = codec.extract_frame(&mut buf).unwrap().unwrap();
    assert_eq!(item, "a,b:c,d");
    assert_eq!(buf.len(), 0);
}

#[test]
fn leading_zeros_in_length_are_tolerated() {
    let codec = NetStringCodec {};
    let mut buf = BytesMut::from(&b"05:hello,"[..]);
    let item = codec.extract_frame(&mut buf).unwrap().unwrap();
    assert_eq!(item, "hello");
    assert_eq!(buf.len(), 0);
}

#[test]
fn no_colon_yet_means_no_item() {
    let codec = NetStringCodec {};
    let mut buf = BytesMut::from(&b"123"[..]);
    assert_eq!(codec.extract_frame(&mut buf), Ok(None));
    assert_eq!(&buf[..], b"123");
}

#[test]
fn partial_payload_means_no_item_and_no_consumption() {
    let codec = NetStringCodec {};
    let mut buf = BytesMut::from(&b"5:hel"[..]);
    assert_eq!(codec.extract_frame(&mut buf), Ok(None));
    assert_eq!(&buf[..], b"5:hel");
}

#[test]
fn consumes_only_the_complete_frame() {
    let codec = NetStringCodec {};
    let mut buf = BytesMut::from(&b"5:hello,3:wo"[..]);
    let item = codec.extract_frame(&mut buf).unwrap().unwrap();
    assert_eq!(item, "hello");
    assert_eq!(&buf[..], b"3:wo");
    assert_eq!(codec.extract_frame(&mut buf), Ok(None));
    assert_eq!(&buf[..], b"3:wo");
}

#[test]
fn concatenated_frames_yield_two_items() {
    let codec = NetStringCodec {};
    let mut buf = BytesMut::from(&b"5:hello,5:world,"[..]);
    let first = codec.extract_frame(&mut buf).unwrap().unwrap();
    assert_eq!(first, "hello");
    let second = codec.extract_frame(&mut buf).unwrap().unwrap();
    assert_eq!(second, "world");
    assert_eq!(codec.extract_frame(&mut buf), Ok(None));
    assert_eq!(buf.len(), 0);
}

#[test]
fn chunked_feed_matches_decoding_at_once() {
    let codec = NetStringCodec {};
    let stream = b"5:hello,11:hello world,0:,7:a,b:c,d,";

    let mut whole = BytesMut::from(&stream[..]);
    let items_whole = drain(&codec, &mut whole);

    // feed the same bytes one at a time, draining after each chunk
    let mut buf = BytesMut::new();
    let mut items_bytewise = Vec::new();
    for b in stream.iter() {
        buf.extend_from_slice(&[*b]);
        items_bytewise.extend(drain(&codec, &mut buf));
    }

    // and once more in irregular chunks
    let mut buf2 = BytesMut::new();
    let mut items_chunked = Vec::new();
    for chunk in [&stream[..3], &stream[3..9], &stream[9..10], &stream[10..]] {
        buf2.extend_from_slice(chunk);
        items_chunked.extend(drain(&codec, &mut buf2));
    }

    let expected = vec!["hello", "hello world", "", "a,b:c,d"];
    assert_eq!(items_whole, expected);
    assert_eq!(items_bytewise, expected);
    assert_eq!(items_chunked, expected);
}

#[test]
fn check_accepts_matching_length() {
    // "5:hello," with the colon at 1 and the comma at 7
    assert_eq!(netstring::codec::check(1, 7, b"5:hello,"), Ok(()));
}

#[test]
fn check_rejects_wrong_distance() {
    assert_eq!(
        netstring::codec::check(1, 6, b"5:hello,"),
        Err(DecodeError::TerminatorMismatch)
    );
}

#[test]
fn check_rejects_non_digit_length() {
    assert_eq!(
        netstring::codec::check(2, 5, b"ab:xx,"),
        Err(DecodeError::MalformedLength)
    );
}
