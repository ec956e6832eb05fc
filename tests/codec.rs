use mini_mqtt::codec::{
    connect_packet, decode_incoming, decode_packet, decode_publish_payload,
    decode_remaining_length, encode_remaining_length, packet_type, ping_packet, publish_packet,
    subscribe_packet, CodecError, Incoming, MAX_REMAINING_LENGTH,
};

#[test]
fn remaining_length_round_trip_samples() {
    let samples: Vec<usize> = vec![
        0, 1, 127, 128, 129, 300, 16383, 16384, 2097151, 2097152, 268435454, MAX_REMAINING_LENGTH,
    ];
    for n in samples {
        let enc = encode_remaining_length(n);
        assert_eq!(decode_remaining_length(&enc), Ok((n, enc.len())));
    }
}

#[test]
fn remaining_length_round_trip_with_trailing_bytes() {
    let mut enc = encode_remaining_length(16384);
    enc.extend_from_slice(&[0xFF, 0xFF, 0xFF]);
    assert_eq!(decode_remaining_length(&enc), Ok((16384, 3)));
}

#[test]
fn remaining_length_sizes_are_minimal() {
    assert_eq!(encode_remaining_length(0).len(), 1);
    assert_eq!(encode_remaining_length(127).len(), 1);
    assert_eq!(encode_remaining_length(128).len(), 2);
    assert_eq!(encode_remaining_length(16383).len(), 2);
    assert_eq!(encode_remaining_length(16384).len(), 3);
    assert_eq!(encode_remaining_length(2097151).len(), 3);
    assert_eq!(encode_remaining_length(2097152).len(), 4);
    assert_eq!(encode_remaining_length(268435455).len(), 4);
}

#[test]
fn remaining_length_exact_bytes() {
    assert_eq!(encode_remaining_length(0), vec![0x00]);
    assert_eq!(encode_remaining_length(127), vec![0x7F]);
    assert_eq!(encode_remaining_length(128), vec![0x80, 0x01]);
    assert_eq!(encode_remaining_length(300), vec![0xAC, 0x02]);
    assert_eq!(encode_remaining_length(268435455), vec![0xFF, 0xFF, 0xFF, 0x7F]);
}

#[test]
fn remaining_length_five_continuation_bytes_is_malformed() {
    let s = [0x80u8, 0x80, 0x80, 0x80, 0x80];
    assert_eq!(decode_remaining_length(&s), Err(CodecError::MalformedLength));
    let s = [0xFFu8, 0xFF, 0xFF, 0xFF, 0x01];
    assert_eq!(decode_remaining_length(&s), Err(CodecError::MalformedLength));
}

#[test]
fn remaining_length_truncated() {
    assert_eq!(decode_remaining_length(&[]), Err(CodecError::Truncated));
    assert_eq!(decode_remaining_length(&[0x80, 0x80]), Err(CodecError::Truncated));
}

#[test]
fn connect_abc() {
    let p = connect_packet("abc");
    assert_eq!(p[1] as usize, p.len() - 2);
    assert_eq!(&p[p.len() - 5..], &[0x00, 0x03, b'a', b'b', b'c']);
    assert_eq!(
        p,
        vec![
            0x10, 15, 0x00, 0x04, b'M', b'Q', b'T', b'T', 0x04, 0x02, 0x00, 0x3C, 0x00, 0x03, b'a',
            b'b', b'c'
        ]
    );
}

#[test]
fn connect_long_client_id_uses_two_length_bytes() {
    let id = "x".repeat(200);
    let p = connect_packet(&id);
    // 10 bytes of variable header, 2 of length prefix, 200 of identifier
    assert_eq!(&p[1..3], &[0x80 | (212 % 128) as u8, 1]);
    assert_eq!(p.len(), 1 + 2 + 212);
    assert_eq!(decode_remaining_length(&p[1..]), Ok((212, 2)));
}

#[test]
fn publish_round_trip() {
    let topic = "home/x/temperature_humidity";
    let message = "{\"temperature\": 21.50, \"humidity\": 55.00}";
    let p = publish_packet(topic, message, 0);
    assert_eq!(p[0], 0x30);
    let (len, used) = decode_remaining_length(&p[1..]).unwrap();
    assert_eq!(1 + used + len, p.len());
    let body = &p[1 + used..];
    let (t, m) = decode_publish_payload(body).unwrap();
    assert_eq!(t, topic);
    assert_eq!(m, message);
}

#[test]
fn publish_exact_bytes_and_qos_header() {
    let p = publish_packet("a/b", "hi", 0);
    assert_eq!(p, vec![0x30, 7, 0x00, 0x03, b'a', b'/', b'b', b'h', b'i']);
    assert_eq!(publish_packet("a", "", 1)[0], 0x32);
    assert_eq!(publish_packet("a", "", 2)[0], 0x34);
}

#[test]
fn publish_long_message_uses_varint_length() {
    let message = "m".repeat(300);
    let p = publish_packet("t", &message, 0);
    assert_eq!(decode_remaining_length(&p[1..]), Ok((303, 2)));
    assert_eq!(p.len(), 1 + 2 + 303);
}

#[test]
fn subscribe_t() {
    let p = subscribe_packet(1, "t", 0);
    assert_eq!(p[0], 0x82);
    assert_eq!(&p[p.len() - 4..], &[0x00, 0x01, b't', 0x00]);
    assert_eq!(p, vec![0x82, 6, 0x00, 0x01, 0x00, 0x01, b't', 0x00]);
}

#[test]
fn subscribe_packet_id_is_big_endian() {
    let p = subscribe_packet(0x1234, "ab", 1);
    assert_eq!(p, vec![0x82, 7, 0x12, 0x34, 0x00, 0x02, b'a', b'b', 0x01]);
}

#[test]
fn pingreq_bytes() {
    assert_eq!(ping_packet(), vec![0xC0, 0x00]);
}

#[test]
fn publish_payload_too_short_is_malformed() {
    assert_eq!(decode_publish_payload(&[]).unwrap_err(), CodecError::MalformedPacket);
    assert_eq!(decode_publish_payload(&[0x00]).unwrap_err(), CodecError::MalformedPacket);
    assert_eq!(
        decode_publish_payload(&[0x00, 0x05, b'a', b'b']).unwrap_err(),
        CodecError::MalformedPacket
    );
}

#[test]
fn publish_payload_empty_topic_and_message() {
    let (t, m) = decode_publish_payload(&[0x00, 0x00]).unwrap();
    assert_eq!(t, "");
    assert_eq!(m, "");
}

#[test]
fn publish_payload_invalid_utf8_is_replaced() {
    let (t, m) = decode_publish_payload(&[0x00, 0x02, b'a', 0xFF, b'o', 0xC3]).unwrap();
    assert_eq!(t, "a\u{FFFD}");
    assert_eq!(m, "o\u{FFFD}");
}

#[test]
fn publish_payload_multibyte_utf8() {
    let (t, m) = decode_publish_payload(&[0x00, 0x02, 0xC3, 0xA9, 0xE2, 0x82, 0xAC]).unwrap();
    assert_eq!(t, "\u{e9}");
    assert_eq!(m, "\u{20AC}");
}

#[test]
fn packet_type_is_high_nibble() {
    assert_eq!(packet_type(0x30), 3);
    assert_eq!(packet_type(0xD0), 13);
    assert_eq!(packet_type(0x9F), 9);
}

#[test]
fn pingresp_then_publish_dispatch() {
    let mut stream = vec![0xD0u8, 0x00];
    stream.extend(publish_packet("home/x/temperature_humidity", "{\"t\": 1}", 0));
    let (first, used) = decode_packet(&stream).unwrap();
    assert!(matches!(first, Incoming::PingResp));
    assert_eq!(used, 2);
    let (second, used2) = decode_packet(&stream[used..]).unwrap();
    assert_eq!(used + used2, stream.len());
    match second {
        Incoming::Publish { topic, message } => {
            assert_eq!(topic, "home/x/temperature_humidity");
            assert_eq!(message, "{\"t\": 1}");
        }
        other => panic!("unexpected packet {:?}", other),
    }
}

#[test]
fn other_packet_is_skipped_by_length() {
    let stream = [0x90u8, 0x03, 0x00, 0x01, 0x00, 0xD0, 0x00];
    let (p, used) = decode_packet(&stream).unwrap();
    assert!(matches!(p, Incoming::Other(9)));
    assert_eq!(used, 5);
    let (p2, used2) = decode_packet(&stream[used..]).unwrap();
    assert!(matches!(p2, Incoming::PingResp));
    assert_eq!(used2, 2);
}

#[test]
fn decode_packet_errors() {
    assert_eq!(decode_packet(&[]).unwrap_err(), CodecError::Truncated);
    assert_eq!(decode_packet(&[0x30]).unwrap_err(), CodecError::Truncated);
    assert_eq!(decode_packet(&[0x30, 0x04, 0x00]).unwrap_err(), CodecError::Truncated);
    assert_eq!(
        decode_packet(&[0x30, 0x80, 0x80, 0x80, 0x80, 0x01]).unwrap_err(),
        CodecError::MalformedLength
    );
    assert_eq!(decode_packet(&[0x30, 0x01, 0x00]).unwrap_err(), CodecError::MalformedPacket);
}

#[test]
fn decode_incoming_by_header() {
    assert!(matches!(decode_incoming(0xD0, &[]), Ok(Incoming::PingResp)));
    assert!(matches!(decode_incoming(0x20, &[0x00, 0x00]), Ok(Incoming::Other(2))));
    match decode_incoming(0x30, &[0x00, 0x01, b'z', b'!']) {
        Ok(Incoming::Publish { topic, message }) => {
            assert_eq!(topic, "z");
            assert_eq!(message, "!");
        }
        other => panic!("unexpected result {:?}", other),
    }
}
