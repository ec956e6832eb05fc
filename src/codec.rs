use vstd::prelude::*;
use vstd::string::StringSliceAdditionalSpecFns;
use vstd::utf8::{decode_utf8, encode_utf8, encode_utf8_decode_utf8, encode_utf8_valid_utf8, valid_utf8};

verus! {

/// Largest value that a four-byte remaining-length field can carry.
pub const MAX_REMAINING_LENGTH: usize = 268435455;

/// Errors found while reading packets from the wire.
#[derive(Clone, Copy, Debug, PartialEq, Eq, Structural)]
pub enum CodecError {
    /// Four bytes of a remaining-length field all had the continuation bit set.
    MalformedLength,
    /// A packet body is shorter than its own length fields claim.
    MalformedPacket,
    /// The bytes at hand end before the field or packet does.
    Truncated,
}

// ---------------------------------------------------------------------------
// Remaining length
// ---------------------------------------------------------------------------

/// The base-128 encoding of `n`: seven bits per byte, least significant group
/// first, the high bit set on every byte but the last.
pub open spec fn rl_bytes(n: nat) -> Seq<u8>
    decreases n,
{
    if n < 128 {
        seq![n as u8]
    } else {
        seq![(n % 128 + 128) as u8] + rl_bytes(n / 128)
    }
}

/// Number of bytes the minimal encoding of `n` takes, for `n` up to
/// `MAX_REMAINING_LENGTH`.
pub open spec fn rl_size(n: nat) -> nat {
    if n < 128 {
        1
    } else if n < 16384 {
        2
    } else if n < 2097152 {
        3
    } else {
        4
    }
}

/// `128` raised to `k`.
pub open spec fn pow128(k: nat) -> nat
    decreases k,
{
    if k == 0 {
        1
    } else {
        128 * pow128((k - 1) as nat)
    }
}

/// Reads a remaining-length field from the front of `s`, where at most
/// `budget` bytes may belong to it. On success gives the value and the number
/// of bytes the field took.
pub open spec fn rl_decode(s: Seq<u8>, budget: nat) -> Result<(nat, nat), CodecError>
    decreases budget,
{
    if budget == 0 {
        Err(CodecError::MalformedLength)
    } else if s.len() == 0 {
        Err(CodecError::Truncated)
    } else if s[0] < 128 {
        Ok((s[0] as nat, 1))
    } else {
        match rl_decode(s.drop_first(), (budget - 1) as nat) {
            Ok((v, used)) => Ok(((s[0] - 128) as nat + 128 * v, used + 1)),
            Err(e) => Err(e),
        }
    }
}

/// What the decoder of a remaining-length field gives for `s`: at most four
/// bytes are read.
pub open spec fn remaining_length_of(s: Seq<u8>) -> Result<(nat, nat), CodecError> {
    rl_decode(s, 4)
}

/// An executable result agrees with a mathematical one.
pub open spec fn same_length_result(
    r: Result<(usize, usize), CodecError>,
    m: Result<(nat, nat), CodecError>,
) -> bool {
    match (r, m) {
        (Ok((a, b)), Ok((c, d))) => a as nat == c && b as nat == d,
        (Err(x), Err(y)) => x == y,
        _ => false,
    }
}

proof fn lemma_pow128_values()
    ensures
        pow128(0) == 1,
        pow128(1) == 128,
        pow128(2) == 16384,
        pow128(3) == 2097152,
        pow128(4) == 268435456,
{
    reveal_with_fuel(pow128, 5);
}

proof fn lemma_pow128_positive(k: nat)
    ensures
        pow128(k) >= 1,
    decreases k,
{
    if k > 0 {
        lemma_pow128_positive((k - 1) as nat);
    }
}

proof fn lemma_rl_decode_bound(s: Seq<u8>, budget: nat)
    ensures
        rl_decode(s, budget) matches Ok((v, used)) ==> v < pow128(budget) && 1 <= used <= budget && used <= s.len(),
    decreases budget,
{
    if budget > 0 {
        lemma_pow128_positive((budget - 1) as nat);
    }
    if budget > 0 && s.len() > 0 && s[0] >= 128 {
        lemma_rl_decode_bound(s.drop_first(), (budget - 1) as nat);
        if let Ok((v, used)) = rl_decode(s.drop_first(), (budget - 1) as nat) {
            let p = pow128((budget - 1) as nat);
            let d = (s[0] - 128) as nat;
            assert(d + 128 * v < 128 * p) by (nonlinear_arith)
                requires
                    d < 128,
                    v < p,
            ;
        }
    }
}

/// The minimal encoding takes one byte below 128, two below 16384, three
/// below 2097152 and four up to `MAX_REMAINING_LENGTH`.
pub proof fn lemma_remaining_length_size(n: nat)
    requires
        n <= MAX_REMAINING_LENGTH,
    ensures
        rl_bytes(n).len() == rl_size(n),
    decreases n,
{
    if n >= 128 {
        lemma_remaining_length_size(n / 128);
    }
}

proof fn lemma_rl_decode_encode(n: nat, budget: nat, rest: Seq<u8>)
    requires
        n < pow128(budget),
        budget >= 1,
    ensures
        rl_decode(rl_bytes(n) + rest, budget) == Ok::<(nat, nat), CodecError>(
            (n, rl_bytes(n).len()),
        ),
    decreases n,
{
    let s = rl_bytes(n) + rest;
    if n < 128 {
    } else {
        assert(budget > 1) by {
            if budget <= 1 {
                reveal_with_fuel(pow128, 2);
            }
        }
        let p = pow128((budget - 1) as nat);
        assert(n / 128 < p) by (nonlinear_arith)
            requires
                n < 128 * p,
        ;
        lemma_rl_decode_encode(n / 128, (budget - 1) as nat, rest);
        assert(s.drop_first() =~= rl_bytes(n / 128) + rest);
    }
}

/// Decoding the encoding of any value up to `MAX_REMAINING_LENGTH` gives the
/// value back and consumes exactly the encoded bytes, whatever follows them.
pub proof fn lemma_remaining_length_round_trip(n: nat, rest: Seq<u8>)
    requires
        n <= MAX_REMAINING_LENGTH,
    ensures
        remaining_length_of(rl_bytes(n) + rest) == Ok::<(nat, nat), CodecError>(
            (n, rl_bytes(n).len()),
        ),
{
    lemma_pow128_values();
    lemma_rl_decode_encode(n, 4, rest);
}

/// Four leading bytes that all carry the continuation bit make the field
/// malformed; no fifth byte is read.
pub proof fn lemma_remaining_length_malformed(s: Seq<u8>)
    requires
        s.len() >= 4,
        forall|i: int| 0 <= i < 4 ==> #[trigger] s[i] & 0x80 != 0,
    ensures
        remaining_length_of(s) == Err::<(nat, nat), CodecError>(CodecError::MalformedLength),
{
    assert forall|b: u8| b & 0x80 != 0 implies b >= 128 by {
        assert(b & 0x80 != 0 ==> b >= 128) by (bit_vector);
    }
    assert(s[0] & 0x80 != 0 && s[1] & 0x80 != 0 && s[2] & 0x80 != 0 && s[3] & 0x80 != 0);
    let s1 = s.drop_first();
    let s2 = s1.drop_first();
    let s3 = s2.drop_first();
    assert(s1[0] == s[1] && s2[0] == s[2] && s3[0] == s[3]);
    reveal_with_fuel(rl_decode, 5);
}

/// Encodes `length` as a remaining-length field.
pub fn encode_remaining_length(length: usize) -> (r: Vec<u8>)
    ensures
        r@ == rl_bytes(length as nat),
        length <= MAX_REMAINING_LENGTH ==> r@.len() == rl_size(length as nat),
{
    let mut encoded: Vec<u8> = Vec::new();
    let mut rest: usize = length;
    while rest >= 128
        invariant
            encoded@ + rl_bytes(rest as nat) == rl_bytes(length as nat),
        decreases rest,
    {
        let digit: u8 = (rest % 128) as u8;
        assert(digit < 128 ==> digit | 0x80 == digit + 128) by (bit_vector);
        let byte: u8 = digit | 0x80;
        assert(encoded@.push(byte) + rl_bytes((rest / 128) as nat) =~= encoded@ + rl_bytes(
            rest as nat,
        ));
        encoded.push(byte);
        rest = rest / 128;
    }
    assert(encoded@.push(rest as u8) =~= encoded@ + rl_bytes(rest as nat));
    encoded.push(rest as u8);
    proof {
        if length <= MAX_REMAINING_LENGTH {
            lemma_remaining_length_size(length as nat);
        }
    }
    encoded
}

fn decode_length_at(s: &[u8], start: usize, budget: usize) -> (r: Result<(usize, usize), CodecError>)
    requires
        start <= s@.len(),
        budget <= 4,
    ensures
        same_length_result(r, rl_decode(s@.subrange(start as int, s@.len() as int), budget as nat)),
    decreases budget,
{
    let ghost tail = s@.subrange(start as int, s@.len() as int);
    if budget == 0 {
        return Err(CodecError::MalformedLength);
    }
    if start >= s.len() {
        return Err(CodecError::Truncated);
    }
    let byte: u8 = s[start];
    assert(byte & 0x80 == 0 <==> byte < 128) by (bit_vector);
    assert(byte >= 128 ==> byte & 0x7F == byte - 128) by (bit_vector);
    if byte & 0x80 == 0 {
        Ok((byte as usize, 1))
    } else {
        let inner = decode_length_at(s, start + 1, budget - 1);
        assert(tail.drop_first() =~= s@.subrange(start + 1, s@.len() as int));
        proof {
            lemma_rl_decode_bound(tail.drop_first(), (budget - 1) as nat);
            lemma_pow128_values();
            if budget - 1 < 4 {
                reveal_with_fuel(pow128, 4);
            }
        }
        match inner {
            Ok((v, used)) => Ok((((byte & 0x7F) as usize) + 128 * v, used + 1)),
            Err(e) => Err(e),
        }
    }
}

/// Reads a remaining-length field from the front of `stream`: the value, and
/// how many bytes the field took. `Truncated` means that more bytes are needed.
pub fn decode_remaining_length(stream: &[u8]) -> (r: Result<(usize, usize), CodecError>)
    ensures
        same_length_result(r, remaining_length_of(stream@)),
{
    assert(stream@.subrange(0, stream@.len() as int) =~= stream@);
    decode_length_at(stream, 0, 4)
}

// ---------------------------------------------------------------------------
// Outbound packets
// ---------------------------------------------------------------------------

/// `n` as two big-endian bytes.
pub open spec fn be16(n: nat) -> Seq<u8> {
    seq![(n / 256) as u8, (n % 256) as u8]
}

/// A length-prefixed string field: two bytes of length, then the bytes.
pub open spec fn prefixed(b: Seq<u8>) -> Seq<u8> {
    be16(b.len()) + b
}

/// A whole control packet: the fixed-header byte, the remaining length of
/// `rest` and `rest` itself.
pub open spec fn framed(header: u8, rest: Seq<u8>) -> Seq<u8> {
    seq![header] + rl_bytes(rest.len()) + rest
}

/// Variable header of a CONNECT packet: protocol name "MQTT", level 4,
/// clean session, keep-alive of 60 seconds.
pub open spec fn connect_header() -> Seq<u8> {
    seq![0x00u8, 0x04u8, 0x4Du8, 0x51u8, 0x54u8, 0x54u8, 0x04u8, 0x02u8, 0x00u8, 0x3Cu8]
}

/// CONNECT packet for a client identifier of the given UTF-8 bytes.
pub open spec fn connect_spec(client_id: Seq<u8>) -> Seq<u8> {
    framed(0x10, connect_header() + prefixed(client_id))
}

/// Fixed-header byte of a PUBLISH packet of the given QoS.
pub open spec fn publish_header(qos: u8) -> u8 {
    (0x30 + 2 * qos) as u8
}

/// PUBLISH packet: the topic, length-prefixed, then the raw message bytes.
pub open spec fn publish_spec(topic: Seq<u8>, message: Seq<u8>, qos: u8) -> Seq<u8> {
    framed(publish_header(qos), prefixed(topic) + message)
}

/// SUBSCRIBE packet with one topic filter.
pub open spec fn subscribe_spec(packet_id: u16, topic: Seq<u8>, qos: u8) -> Seq<u8> {
    framed(0x82, be16(packet_id as nat) + prefixed(topic) + seq![qos])
}

fn append_bytes(out: &mut Vec<u8>, bytes: &[u8])
    ensures
        final(out)@ == old(out)@ + bytes@,
{
    let mut i: usize = 0;
    while i < bytes.len()
        invariant
            i <= bytes@.len(),
            out@ == old(out)@ + bytes@.subrange(0, i as int),
        decreases bytes@.len() - i,
    {
        assert(bytes@.subrange(0, i + 1) =~= bytes@.subrange(0, i as int).push(bytes@[i as int]));
        out.push(bytes[i]);
        i = i + 1;
    }
    assert(bytes@.subrange(0, bytes@.len() as int) =~= bytes@);
}

fn push_be16(out: &mut Vec<u8>, n: usize)
    requires
        n <= 0xFFFF,
    ensures
        final(out)@ == old(out)@ + be16(n as nat),
{
    out.push((n >> 8) as u8);
    out.push((n & 0xFF) as u8);
    assert(n >> 8 == n / 256 && n & 0xFF == n % 256) by (bit_vector)
        requires
            n <= 0xFFFF,
    ;
    assert(final(out)@ =~= old(out)@ + be16(n as nat)) by {
        assert(out@ =~= old(out)@ + be16(n as nat));
    }
}

fn frame(header: u8, body: Vec<u8>) -> (r: Vec<u8>)
    ensures
        r@ == framed(header, body@),
{
    let ghost body_view = body@;
    let mut packet: Vec<u8> = vec![header];
    let mut length = encode_remaining_length(body.len());
    let mut rest = body;
    packet.append(&mut length);
    packet.append(&mut rest);
    assert(packet@ =~= framed(header, body_view));
    packet
}

/// Builds a CONNECT packet for `client_id`, with a clean session and a
/// keep-alive of 60 seconds.
pub fn connect_packet(client_id: &str) -> (r: Vec<u8>)
    requires
        client_id.spec_bytes().len() <= 0xFFFF,
    ensures
        r@ == connect_spec(client_id.spec_bytes()),
{
    // protocol name "MQTT", level 4, clean session, keep-alive 60 s
    let mut body: Vec<u8> = vec![0x00, 0x04, 0x4D, 0x51, 0x54, 0x54, 0x04, 0x02, 0x00, 0x3C];
    assert(body@ =~= connect_header());
    let id_bytes = client_id.as_bytes();
    push_be16(&mut body, id_bytes.len());
    append_bytes(&mut body, id_bytes);
    assert(body@ =~= connect_header() + prefixed(client_id.spec_bytes()));
    frame(0x10, body)
}

/// Builds a PUBLISH packet of `message` on `topic`. No packet identifier is
/// written, so the packet is well formed for QoS 0.
pub fn publish_packet(topic: &str, message: &str, qos: u8) -> (r: Vec<u8>)
    requires
        qos <= 2,
        topic.spec_bytes().len() <= 0xFFFF,
        2 + topic.spec_bytes().len() + message.spec_bytes().len() <= usize::MAX,
    ensures
        r@ == publish_spec(topic.spec_bytes(), message.spec_bytes(), qos),
{
    assert(qos <= 2 ==> 0x30 | (qos << 1) == 0x30 + 2 * qos) by (bit_vector);
    let packet_type: u8 = 0x30 | (qos << 1);
    let topic_bytes = topic.as_bytes();
    let message_bytes = message.as_bytes();
    let mut body: Vec<u8> = Vec::new();
    push_be16(&mut body, topic_bytes.len());
    append_bytes(&mut body, topic_bytes);
    append_bytes(&mut body, message_bytes);
    assert(body@ =~= prefixed(topic.spec_bytes()) + message.spec_bytes());
    frame(packet_type, body)
}

/// Builds a SUBSCRIBE packet that asks for one topic filter at `qos`.
pub fn subscribe_packet(packet_id: u16, topic: &str, qos: u8) -> (r: Vec<u8>)
    requires
        topic.spec_bytes().len() <= 0xFFFF,
    ensures
        r@ == subscribe_spec(packet_id, topic.spec_bytes(), qos),
{
    let mut body: Vec<u8> = Vec::new();
    push_be16(&mut body, packet_id as usize);
    let topic_bytes = topic.as_bytes();
    push_be16(&mut body, topic_bytes.len());
    append_bytes(&mut body, topic_bytes);
    body.push(qos);
    assert(body@ =~= be16(packet_id as nat) + prefixed(topic.spec_bytes()) + seq![qos]);
    frame(0x82, body)
}

/// The two bytes of a PINGREQ packet.
pub open spec fn ping_spec() -> Seq<u8> {
    seq![0xC0u8, 0x00u8]
}

/// Builds a PINGREQ packet: the fixed header and a remaining length of zero.
pub fn ping_packet() -> (r: Vec<u8>)
    ensures
        r@ == ping_spec(),
{
    let r = vec![0xC0u8, 0x00u8];
    assert(r@ =~= ping_spec());
    r
}

// ---------------------------------------------------------------------------
// Inbound packets
// ---------------------------------------------------------------------------

/// Text that lenient UTF-8 decoding gives for bytes that are not valid UTF-8.
pub uninterp spec fn utf8_lossy(b: Seq<u8>) -> Seq<char>;

/// Lenient UTF-8 decoding: valid input decodes as usual, and decoding never
/// fails.
pub open spec fn lossy_text(b: Seq<u8>) -> Seq<char> {
    if valid_utf8(b) {
        decode_utf8(b)
    } else {
        utf8_lossy(b)
    }
}

/// Relies on `String::from_utf8_lossy`: valid UTF-8 is returned as that same
/// text; otherwise invalid sequences become U+FFFD, which depends on the bytes
/// alone.
#[verifier::external_body]
fn text_of(b: &[u8]) -> (r: String)
    ensures
        valid_utf8(b@) ==> r@ == decode_utf8(b@),
        !valid_utf8(b@) ==> r@ == utf8_lossy(b@),
{
    String::from_utf8_lossy(b).into_owned()
}

fn copy_range(s: &[u8], from: usize, to: usize) -> (r: Vec<u8>)
    requires
        from <= to <= s@.len(),
    ensures
        r@ == s@.subrange(from as int, to as int),
{
    let mut r: Vec<u8> = Vec::new();
    let mut i: usize = from;
    while i < to
        invariant
            from <= i <= to <= s@.len(),
            r@ == s@.subrange(from as int, i as int),
        decreases to - i,
    {
        assert(s@.subrange(from as int, i + 1) =~= s@.subrange(from as int, i as int).push(
            s@[i as int],
        ));
        r.push(s[i]);
        i = i + 1;
    }
    r
}

/// Topic length announced by the first two bytes of a PUBLISH body.
pub open spec fn topic_len_of(body: Seq<u8>) -> nat {
    body[0] as nat * 256 + body[1] as nat
}

/// Topic and message of a QoS 0 PUBLISH body: a length-prefixed topic, and the
/// rest as the message, both decoded leniently.
pub open spec fn publish_body_spec(body: Seq<u8>) -> Result<(Seq<char>, Seq<char>), CodecError> {
    if body.len() < 2 || body.len() < 2 + topic_len_of(body) {
        Err(CodecError::MalformedPacket)
    } else {
        let end = 2 + topic_len_of(body);
        Ok(
            (
                lossy_text(body.subrange(2, end as int)),
                lossy_text(body.subrange(end as int, body.len() as int)),
            ),
        )
    }
}

/// Splits a PUBLISH body into its topic and its message. A body too short for
/// its own topic length is `MalformedPacket`.
pub fn decode_publish_payload(payload: &[u8]) -> (r: Result<(String, String), CodecError>)
    ensures
        match (r, publish_body_spec(payload@)) {
            (Ok((t, m)), Ok((st, sm))) => t@ == st && m@ == sm,
            (Err(e), Err(se)) => e == se,
            _ => false,
        },
{
    if payload.len() < 2 {
        return Err(CodecError::MalformedPacket);
    }
    let topic_len: usize = (payload[0] as usize) * 256 + (payload[1] as usize);
    if payload.len() - 2 < topic_len {
        return Err(CodecError::MalformedPacket);
    }
    let end: usize = 2 + topic_len;
    let topic_bytes = copy_range(payload, 2, end);
    let message_bytes = copy_range(payload, end, payload.len());
    let topic = text_of(topic_bytes.as_slice());
    let message = text_of(message_bytes.as_slice());
    Ok((topic, message))
}

/// Packet-type number of PUBLISH.
pub const PUBLISH_TYPE: u8 = 3;

/// Packet-type number of PINGRESP.
pub const PINGRESP_TYPE: u8 = 13;

/// Packet type carried in the high nibble of a fixed-header byte.
pub fn packet_type(header: u8) -> (r: u8)
    ensures
        r == header / 16,
{
    assert(header >> 4 == header / 16) by (bit_vector);
    header >> 4
}

/// A packet received from the broker.
#[derive(Debug)]
pub enum Incoming {
    Publish { topic: String, message: String },
    PingResp,
    /// Any other packet, by its type number; its body is skipped.
    Other(u8),
}

/// The mathematical value of an `Incoming` packet.
pub enum IncomingView {
    Publish { topic: Seq<char>, message: Seq<char> },
    PingResp,
    Other(u8),
}

impl View for Incoming {
    type V = IncomingView;

    open spec fn view(&self) -> IncomingView {
        match self {
            Incoming::Publish { topic, message } => IncomingView::Publish {
                topic: topic@,
                message: message@,
            },
            Incoming::PingResp => IncomingView::PingResp,
            Incoming::Other(t) => IncomingView::Other(*t),
        }
    }
}

/// What a packet with fixed-header byte `header` and body `body` is.
pub open spec fn incoming_spec(header: u8, body: Seq<u8>) -> Result<IncomingView, CodecError> {
    let t = header / 16;
    if t == PUBLISH_TYPE {
        match publish_body_spec(body) {
            Ok((topic, message)) => Ok(IncomingView::Publish { topic, message }),
            Err(e) => Err(e),
        }
    } else if t == PINGRESP_TYPE {
        Ok(IncomingView::PingResp)
    } else {
        Ok(IncomingView::Other(t))
    }
}

/// Dispatches a received packet by its type: a PUBLISH body is decoded, a
/// PINGRESP recognised, anything else reported by its type number.
pub fn decode_incoming(header: u8, body: &[u8]) -> (r: Result<Incoming, CodecError>)
    ensures
        match r {
            Ok(p) => incoming_spec(header, body@) == Ok::<IncomingView, CodecError>(p@),
            Err(e) => incoming_spec(header, body@) == Err::<IncomingView, CodecError>(e),
        },
{
    let t = packet_type(header);
    if t == PUBLISH_TYPE {
        match decode_publish_payload(body) {
            Ok((topic, message)) => Ok(Incoming::Publish { topic, message }),
            Err(e) => Err(e),
        }
    } else if t == PINGRESP_TYPE {
        Ok(Incoming::PingResp)
    } else {
        Ok(Incoming::Other(t))
    }
}

/// The first whole packet at the front of `s`, and the number of bytes it
/// takes: fixed header, remaining length, then exactly that many body bytes.
pub open spec fn packet_spec(s: Seq<u8>) -> Result<(IncomingView, nat), CodecError> {
    if s.len() == 0 {
        Err(CodecError::Truncated)
    } else {
        match remaining_length_of(s.drop_first()) {
            Err(e) => Err(e),
            Ok((len, used)) => if s.len() < 1 + used + len {
                Err(CodecError::Truncated)
            } else {
                match incoming_spec(s[0], s.subrange((1 + used) as int, (1 + used + len) as int)) {
                    Ok(p) => Ok((p, 1 + used + len)),
                    Err(e) => Err(e),
                }
            },
        }
    }
}

/// Reads the first packet from `stream` and reports how many bytes it took,
/// so that the next packet starts right after it.
pub fn decode_packet(stream: &[u8]) -> (r: Result<(Incoming, usize), CodecError>)
    ensures
        match r {
            Ok((p, n)) => packet_spec(stream@) == Ok::<(IncomingView, nat), CodecError>(
                (p@, n as nat),
            ),
            Err(e) => packet_spec(stream@) == Err::<(IncomingView, nat), CodecError>(e),
        },
{
    if stream.len() == 0 {
        return Err(CodecError::Truncated);
    }
    let header = stream[0];
    let ghost tail = stream@.drop_first();
    assert(stream@.subrange(1, stream@.len() as int) =~= tail);
    let (len, used) = match decode_length_at(stream, 1, 4) {
        Ok(r) => r,
        Err(e) => {
            return Err(e);
        },
    };
    proof {
        lemma_rl_decode_bound(tail, 4);
        lemma_pow128_values();
    }
    if stream.len() - 1 - used < len {
        return Err(CodecError::Truncated);
    }
    let start: usize = 1 + used;
    let end: usize = start + len;
    let body = copy_range(stream, start, end);
    match decode_incoming(header, body.as_slice()) {
        Ok(p) => Ok((p, end)),
        Err(e) => Err(e),
    }
}

/// A QoS 0 PUBLISH packet reads back as the topic and message it was built
/// from: its body alone, and the whole packet, which takes all of its bytes.
pub proof fn lemma_publish_round_trip(topic: Seq<char>, message: Seq<char>)
    requires
        encode_utf8(topic).len() <= 0xFFFF,
        2 + encode_utf8(topic).len() + encode_utf8(message).len() <= MAX_REMAINING_LENGTH,
    ensures
        publish_body_spec(prefixed(encode_utf8(topic)) + encode_utf8(message)) == Ok::<
            (Seq<char>, Seq<char>),
            CodecError,
        >((topic, message)),
        packet_spec(publish_spec(encode_utf8(topic), encode_utf8(message), 0)) == Ok::<
            (IncomingView, nat),
            CodecError,
        >(
            (
                IncomingView::Publish { topic, message },
                publish_spec(encode_utf8(topic), encode_utf8(message), 0).len(),
            ),
        ),
{
    let tb = encode_utf8(topic);
    let mb = encode_utf8(message);
    let n = tb.len();
    let body = prefixed(tb) + mb;
    assert(body[0] == (n / 256) as u8 && body[1] == (n % 256) as u8);
    assert(topic_len_of(body) == n);
    assert(body.subrange(2, 2 + n as int) =~= tb);
    assert(body.subrange(2 + n as int, body.len() as int) =~= mb);
    encode_utf8_valid_utf8(topic);
    encode_utf8_valid_utf8(message);
    encode_utf8_decode_utf8(topic);
    encode_utf8_decode_utf8(message);

    let pkt = publish_spec(tb, mb, 0);
    let len = body.len();
    assert(pkt.drop_first() =~= rl_bytes(len) + body);
    lemma_remaining_length_round_trip(len, body);
    let used = rl_bytes(len).len();
    assert(pkt.subrange((1 + used) as int, (1 + used + len) as int) =~= body);
    assert(pkt[0] / 16 == PUBLISH_TYPE);
}

/// In a stream that holds a PINGRESP and then a QoS 0 PUBLISH, the first
/// packet read is the PINGRESP, two bytes long, and the packet right after it
/// is the PUBLISH with its topic and message intact.
pub proof fn lemma_pingresp_then_publish(topic: Seq<char>, message: Seq<char>)
    requires
        encode_utf8(topic).len() <= 0xFFFF,
        2 + encode_utf8(topic).len() + encode_utf8(message).len() <= MAX_REMAINING_LENGTH,
    ensures
        ({
            let publish = publish_spec(encode_utf8(topic), encode_utf8(message), 0);
            let stream = seq![0xD0u8, 0x00u8] + publish;
            &&& packet_spec(stream) == Ok::<(IncomingView, nat), CodecError>(
                (IncomingView::PingResp, 2),
            )
            &&& packet_spec(stream.skip(2)) == Ok::<(IncomingView, nat), CodecError>(
                (IncomingView::Publish { topic, message }, publish.len()),
            )
        }),
{
    let publish = publish_spec(encode_utf8(topic), encode_utf8(message), 0);
    let stream = seq![0xD0u8, 0x00u8] + publish;
    lemma_publish_round_trip(topic, message);
    assert(stream.skip(2) =~= publish);
    let tail = stream.drop_first();
    assert(tail[0] == 0u8);
    assert(remaining_length_of(tail) == Ok::<(nat, nat), CodecError>((0, 1)));
    assert(stream.subrange(2, 2) =~= Seq::<u8>::empty());
    assert(stream[0] / 16 == PINGRESP_TYPE);
}

} // verus!
