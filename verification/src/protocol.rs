//! Sony headphones RFCOMM protocol.
//!
//! Packet format:
//!   `[START=0x3E] [escaped payload] [END=0x3C]`
//!
//! Payload (before escaping):
//!   `[data_type:1] [seq:1] [size:4 BE] [command_data:N] [checksum:1]`
//!
//! Sequence numbers alternate 0 and 1. The client acknowledges a device
//! message with `1 - device_seq`, and takes the sequence number of a device
//! acknowledgement for its next command.
use vstd::prelude::*;
use vstd::slice::{slice_subrange, slice_to_vec};
use vstd::arithmetic::div_mod::lemma_add_mod_noop;

verus! {

/// First byte of every frame.
pub const START_MARKER: u8 = 0x3E;

/// Last byte of every frame.
pub const END_MARKER: u8 = 0x3C;

/// Prefix of an escaped byte inside a frame.
pub const ESCAPE_BYTE: u8 = 0x3D;

/// Kind of a packet, the first byte of its content.
#[derive(Debug, Clone, Copy, PartialEq, Eq, Structural)]
pub enum DataType {
    /// Acknowledgement (byte 1).
    Ack,
    /// Command channel 1 (byte 12).
    DataMdr,
    /// Command channel 2 (byte 14).
    DataMdrNo2,
}

/// The byte that stands for a data type on the wire.
pub open spec fn data_type_code(dt: DataType) -> u8 {
    match dt {
        DataType::Ack => 1,
        DataType::DataMdr => 12,
        DataType::DataMdrNo2 => 14,
    }
}

/// The data type that a byte stands for, if any.
pub open spec fn data_type_of(v: u8) -> Option<DataType> {
    if v == 1 {
        Some(DataType::Ack)
    } else if v == 12 {
        Some(DataType::DataMdr)
    } else if v == 14 {
        Some(DataType::DataMdrNo2)
    } else {
        None
    }
}

impl DataType {
    /// Decodes the data-type byte of a packet.
    pub fn from_u8(v: u8) -> (r: Option<Self>)
        ensures
            r == data_type_of(v),
    {
        match v {
            1 => Some(DataType::Ack),
            12 => Some(DataType::DataMdr),
            14 => Some(DataType::DataMdrNo2),
            _ => None,
        }
    }

    /// The byte that stands for this data type on the wire.
    pub fn code(self) -> (r: u8)
        ensures
            r == data_type_code(self),
    {
        match self {
            DataType::Ack => 1,
            DataType::DataMdr => 12,
            DataType::DataMdrNo2 => 14,
        }
    }
}


/// A decoded packet: its kind, its sequence number and its command data.
#[derive(Debug)]
pub struct Message {
    pub data_type: DataType,
    pub seq: u8,
    pub payload: Vec<u8>,
}

impl View for Message {
    type V = (DataType, u8, Seq<u8>);

    open spec fn view(&self) -> (DataType, u8, Seq<u8>) {
        (self.data_type, self.seq, self.payload@)
    }
}

/// The bytes that stand for one content byte inside a frame.
pub open spec fn escape_byte(b: u8) -> Seq<u8> {
    if b == 0x3C {
        seq![ESCAPE_BYTE, 0x2C]
    } else if b == 0x3D {
        seq![ESCAPE_BYTE, 0x2D]
    } else if b == 0x3E {
        seq![ESCAPE_BYTE, 0x2E]
    } else {
        seq![b]
    }
}

/// The escaped form of a byte sequence: each byte replaced by `escape_byte`.
pub open spec fn escape_spec(s: Seq<u8>) -> Seq<u8>
    decreases s.len(),
{
    if s.len() == 0 {
        seq![]
    } else {
        escape_byte(s[0]) + escape_spec(s.drop_first())
    }
}

/// The byte that an escaped pair `ESCAPE_BYTE, b` stands for.
pub open spec fn unescape_byte(b: u8) -> u8 {
    if b == 0x2C {
        0x3C
    } else if b == 0x2D {
        0x3D
    } else if b == 0x2E {
        0x3E
    } else {
        b
    }
}

/// Undoes escaping, read from the left: `ESCAPE_BYTE` followed by any byte
/// is one byte; a trailing lone `ESCAPE_BYTE` and all other bytes stand for
/// themselves.
pub open spec fn unescape_spec(s: Seq<u8>) -> Seq<u8>
    decreases s.len(),
{
    if s.len() == 0 {
        seq![]
    } else if s[0] == ESCAPE_BYTE && s.len() >= 2 {
        seq![unescape_byte(s[1])] + unescape_spec(s.skip(2))
    } else {
        seq![s[0]] + unescape_spec(s.drop_first())
    }
}

/// Escapes the three marker bytes of the frame format.
pub fn escape(data: &[u8]) -> (out: Vec<u8>)
    ensures
        out@ == escape_spec(data@),
{
    let mut out: Vec<u8> = Vec::with_capacity(data.len());
    let mut i: usize = 0;
    assert(data@.skip(0) =~= data@);
    assert(out@ + escape_spec(data@) =~= escape_spec(data@));
    while i < data.len()
        invariant
            i <= data@.len(),
            escape_spec(data@) == out@ + escape_spec(data@.skip(i as int)),
        decreases data@.len() - i,
    {
        let b = data[i];
        let ghost before = out@;
        proof {
            assert(data@.skip(i as int).drop_first() =~= data@.skip(i + 1));
            assert(data@.skip(i as int)[0] == b);
        }
        if b == 0x3C {
            out.push(ESCAPE_BYTE);
            out.push(0x2C);
        } else if b == 0x3D {
            out.push(ESCAPE_BYTE);
            out.push(0x2D);
        } else if b == 0x3E {
            out.push(ESCAPE_BYTE);
            out.push(0x2E);
        } else {
            out.push(b);
        }
        assert(out@ =~= before + escape_byte(b));
        i = i + 1;
    }
    proof {
        assert(data@.skip(i as int) =~= Seq::<u8>::empty());
        assert(out@ + Seq::<u8>::empty() =~= out@);
    }
    out
}

/// Undoes `escape`: a pair `ESCAPE_BYTE, b` gives back one byte.
pub fn unescape(data: &[u8]) -> (out: Vec<u8>)
    ensures
        out@ == unescape_spec(data@),
{
    let mut out: Vec<u8> = Vec::with_capacity(data.len());
    let mut i: usize = 0;
    assert(data@.skip(0) =~= data@);
    assert(out@ + unescape_spec(data@) =~= unescape_spec(data@));
    while i < data.len()
        invariant
            i <= data@.len(),
            unescape_spec(data@) == out@ + unescape_spec(data@.skip(i as int)),
        decreases data@.len() - i,
    {
        let ghost before = out@;
        let ghost rest = data@.skip(i as int);
        assert(rest[0] == data@[i as int]);
        if data[i] == ESCAPE_BYTE && i + 1 < data.len() {
            let next = data[i + 1];
            let unescaped: u8 = if next == 0x2C {
                0x3C
            } else if next == 0x2D {
                0x3D
            } else if next == 0x2E {
                0x3E
            } else {
                next
            };
            out.push(unescaped);
            assert(rest[1] == next);
            assert(rest.skip(2) =~= data@.skip(i + 2));
            assert(out@ =~= before + seq![unescape_byte(next)]);
            i = i + 2;
        } else {
            out.push(data[i]);
            assert(rest.drop_first() =~= data@.skip(i + 1));
            assert(out@ =~= before + seq![data@[i as int]]);
            i = i + 1;
        }
    }
    assert(data@.skip(i as int) =~= Seq::<u8>::empty());
    assert(out@ + Seq::<u8>::empty() =~= out@);
    out
}

/// The sum of a byte sequence, as an integer.
pub open spec fn byte_sum(s: Seq<u8>) -> int
    decreases s.len(),
{
    if s.len() == 0 {
        0
    } else {
        byte_sum(s.drop_last()) + s.last()
    }
}

/// The packet checksum: the sum of the bytes, modulo 256.
pub open spec fn checksum_spec(s: Seq<u8>) -> u8 {
    (byte_sum(s) % 256) as u8
}

/// The checksum of the first `n` bytes of `data`.
fn checksum_prefix(data: &[u8], n: usize) -> (r: u8)
    requires
        n <= data@.len(),
    ensures
        r == checksum_spec(data@.take(n as int)),
{
    let mut acc: u8 = 0;
    let mut i: usize = 0;
    assert(data@.take(0) =~= Seq::<u8>::empty());
    while i < n
        invariant
            i <= n <= data@.len(),
            acc == checksum_spec(data@.take(i as int)),
        decreases n - i,
    {
        let b = data[i];
        proof {
            let t = data@.take(i + 1);
            assert(t.drop_last() =~= data@.take(i as int));
            assert(t.last() == b);
            let prev = byte_sum(data@.take(i as int));
            lemma_add_mod_noop(prev, b as int, 256);
            assert((b as int) % 256 == b as int);
        }
        acc = acc.wrapping_add(b);
        i = i + 1;
    }
    acc
}

/// Sum of all bytes, wrapping at 256.
pub fn checksum(data: &[u8]) -> (r: u8)
    ensures
        r == checksum_spec(data@),
{
    assert(data@.take(data@.len() as int) =~= data@);
    checksum_prefix(data, data.len())
}

/// The four big-endian bytes of a 32-bit number.
pub open spec fn be32_bytes(n: u32) -> Seq<u8> {
    seq![
        (n / 0x1000000) as u8,
        ((n / 0x10000) % 0x100) as u8,
        ((n / 0x100) % 0x100) as u8,
        (n % 0x100) as u8,
    ]
}

/// The number that four big-endian bytes starting at `i` stand for.
pub open spec fn be32_value(s: Seq<u8>, i: int) -> int {
    s[i] * 0x1000000 + s[i + 1] * 0x10000 + s[i + 2] * 0x100 + s[i + 3]
}

/// The packet content before the checksum byte: kind, sequence number,
/// 32-bit size (the payload length, truncated to 32 bits) and payload.
pub open spec fn packet_body(dt: DataType, seq: u8, payload: Seq<u8>) -> Seq<u8> {
    seq![data_type_code(dt), seq] + be32_bytes((payload.len() % 0x1_0000_0000) as u32) + payload
}

/// The packet content: the body followed by its checksum.
pub open spec fn packet_content(dt: DataType, seq: u8, payload: Seq<u8>) -> Seq<u8> {
    packet_body(dt, seq, payload).push(checksum_spec(packet_body(dt, seq, payload)))
}

/// The framed packet as sent on the wire.
pub open spec fn packet_spec(dt: DataType, seq: u8, payload: Seq<u8>) -> Seq<u8> {
    seq![START_MARKER] + escape_spec(packet_content(dt, seq, payload)) + seq![END_MARKER]
}

/// What a packet content decodes to, if it is well formed: at least seven
/// bytes, a known kind, room for the announced payload and its checksum,
/// and a checksum byte equal to the sum of all bytes before it.
pub open spec fn parse_spec(raw: Seq<u8>) -> Option<(DataType, u8, Seq<u8>)> {
    if raw.len() < 7 {
        None
    } else {
        match data_type_of(raw[0]) {
            None => None,
            Some(dt) => {
                let size = be32_value(raw, 2);
                if raw.len() < 7 + size {
                    None
                } else if raw[6 + size] != checksum_spec(raw.take(6 + size)) {
                    None
                } else {
                    Some((dt, raw[1], raw.subrange(6, 6 + size)))
                }
            },
        }
    }
}

/// Frames a packet: header, payload and checksum, escaped between the
/// start and end markers.
pub fn build_packet(dt: DataType, seq: u8, payload: &[u8]) -> (pkt: Vec<u8>)
    ensures
        pkt@ == packet_spec(dt, seq, payload@),
{
    let n: u32 = (payload.len() as u64 % 0x1_0000_0000) as u32;
    let mut raw: Vec<u8> = Vec::new();
    raw.push(dt.code());
    raw.push(seq);
    raw.push((n / 0x1000000) as u8);
    raw.push(((n / 0x10000) % 0x100) as u8);
    raw.push(((n / 0x100) % 0x100) as u8);
    raw.push((n % 0x100) as u8);
    raw.extend_from_slice(payload);
    assert(raw@ =~= packet_body(dt, seq, payload@));
    let chk = checksum(raw.as_slice());
    raw.push(chk);
    let escaped = escape(raw.as_slice());
    let mut pkt: Vec<u8> = Vec::new();
    pkt.push(START_MARKER);
    pkt.extend_from_slice(escaped.as_slice());
    pkt.push(END_MARKER);
    assert(pkt@ =~= packet_spec(dt, seq, payload@));
    pkt
}

/// Decodes an unescaped packet content, or `None` if it is malformed.
pub fn parse_packet(raw: &[u8]) -> (r: Option<Message>)
    ensures
        match r {
            Some(m) => parse_spec(raw@) == Some(m@),
            None => parse_spec(raw@) is None,
        },
{
    if raw.len() < 7 {
        return None;
    }
    let dt = match DataType::from_u8(raw[0]) {
        Some(dt) => dt,
        None => return None,
    };
    let seq = raw[1];
    let size: u64 = (raw[2] as u64) * 0x1000000 + (raw[3] as u64) * 0x10000 + (raw[4] as u64) * 0x100
        + (raw[5] as u64);
    assert(size == be32_value(raw@, 2));
    if (raw.len() as u64) < 7 + size {
        return None;
    }
    let end: usize = 6 + size as usize;
    let payload = slice_to_vec(slice_subrange(raw, 6, end));
    let chk = raw[end];
    if chk != checksum_prefix(raw, end) {
        return None;
    }
    Some(Message { data_type: dt, seq, payload })
}

/// The acknowledgement of a device message with sequence number
/// `device_seq`: an empty `Ack` packet numbered `1 - device_seq`.
pub fn build_ack(device_seq: u8) -> (pkt: Vec<u8>)
    requires
        device_seq <= 1,
    ensures
        pkt@ == packet_spec(DataType::Ack, (1 - device_seq) as u8, Seq::<u8>::empty()),
{
    let empty: Vec<u8> = Vec::new();
    build_packet(DataType::Ack, 1 - device_seq, empty.as_slice())
}

/// Unescaping the escaped form of one byte, followed by anything, gives
/// that byte followed by the unescaping of the rest.
proof fn lemma_unescape_escaped_byte(b: u8, t: Seq<u8>)
    ensures
        unescape_spec(escape_byte(b) + t) == seq![b] + unescape_spec(t),
{
    let e = escape_byte(b) + t;
    if b == 0x3C || b == 0x3D || b == 0x3E {
        assert(e[0] == ESCAPE_BYTE);
        assert(e.skip(2) =~= t);
    } else {
        assert(e[0] == b);
        assert(e.drop_first() =~= t);
    }
}

/// Unescaping undoes escaping, for every byte sequence.
pub proof fn lemma_unescape_escape(data: Seq<u8>)
    ensures
        unescape_spec(escape_spec(data)) == data,
    decreases data.len(),
{
    if data.len() == 0 {
        assert(escape_spec(data) =~= Seq::<u8>::empty());
    } else {
        lemma_unescape_escape(data.drop_first());
        lemma_unescape_escaped_byte(data[0], escape_spec(data.drop_first()));
        assert(seq![data[0]] + data.drop_first() =~= data);
    }
}

/// The escaped form of any byte sequence holds neither frame marker, so a
/// frame's end is the first end marker after its start.
pub proof fn lemma_escape_has_no_markers(data: Seq<u8>)
    ensures
        forall|i: int|
            0 <= i < escape_spec(data).len() ==> #[trigger] escape_spec(data)[i] != START_MARKER
                && escape_spec(data)[i] != END_MARKER,
    decreases data.len(),
{
    if data.len() > 0 {
        lemma_escape_has_no_markers(data.drop_first());
        let head = escape_byte(data[0]);
        let tail = escape_spec(data.drop_first());
        assert forall|i: int| 0 <= i < escape_spec(data).len() implies #[trigger] escape_spec(
            data,
        )[i] != START_MARKER && escape_spec(data)[i] != END_MARKER by {
            if i >= head.len() {
                assert(escape_spec(data)[i] == tail[i - head.len()]);
            }
        }
    }
}

/// Escaping leaves a sequence unchanged exactly when it holds none of the
/// three bytes that the format reserves.
pub proof fn lemma_escape_identity(data: Seq<u8>)
    ensures
        (escape_spec(data) == data) <==> (forall|i: int|
            0 <= i < data.len() ==> #[trigger] data[i] != 0x3C && data[i] != 0x3D && data[i]
                != 0x3E),
    decreases data.len(),
{
    lemma_escape_len(data);
    if data.len() > 0 {
        lemma_escape_identity(data.drop_first());
        let b = data[0];
        let rest = data.drop_first();
        if b == 0x3C || b == 0x3D || b == 0x3E {
            lemma_escape_len(rest);
            assert(escape_spec(data).len() > data.len());
        } else {
            assert(escape_spec(data) == seq![b] + escape_spec(rest));
            if escape_spec(rest) == rest {
                assert(escape_spec(data) =~= data);
            } else {
                assert(escape_spec(data) != data) by {
                    if escape_spec(data) == data {
                        assert(escape_spec(data).drop_first() =~= escape_spec(rest));
                        assert(data.drop_first() == rest);
                    }
                }
            }
            assert((forall|i: int|
                0 <= i < data.len() ==> #[trigger] data[i] != 0x3C && data[i] != 0x3D && data[i]
                    != 0x3E) <==> (forall|i: int|
                0 <= i < rest.len() ==> #[trigger] rest[i] != 0x3C && rest[i] != 0x3D && rest[i]
                    != 0x3E)) by {
                assert forall|i: int| 0 < i < data.len() implies data[i] == #[trigger] rest[i - 1] by {
                }
            }
        }
    } else {
        assert(escape_spec(data) =~= data);
    }
}

/// Escaping never shortens; it lengthens by one for each reserved byte.
proof fn lemma_escape_len(data: Seq<u8>)
    ensures
        escape_spec(data).len() >= data.len(),
        (exists|i: int| 0 <= i < data.len() && (#[trigger] data[i] == 0x3C || data[i] == 0x3D
            || data[i] == 0x3E)) ==> escape_spec(data).len() > data.len(),
    decreases data.len(),
{
    if data.len() > 0 {
        lemma_escape_len(data.drop_first());
        if exists|i: int| 0 <= i < data.len() && (#[trigger] data[i] == 0x3C || data[i] == 0x3D
            || data[i] == 0x3E) {
            let i = choose|i: int| 0 <= i < data.len() && (#[trigger] data[i] == 0x3C || data[i]
                == 0x3D || data[i] == 0x3E);
            if i > 0 {
                assert(data.drop_first()[i - 1] == data[i]);
            }
        }
    }
}

/// The four big-endian bytes of a number stand for that number.
pub proof fn lemma_be32_roundtrip(n: u32)
    ensures
        be32_value(be32_bytes(n), 0) == n,
{
    let b0 = (n / 0x1000000) as u8;
    let b1 = ((n / 0x10000) % 0x100) as u8;
    let b2 = ((n / 0x100) % 0x100) as u8;
    let b3 = (n % 0x100) as u8;
    assert(((n / 0x1000000) as u8) as u32 * 0x1000000 + (((n / 0x10000) % 0x100) as u8) as u32
        * 0x10000 + (((n / 0x100) % 0x100) as u8) as u32 * 0x100 + ((n % 0x100) as u8) as u32
        == n) by (bit_vector);
    assert(be32_bytes(n)[0] == b0);
    assert(be32_bytes(n)[1] == b1);
    assert(be32_bytes(n)[2] == b2);
    assert(be32_bytes(n)[3] == b3);
}

/// A packet content built for a payload that fits the 32-bit size field
/// decodes to the kind, sequence number and payload it was built from.
pub proof fn lemma_parse_packet_content(dt: DataType, seq: u8, payload: Seq<u8>)
    requires
        payload.len() <= u32::MAX,
    ensures
        parse_spec(packet_content(dt, seq, payload)) == Some((dt, seq, payload)),
{
    let n: int = payload.len() as int;
    let body = packet_body(dt, seq, payload);
    let content = packet_content(dt, seq, payload);
    lemma_be32_roundtrip(n as u32);
    assert((n % 0x1_0000_0000) as u32 == n as u32);
    assert(body.len() == 6 + n);
    assert(content[0] == data_type_code(dt));
    assert(content[1] == seq);
    let hdr = be32_bytes(n as u32);
    assert(content[2] == hdr[0]);
    assert(content[3] == hdr[1]);
    assert(content[4] == hdr[2]);
    assert(content[5] == hdr[3]);
    assert(be32_value(content, 2) == n);
    assert(content.take(6 + n) =~= body);
    assert(content.subrange(6, 6 + n) =~= payload);
}

/// The central round trip of the wire format: the bytes between the
/// markers of a built packet unescape to a content that decodes to what the
/// packet was built from (for payloads that fit the 32-bit size field).
pub proof fn lemma_build_parse_roundtrip(dt: DataType, seq: u8, payload: Seq<u8>)
    requires
        payload.len() <= u32::MAX,
    ensures
        packet_spec(dt, seq, payload)[0] == START_MARKER,
        packet_spec(dt, seq, payload).last() == END_MARKER,
        parse_spec(
            unescape_spec(
                packet_spec(dt, seq, payload).subrange(1, packet_spec(dt, seq, payload).len() - 1),
            ),
        ) == Some((dt, seq, payload)),
{
    let content = packet_content(dt, seq, payload);
    let pkt = packet_spec(dt, seq, payload);
    assert(pkt.subrange(1, pkt.len() - 1) =~= escape_spec(content));
    lemma_unescape_escape(content);
    lemma_parse_packet_content(dt, seq, payload);
}

/// An acknowledgement packet decodes to an empty `Ack` numbered
/// `1 - device_seq`.
pub proof fn lemma_ack_roundtrip(device_seq: u8)
    requires
        device_seq <= 1,
    ensures
        parse_spec(
            unescape_spec(
                packet_spec(DataType::Ack, (1 - device_seq) as u8, Seq::<u8>::empty()).subrange(
                    1,
                    packet_spec(DataType::Ack, (1 - device_seq) as u8, Seq::<u8>::empty()).len()
                        - 1,
                ),
            ),
        ) == Some((DataType::Ack, (1 - device_seq) as u8, Seq::<u8>::empty())),
{
    lemma_build_parse_roundtrip(DataType::Ack, (1 - device_seq) as u8, Seq::<u8>::empty());
}

/// A content whose checksum byte is changed no longer decodes.
pub proof fn lemma_parse_rejects_changed_checksum(raw: Seq<u8>, bad: u8)
    requires
        parse_spec(raw) is Some,
        raw.len() == 7 + be32_value(raw, 2),
        bad != raw.last(),
    ensures
        parse_spec(raw.update(raw.len() - 1, bad)) is None,
{
    let r2 = raw.update(raw.len() - 1, bad);
    assert(be32_value(r2, 2) == be32_value(raw, 2));
    assert(r2.take(raw.len() - 1) =~= raw.take(raw.len() - 1));
}

/// A single byte sums to itself, and nothing sums to 0.
pub proof fn lemma_byte_sum_single(x: u8)
    ensures
        byte_sum(seq![x]) == x as int,
        byte_sum(Seq::<u8>::empty()) == 0,
{
    let one = seq![x];
    assert(one.drop_last() =~= Seq::<u8>::empty());
    assert(one.last() == x);
    assert(byte_sum(one.drop_last()) == 0);
}

/// The byte sum is additive: the sum of a concatenation is the sum of the
/// parts.
pub proof fn lemma_byte_sum_concat(a: Seq<u8>, b: Seq<u8>)
    ensures
        byte_sum(a + b) == byte_sum(a) + byte_sum(b),
    decreases b.len(),
{
    if b.len() == 0 {
        assert(a + b =~= a);
    } else {
        lemma_byte_sum_concat(a, b.drop_last());
        assert((a + b).drop_last() =~= a + b.drop_last());
    }
}

/// What a built packet's content is, for every kind, sequence number and
/// payload that fits the 32-bit size field: the kind byte (1, 12 or 14),
/// the sequence number, the payload length in four big-endian bytes, the
/// payload, and a last byte equal to the sum, modulo 256, of every byte
/// before it, the kind byte included.
pub proof fn lemma_packet_content_layout(dt: DataType, seq: u8, payload: Seq<u8>)
    requires
        payload.len() <= u32::MAX,
    ensures
        ({
            let c = packet_content(dt, seq, payload);
            let n = payload.len() as int;
            &&& c.len() == n + 7
            &&& c[0] == match dt {
                DataType::Ack => 1u8,
                DataType::DataMdr => 12u8,
                DataType::DataMdrNo2 => 14u8,
            }
            &&& c[1] == seq
            &&& c[2] * 0x1000000 + c[3] * 0x10000 + c[4] * 0x100 + c[5] == n
            &&& c.subrange(6, 6 + n) == payload
            &&& c[6 + n] as int == byte_sum(c.take(6 + n)) % 256
        }),
{
    let c = packet_content(dt, seq, payload);
    let n = payload.len() as int;
    lemma_be32_roundtrip(n as u32);
    assert((n % 0x1_0000_0000) as u32 == n as u32);
    let hdr = be32_bytes(n as u32);
    assert(c[2] == hdr[0]);
    assert(c[3] == hdr[1]);
    assert(c[4] == hdr[2]);
    assert(c[5] == hdr[3]);
    assert(c.subrange(6, 6 + n) =~= payload);
    assert(c.take(6 + n) =~= packet_body(dt, seq, payload));
}

/// Which contents decode: exactly those of at least seven bytes whose
/// first byte is a known kind (1, 12 or 14), that hold the announced
/// payload and a checksum byte after it, and whose checksum byte is the
/// sum, modulo 256, of every byte before it, the kind byte included.
pub proof fn lemma_parse_accepts(raw: Seq<u8>)
    ensures
        parse_spec(raw) is Some <==> ({
            &&& raw.len() >= 7
            &&& (raw[0] == 1 || raw[0] == 12 || raw[0] == 14)
            &&& raw.len() >= 7 + (raw[2] * 0x1000000 + raw[3] * 0x10000 + raw[4] * 0x100 + raw[5])
            &&& raw[6 + (raw[2] * 0x1000000 + raw[3] * 0x10000 + raw[4] * 0x100 + raw[5])] as int
                == byte_sum(raw.take(6 + (raw[2] * 0x1000000 + raw[3] * 0x10000 + raw[4] * 0x100 + raw[5]))) % 256
        }),
        parse_spec(raw) matches Some(m) ==> m.1 == raw[1] && m.2 == raw.subrange(
            6,
            6 + (raw[2] * 0x1000000 + raw[3] * 0x10000 + raw[4] * 0x100 + raw[5]),
        ) && raw[0] == match m.0 {
            DataType::Ack => 1u8,
            DataType::DataMdr => 12u8,
            DataType::DataMdrNo2 => 14u8,
        },
{
}

/// Escaping works byte by byte: the escaped form of a concatenation is the
/// concatenation of the escaped forms, a reserved byte `b` (0x3C, 0x3D or
/// 0x3E) becomes `0x3D, b - 0x10`, and any other byte stays as it is.
pub proof fn lemma_escape_bytewise(a: Seq<u8>, b: Seq<u8>, x: u8)
    ensures
        escape_spec(a + b) == escape_spec(a) + escape_spec(b),
        escape_spec(seq![x]) == (if x == 0x3C || x == 0x3D || x == 0x3E {
            seq![0x3Du8, (x - 0x10) as u8]
        } else {
            seq![x]
        }),
    decreases a.len(),
{
    let one = seq![x];
    assert(one.drop_first() =~= Seq::<u8>::empty());
    assert(one[0] == x);
    assert(escape_spec(Seq::<u8>::empty()) =~= Seq::<u8>::empty());
    assert(escape_byte(x) + Seq::<u8>::empty() =~= escape_byte(x));
    assert(escape_spec(one) == escape_byte(x));
    if x == 0x3C || x == 0x3D || x == 0x3E {
        assert(escape_byte(x) =~= seq![0x3Du8, (x - 0x10) as u8]);
    }
    if a.len() == 0 {
        assert(a + b =~= b);
        assert(Seq::<u8>::empty() + escape_spec(b) =~= escape_spec(b));
    } else {
        lemma_escape_bytewise(a.drop_first(), b, x);
        assert((a + b).drop_first() =~= a.drop_first() + b);
        assert((a + b)[0] == a[0]);
        assert(escape_byte(a[0]) + (escape_spec(a.drop_first()) + escape_spec(b)) =~= (escape_byte(
            a[0],
        ) + escape_spec(a.drop_first())) + escape_spec(b));
    }
}

/// Decoding a type's own byte gives the type back.
pub proof fn lemma_data_type_code_roundtrip(dt: DataType)
    ensures
        data_type_of(data_type_code(dt)) == Some(dt),
{
}

} // verus!
