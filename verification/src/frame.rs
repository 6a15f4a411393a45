//! Cutting frames out of the bytes received so far.
//!
//! Received bytes accumulate in a buffer. A frame is the stretch from the
//! first start marker up to the first end marker after it; its inside is
//! unescaped and decoded. Frames that do not decode are dropped.
use vstd::prelude::*;
use vstd::slice::{slice_subrange, slice_to_vec};
use crate::protocol::{
    escape_spec, lemma_build_parse_roundtrip, lemma_escape_has_no_markers, packet_content,
    packet_spec, parse_packet, parse_spec, unescape, unescape_spec, DataType, Message, END_MARKER,
    START_MARKER,
};

verus! {

/// The least index at or after `from` where `s` holds `b`.
pub open spec fn first_index_from(s: Seq<u8>, b: u8, from: int) -> Option<int>
    decreases s.len() - from,
{
    if from < 0 || from >= s.len() {
        None
    } else if s[from] == b {
        Some(from)
    } else {
        first_index_from(s, b, from + 1)
    }
}

/// The first complete frame of `s`: the index of the first start marker
/// and of the first end marker after it.
pub open spec fn frame_bounds(s: Seq<u8>) -> Option<(int, int)> {
    match first_index_from(s, START_MARKER, 0) {
        None => None,
        Some(si) => match first_index_from(s, END_MARKER, si + 1) {
            None => None,
            Some(ei) => Some((si, ei)),
        },
    }
}

/// An index found by `first_index_from` lies in range, holds the byte, and
/// no earlier index from `from` on holds it.
pub proof fn lemma_first_index_from(s: Seq<u8>, b: u8, from: int)
    ensures
        match first_index_from(s, b, from) {
            Some(i) => 0 <= from <= i < s.len() && s[i] == b && forall|k: int|
                from <= k < i ==> #[trigger] s[k] != b,
            None => forall|k: int| 0 <= from <= k < s.len() ==> #[trigger] s[k] != b,
        },
    decreases s.len() - from,
{
    if 0 <= from < s.len() && s[from] != b {
        lemma_first_index_from(s, b, from + 1);
    }
}

/// If `s` holds `b` at `j` and nowhere in `from..j`, the search from `from`
/// finds `j`.
pub proof fn lemma_first_index_at(s: Seq<u8>, b: u8, from: int, j: int)
    requires
        0 <= from <= j < s.len(),
        s[j] == b,
        forall|k: int| from <= k < j ==> #[trigger] s[k] != b,
    ensures
        first_index_from(s, b, from) == Some(j),
    decreases j - from,
{
    if from < j {
        lemma_first_index_at(s, b, from + 1, j);
    }
}

/// The first complete frame lies inside the buffer, end after start.
pub proof fn lemma_frame_bounds(s: Seq<u8>)
    ensures
        frame_bounds(s) matches Some((si, ei)) ==> 0 <= si < ei < s.len(),
{
    lemma_first_index_from(s, START_MARKER, 0);
    if let Some(si) = first_index_from(s, START_MARKER, 0) {
        lemma_first_index_from(s, END_MARKER, si + 1);
    }
}

/// The message that the buffer `s` yields next, and the buffer left after
/// it: complete frames are taken in order until one decodes; when none is
/// left, nothing is consumed further.
pub open spec fn next_message_spec(s: Seq<u8>) -> (Option<(DataType, u8, Seq<u8>)>, Seq<u8>)
    decreases s.len(),
{
    match frame_bounds(s) {
        None => (None, s),
        Some((si, ei)) => {
            if 0 <= si < ei < s.len() {
                let rest = s.skip(ei + 1);
                match parse_spec(unescape_spec(s.subrange(si + 1, ei))) {
                    Some(m) => (Some(m), rest),
                    None => next_message_spec(rest),
                }
            } else {
                (None, s)
            }
        },
    }
}

/// The index of the first `b` at or after `from` in `data`.
fn find_byte(data: &[u8], b: u8, from: usize) -> (r: Option<usize>)
    ensures
        match r {
            Some(i) => first_index_from(data@, b, from as int) == Some(i as int),
            None => first_index_from(data@, b, from as int) is None,
        },
{
    let mut i = from;
    while i < data.len()
        invariant
            from <= i,
            first_index_from(data@, b, from as int) == first_index_from(data@, b, i as int),
        decreases data@.len() - i,
    {
        if data[i] == b {
            return Some(i);
        }
        i = i + 1;
    }
    None
}

/// Takes the first complete frame out of the buffer: returns its escaped
/// inside and drops everything up to and including its end marker. Leaves
/// the buffer as it is when it holds no complete frame.
pub fn take_frame(buf: &mut Vec<u8>) -> (r: Option<Vec<u8>>)
    ensures
        match frame_bounds(old(buf)@) {
            None => r is None && final(buf)@ == old(buf)@,
            Some((si, ei)) => r matches Some(f) && f@ == old(buf)@.subrange(si + 1, ei)
                && final(buf)@ == old(buf)@.skip(ei + 1),
        },
{
    proof {
        lemma_frame_bounds(buf@);
    }
    let len = buf.len();
    let si = match find_byte(buf.as_slice(), START_MARKER, 0) {
        Some(si) => si,
        None => return None,
    };
    proof {
        lemma_first_index_from(buf@, START_MARKER, 0);
    }
    let ei = match find_byte(buf.as_slice(), END_MARKER, si + 1) {
        Some(ei) => ei,
        None => return None,
    };
    proof {
        lemma_first_index_from(buf@, END_MARKER, si + 1);
    }
    let inner = slice_to_vec(slice_subrange(buf.as_slice(), si + 1, ei));
    let rest = slice_to_vec(slice_subrange(buf.as_slice(), ei + 1, len));
    *buf = rest;
    Some(inner)
}

/// Takes frames out of the buffer until one decodes, and returns that
/// message; returns `None` once no complete frame is left. Frames that do
/// not decode are dropped.
pub fn next_message(buf: &mut Vec<u8>) -> (r: Option<Message>)
    ensures
        next_message_spec(old(buf)@).1 == final(buf)@,
        match r {
            Some(m) => next_message_spec(old(buf)@).0 == Some(m@),
            None => next_message_spec(old(buf)@).0 is None,
        },
{
    loop
        invariant
            next_message_spec(old(buf)@) == next_message_spec(buf@),
        decreases buf@.len(),
    {
        let ghost before = buf@;
        proof {
            lemma_frame_bounds(before);
        }
        match take_frame(buf) {
            None => {
                return None;
            },
            Some(inner) => {
                let raw = unescape(inner.as_slice());
                match parse_packet(raw.as_slice()) {
                    Some(m) => {
                        return Some(m);
                    },
                    None => {},
                }
            },
        }
    }
}

/// The receiving side recovers every packet that was built: a buffer
/// holding bytes without a start marker, then a built packet, then anything,
/// yields that packet's message and keeps what follows it (for payloads
/// that fit the 32-bit size field).
pub proof fn lemma_receive_built_packet(
    junk: Seq<u8>,
    dt: DataType,
    seq: u8,
    payload: Seq<u8>,
    more: Seq<u8>,
)
    requires
        payload.len() <= u32::MAX,
        forall|k: int| 0 <= k < junk.len() ==> #[trigger] junk[k] != START_MARKER,
    ensures
        next_message_spec(junk + packet_spec(dt, seq, payload) + more) == (
            Some((dt, seq, payload)),
            more,
        ),
{
    let pkt = packet_spec(dt, seq, payload);
    let s = junk + pkt + more;
    let content = packet_content(dt, seq, payload);
    let esc = escape_spec(content);
    lemma_escape_has_no_markers(content);
    lemma_build_parse_roundtrip(dt, seq, payload);
    let j = junk.len() as int;
    let last = j + pkt.len() - 1;
    assert forall|k: int| 0 <= k < j implies #[trigger] s[k] != START_MARKER by {
        assert(s[k] == junk[k]);
    }
    assert(s[j] == START_MARKER);
    lemma_first_index_at(s, START_MARKER, 0, j);
    assert forall|k: int| j + 1 <= k < last implies #[trigger] s[k] != END_MARKER by {
        assert(s[k] == esc[k - j - 1]);
    }
    assert(s[last] == END_MARKER);
    lemma_first_index_at(s, END_MARKER, j + 1, last);
    assert(s.subrange(j + 1, last) =~= pkt.subrange(1, pkt.len() - 1));
    assert(s.skip(last + 1) =~= more);
}

/// A buffer that holds no start marker followed later by an end marker
/// yields nothing and is kept exactly as it is, so that the bytes still to
/// come can complete it.
pub proof fn lemma_incomplete_buffer_kept(s: Seq<u8>)
    requires
        forall|i: int, j: int|
            0 <= i < j < s.len() ==> !(#[trigger] s[i] == START_MARKER && #[trigger] s[j] == END_MARKER),
    ensures
        next_message_spec(s) == (None::<(DataType, u8, Seq<u8>)>, s),
{
    lemma_first_index_from(s, START_MARKER, 0);
    if let Some(si) = first_index_from(s, START_MARKER, 0) {
        lemma_first_index_from(s, END_MARKER, si + 1);
        if let Some(ei) = first_index_from(s, END_MARKER, si + 1) {
            assert(s[si] == START_MARKER && s[ei] == END_MARKER);
        }
    }
}

/// A packet that arrives in two pieces is received whole: after the first
/// piece alone nothing is taken and the piece is kept, and once the rest
/// has been appended the packet's message comes out and nothing is left
/// (for payloads that fit the 32-bit size field).
pub proof fn lemma_receive_split_packet(dt: DataType, seq: u8, payload: Seq<u8>, k: int)
    requires
        payload.len() <= u32::MAX,
        0 <= k < packet_spec(dt, seq, payload).len(),
    ensures
        next_message_spec(packet_spec(dt, seq, payload).take(k)) == (
            None::<(DataType, u8, Seq<u8>)>,
            packet_spec(dt, seq, payload).take(k),
        ),
        next_message_spec(
            packet_spec(dt, seq, payload).take(k) + packet_spec(dt, seq, payload).skip(k),
        ) == (Some((dt, seq, payload)), Seq::<u8>::empty()),
{
    let pkt = packet_spec(dt, seq, payload);
    let a = pkt.take(k);
    let content = packet_content(dt, seq, payload);
    let esc = escape_spec(content);
    lemma_escape_has_no_markers(content);
    assert forall|i: int, j: int| 0 <= i < j < a.len() implies !(#[trigger] a[i] == START_MARKER
        && #[trigger] a[j] == END_MARKER) by {
        assert(a[j] == pkt[j]);
        assert(pkt[j] == esc[j - 1]);
    }
    lemma_incomplete_buffer_kept(a);
    assert(a + pkt.skip(k) =~= Seq::<u8>::empty() + pkt + Seq::<u8>::empty());
    lemma_receive_built_packet(Seq::<u8>::empty(), dt, seq, payload, Seq::<u8>::empty());
}

} // verus!
