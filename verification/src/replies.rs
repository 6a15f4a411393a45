//! Decoding the payloads that a command collected.
//!
//! Each reader goes through the collected payloads in order. Most take the
//! first payload that carries the awaited reply; the device-information
//! readers keep the last one; the device list gathers all of them. A
//! payload too short for the bytes that are read from it makes the reader
//! fail with `MalformedReply`.
use vstd::prelude::*;
use crate::headphones::{AncMode, AncStatus, BtDevice, EqStatus};
use crate::text::{decode_lossy, string_from_chars, utf8_lossy};
use vstd::slice::slice_subrange;

verus! {

/// A collected payload is too short for the reply it claims to be.
#[derive(Debug, Clone, Copy, PartialEq, Eq, Structural)]
pub struct MalformedReply;

/// What one payload tells a reader: nothing, the value it looks for, or
/// that the payload is malformed.
pub enum Probe<T> {
    Skip,
    Hit(T),
    Fault,
}

/// The first payload that is not skipped decides; `Skip` when all are.
pub open spec fn first_hit<T>(ps: Seq<Seq<u8>>, f: spec_fn(Seq<u8>) -> Probe<T>) -> Probe<T>
    decreases ps.len(),
{
    if ps.len() == 0 {
        Probe::Skip
    } else {
        match f(ps[0]) {
            Probe::Skip => first_hit(ps.drop_first(), f),
            Probe::Hit(v) => Probe::Hit(v),
            Probe::Fault => Probe::Fault,
        }
    }
}

/// Every payload is looked at in order: a malformed one fails the whole
/// scan, and the last hit wins (`acc` when there is none).
pub open spec fn last_hit<T>(ps: Seq<Seq<u8>>, f: spec_fn(Seq<u8>) -> Probe<T>, acc: Probe<T>) -> Probe<
    T,
>
    decreases ps.len(),
{
    if ps.len() == 0 {
        acc
    } else {
        match f(ps[0]) {
            Probe::Skip => last_hit(ps.drop_first(), f, acc),
            Probe::Hit(v) => last_hit(ps.drop_first(), f, Probe::Hit(v)),
            Probe::Fault => Probe::Fault,
        }
    }
}

proof fn lemma_first_hit_skip<T>(ps: Seq<Seq<u8>>, f: spec_fn(Seq<u8>) -> Probe<T>, i: int)
    requires
        0 <= i < ps.len(),
        f(ps[i]) is Skip,
    ensures
        first_hit(ps.skip(i), f) == first_hit(ps.skip(i + 1), f),
{
    assert(ps.skip(i).drop_first() =~= ps.skip(i + 1));
    assert(ps.skip(i)[0] == ps[i]);
}

proof fn lemma_first_hit_stop<T>(ps: Seq<Seq<u8>>, f: spec_fn(Seq<u8>) -> Probe<T>, i: int)
    requires
        0 <= i < ps.len(),
        !(f(ps[i]) is Skip),
    ensures
        first_hit(ps.skip(i), f) == f(ps[i]),
{
    assert(ps.skip(i)[0] == ps[i]);
}

proof fn lemma_last_hit_step<T>(
    ps: Seq<Seq<u8>>,
    f: spec_fn(Seq<u8>) -> Probe<T>,
    i: int,
    acc: Probe<T>,
)
    requires
        0 <= i < ps.len(),
    ensures
        last_hit(ps.skip(i), f, acc) == match f(ps[i]) {
            Probe::Skip => last_hit(ps.skip(i + 1), f, acc),
            Probe::Hit(v) => last_hit(ps.skip(i + 1), f, Probe::Hit(v)),
            Probe::Fault => Probe::Fault,
        },
{
    assert(ps.skip(i).drop_first() =~= ps.skip(i + 1));
    assert(ps.skip(i)[0] == ps[i]);
}

/// The view of collected payloads.
pub open spec fn payloads(rs: &Vec<Vec<u8>>) -> Seq<Seq<u8>> {
    rs.deep_view()
}

proof fn lemma_payload_at(rs: &Vec<Vec<u8>>, i: int)
    requires
        0 <= i < rs@.len(),
    ensures
        payloads(rs)[i] == rs@[i]@,
        payloads(rs).len() == rs@.len(),
{
    assert(rs@[i].deep_view() =~= rs@[i]@);
}

/// A reply tagged `a, b` of at least `min_len` bytes. Reading the second
/// byte of a payload whose first byte is `a` needs two bytes.
pub open spec fn tagged(p: Seq<u8>, a: u8, b: u8, min_len: int) -> Probe<Seq<u8>> {
    if p.len() == 0 {
        Probe::Fault
    } else if p[0] != a {
        Probe::Skip
    } else if p.len() < 2 {
        Probe::Fault
    } else if p[1] == b && p.len() >= min_len {
        Probe::Hit(p)
    } else {
        Probe::Skip
    }
}

/// The first reply tagged `a, b` of at least `min_len` bytes, by its index.
fn find_tagged(rs: &Vec<Vec<u8>>, a: u8, b: u8, min_len: usize) -> (r: Result<
    Option<usize>,
    MalformedReply,
>)
    ensures
        match first_hit(payloads(rs), |p: Seq<u8>| tagged(p, a, b, min_len as int)) {
            Probe::Hit(p) => (r matches Ok(Some(i)) && i < rs@.len() && rs@[i as int]@ == p),
            Probe::Skip => r == Ok::<Option<usize>, MalformedReply>(None),
            Probe::Fault => r is Err,
        },
        r matches Ok(Some(i)) ==> i < rs@.len() && rs@[i as int]@.len() >= min_len
            && rs@[i as int]@.len() >= 2 && rs@[i as int]@[0] == a && rs@[i as int]@[1] == b,
{
    let ghost f = |p: Seq<u8>| tagged(p, a, b, min_len as int);
    let ghost all = payloads(rs);
    assert(all.skip(0) =~= all);
    let mut i: usize = 0;
    while i < rs.len()
        invariant
            i <= rs@.len(),
            all == payloads(rs),
            all.len() == rs@.len(),
            f == (|p: Seq<u8>| tagged(p, a, b, min_len as int)),
            first_hit(all, f) == first_hit(all.skip(i as int), f),
        decreases rs@.len() - i,
    {
        proof {
            lemma_payload_at(rs, i as int);
        }
        let p = &rs[i];
        if p.len() == 0 {
            proof {
                lemma_first_hit_stop(all, f, i as int);
            }
            return Err(MalformedReply);
        }
        if p[0] == a {
            if p.len() < 2 {
                proof {
                    lemma_first_hit_stop(all, f, i as int);
                }
                return Err(MalformedReply);
            }
            if p[1] == b && p.len() >= min_len {
                proof {
                    lemma_first_hit_stop(all, f, i as int);
                }
                return Ok(Some(i));
            }
        }
        proof {
            lemma_first_hit_skip(all, f, i as int);
        }
        i = i + 1;
    }
    assert(all.skip(i as int) =~= Seq::<Seq<u8>>::empty());
    Ok(None)
}

/// What a reader of the reply tagged `a, b` returns: the decoding `g` of
/// the first such reply, `None` when there is none, or the failure.
pub open spec fn tagged_reading<T>(
    ps: Seq<Seq<u8>>,
    a: u8,
    b: u8,
    min_len: int,
    g: spec_fn(Seq<u8>) -> T,
) -> Result<Option<T>, MalformedReply> {
    match first_hit(ps, |p: Seq<u8>| tagged(p, a, b, min_len)) {
        Probe::Hit(p) => Ok(Some(g(p))),
        Probe::Skip => Ok(None),
        Probe::Fault => Err(MalformedReply),
    }
}

/// Battery level from the reply `0x23 0x00 level`, or -1 when no payload of
/// at least three bytes carries it.
pub open spec fn battery_probe(p: Seq<u8>) -> Probe<i32> {
    if p.len() >= 3 && p[0] == 0x23 && p[1] == 0x00 {
        Probe::Hit(p[2] as i32)
    } else {
        Probe::Skip
    }
}

/// Battery percentage, or -1 when no payload carries it.
pub fn battery_from_replies(rs: &Vec<Vec<u8>>) -> (r: i32)
    ensures
        r == match first_hit(payloads(rs), |p: Seq<u8>| battery_probe(p)) {
            Probe::Hit(v) => v,
            _ => -1i32,
        },
{
    let ghost f = |p: Seq<u8>| battery_probe(p);
    let ghost all = payloads(rs);
    assert(all.skip(0) =~= all);
    let mut i: usize = 0;
    while i < rs.len()
        invariant
            i <= rs@.len(),
            all == payloads(rs),
            all.len() == rs@.len(),
            f == (|p: Seq<u8>| battery_probe(p)),
            first_hit(all, f) == first_hit(all.skip(i as int), f),
        decreases rs@.len() - i,
    {
        proof {
            lemma_payload_at(rs, i as int);
        }
        let p = &rs[i];
        if p.len() >= 3 && p[0] == 0x23 && p[1] == 0x00 {
            proof {
                lemma_first_hit_stop(all, f, i as int);
            }
            return p[2] as i32;
        }
        proof {
            lemma_first_hit_skip(all, f, i as int);
        }
        i = i + 1;
    }
    assert(all.skip(i as int) =~= Seq::<Seq<u8>>::empty());
    -1
}

/// Volume (0 to 30) from the reply `0xA7 0x20 level`.
pub fn volume_from_replies(rs: &Vec<Vec<u8>>) -> (r: Result<Option<u8>, MalformedReply>)
    ensures
        r == tagged_reading(payloads(rs), 0xA7, 0x20, 3, |p: Seq<u8>| p[2]),
{
    match find_tagged(rs, 0xA7, 0x20, 3) {
        Ok(Some(i)) => Ok(Some(rs[i][2])),
        Ok(None) => Ok(None),
        Err(e) => Err(e),
    }
}

/// Speak-to-chat state from the reply `0xF7 0x0C v`: on when `v` is 0.
pub fn speak_to_chat_from_replies(rs: &Vec<Vec<u8>>) -> (r: Result<Option<bool>, MalformedReply>)
    ensures
        r == tagged_reading(payloads(rs), 0xF7, 0x0C, 3, |p: Seq<u8>| p[2] == 0),
{
    match find_tagged(rs, 0xF7, 0x0C, 3) {
        Ok(Some(i)) => Ok(Some(rs[i][2] == 0)),
        Ok(None) => Ok(None),
        Err(e) => Err(e),
    }
}

/// DSEE state from the reply `0xE7 0x01 v`: on when `v` is not 0.
pub fn dsee_from_replies(rs: &Vec<Vec<u8>>) -> (r: Result<Option<bool>, MalformedReply>)
    ensures
        r == tagged_reading(payloads(rs), 0xE7, 0x01, 3, |p: Seq<u8>| p[2] != 0),
{
    match find_tagged(rs, 0xE7, 0x01, 3) {
        Ok(Some(i)) => Ok(Some(rs[i][2] != 0)),
        Ok(None) => Ok(None),
        Err(e) => Err(e),
    }
}

/// Voice-guidance state from the reply `0x47 0x01 v`: on when `v` is not 0.
pub fn voice_guidance_from_replies(rs: &Vec<Vec<u8>>) -> (r: Result<Option<bool>, MalformedReply>)
    ensures
        r == tagged_reading(payloads(rs), 0x47, 0x01, 3, |p: Seq<u8>| p[2] != 0),
{
    match find_tagged(rs, 0x47, 0x01, 3) {
        Ok(Some(i)) => Ok(Some(rs[i][2] != 0)),
        Ok(None) => Ok(None),
        Err(e) => Err(e),
    }
}

/// Multipoint state from the reply `0xD7 0xD2 _ v`: on when `v` is 0.
pub fn multipoint_from_replies(rs: &Vec<Vec<u8>>) -> (r: Result<Option<bool>, MalformedReply>)
    ensures
        r == tagged_reading(payloads(rs), 0xD7, 0xD2, 4, |p: Seq<u8>| p[3] == 0),
{
    match find_tagged(rs, 0xD7, 0xD2, 4) {
        Ok(Some(i)) => Ok(Some(rs[i][3] == 0)),
        Ok(None) => Ok(None),
        Err(e) => Err(e),
    }
}

/// Whether the headphones took a multipoint change: the reply
/// `0xD9 0xD2 _ v` reports multipoint on when `v` is 0, and the change took
/// when that equals the requested state; `false` without such a reply.
pub fn multipoint_confirmed(rs: &Vec<Vec<u8>>, enabled: bool) -> (r: Result<bool, MalformedReply>)
    ensures
        r == match tagged_reading(payloads(rs), 0xD9, 0xD2, 4, |p: Seq<u8>| (p[3] == 0) == enabled) {
            Ok(Some(v)) => Ok(v),
            Ok(None) => Ok(false),
            Err(e) => Err::<bool, MalformedReply>(e),
        },
{
    match find_tagged(rs, 0xD9, 0xD2, 4) {
        Ok(Some(i)) => Ok((rs[i][3] == 0) == enabled),
        Ok(None) => Ok(false),
        Err(e) => Err(e),
    }
}

/// The auto power-off time (minutes) that a code pair stands for; 9999 for
/// an unknown pair.
pub open spec fn auto_off_minutes(c1: u8, c2: u8) -> u16 {
    if c1 == 0x11 && c2 == 0x00 {
        0
    } else if c1 == 0x10 && c2 == 0x00 {
        5
    } else if c1 == 0x10 && c2 == 0x01 {
        30
    } else if c1 == 0x10 && c2 == 0x02 {
        60
    } else if c1 == 0x10 && c2 == 0x03 {
        180
    } else {
        9999
    }
}

/// Auto power-off time from the reply `0x27 0x05 c1 c2`.
pub fn auto_off_from_replies(rs: &Vec<Vec<u8>>) -> (r: Result<Option<u16>, MalformedReply>)
    ensures
        r == tagged_reading(
            payloads(rs),
            0x27,
            0x05,
            4,
            |p: Seq<u8>| auto_off_minutes(p[2], p[3]),
        ),
{
    match find_tagged(rs, 0x27, 0x05, 4) {
        Ok(Some(i)) => {
            let c1 = rs[i][2];
            let c2 = rs[i][3];
            let m: u16 = if c1 == 0x11 && c2 == 0x00 {
                0
            } else if c1 == 0x10 && c2 == 0x00 {
                5
            } else if c1 == 0x10 && c2 == 0x01 {
                30
            } else if c1 == 0x10 && c2 == 0x02 {
                60
            } else if c1 == 0x10 && c2 == 0x03 {
                180
            } else {
                9999
            };
            Ok(Some(m))
        },
        Ok(None) => Ok(None),
        Err(e) => Err(e),
    }
}

/// The noise-control state that a reply `0x67|0x69 _ _ on ambient voice
/// level` reports.
pub open spec fn anc_status_of(p: Seq<u8>) -> AncStatus {
    let enabled = p[3] != 0;
    let ambient = p[4] != 0;
    AncStatus {
        mode: if !enabled {
            AncMode::Off
        } else if ambient {
            AncMode::Ambient
        } else {
            AncMode::NoiseCancelling
        },
        voice: p[5] != 0,
        level: if ambient {
            p[6]
        } else {
            0
        },
    }
}

/// What one payload tells the noise-control reader for query sub-type
/// `sub`: a reply starts with 0x67 or 0x69 and has seven bytes; for the
/// sub-type 0x17 an all-zero state is stale and skipped.
pub open spec fn anc_probe(sub: u8, p: Seq<u8>) -> Probe<AncStatus> {
    if p.len() == 0 {
        Probe::Fault
    } else if (p[0] == 0x67 || p[0] == 0x69) && p.len() >= 7 {
        if sub == 0x17 && p[3] == 0 && p[4] == 0 && p[5] == 0 && p[6] == 0 {
            Probe::Skip
        } else {
            Probe::Hit(anc_status_of(p))
        }
    } else {
        Probe::Skip
    }
}

/// Noise-control state from the replies to the query of sub-type `sub`.
pub fn anc_from_replies(sub: u8, rs: &Vec<Vec<u8>>) -> (r: Result<Option<AncStatus>, MalformedReply>)
    ensures
        r == match first_hit(payloads(rs), |p: Seq<u8>| anc_probe(sub, p)) {
            Probe::Hit(st) => Ok(Some(st)),
            Probe::Skip => Ok(None),
            Probe::Fault => Err(MalformedReply),
        },
{
    let ghost f = |p: Seq<u8>| anc_probe(sub, p);
    let ghost all = payloads(rs);
    assert(all.skip(0) =~= all);
    let mut i: usize = 0;
    while i < rs.len()
        invariant
            i <= rs@.len(),
            all == payloads(rs),
            all.len() == rs@.len(),
            f == (|p: Seq<u8>| anc_probe(sub, p)),
            first_hit(all, f) == first_hit(all.skip(i as int), f),
        decreases rs@.len() - i,
    {
        proof {
            lemma_payload_at(rs, i as int);
        }
        let p = &rs[i];
        if p.len() == 0 {
            proof {
                lemma_first_hit_stop(all, f, i as int);
            }
            return Err(MalformedReply);
        }
        if (p[0] == 0x67 || p[0] == 0x69) && p.len() >= 7 {
            if !(sub == 0x17 && p[3] == 0 && p[4] == 0 && p[5] == 0 && p[6] == 0) {
                let enabled = p[3] != 0;
                let ambient = p[4] != 0;
                let voice = p[5] != 0;
                let level = if ambient {
                    p[6]
                } else {
                    0
                };
                let mode = if !enabled {
                    AncMode::Off
                } else if ambient {
                    AncMode::Ambient
                } else {
                    AncMode::NoiseCancelling
                };
                proof {
                    lemma_first_hit_stop(all, f, i as int);
                }
                return Ok(Some(AncStatus { mode, voice, level }));
            }
        }
        proof {
            lemma_first_hit_skip(all, f, i as int);
        }
        i = i + 1;
    }
    assert(all.skip(i as int) =~= Seq::<Seq<u8>>::empty());
    Ok(None)
}

/// A byte read as a two's-complement signed byte.
pub open spec fn signed_byte(b: u8) -> int {
    if b < 128 {
        b as int
    } else {
        b as int - 256
    }
}

/// What one payload tells the equalizer reader: a reply
/// `0x57 _ _ n band*n` gives band gains `signed(band) - 10`; a band byte
/// whose gain falls below -128 (0x80 to 0x89) is malformed.
pub open spec fn eq_probe(p: Seq<u8>) -> Probe<Seq<i8>> {
    if p.len() == 0 {
        Probe::Fault
    } else if p[0] != 0x57 || p.len() < 4 {
        Probe::Skip
    } else if p.len() < 4 + p[3] {
        Probe::Skip
    } else if exists|j: int| 4 <= j < 4 + p[3] && signed_byte(#[trigger] p[j]) - 10 < -128 {
        Probe::Fault
    } else {
        Probe::Hit(Seq::new(p[3] as nat, |j: int| (signed_byte(p[4 + j]) - 10) as i8))
    }
}

/// Equalizer bands from the replies to the equalizer query.
pub fn eq_from_replies(rs: &Vec<Vec<u8>>) -> (r: Result<Option<EqStatus>, MalformedReply>)
    ensures
        match first_hit(payloads(rs), |p: Seq<u8>| eq_probe(p)) {
            Probe::Hit(bands) => (r matches Ok(Some(st)) && st.bands@ == bands),
            Probe::Skip => r matches Ok(None),
            Probe::Fault => r is Err,
        },
{
    let ghost f = |p: Seq<u8>| eq_probe(p);
    let ghost all = payloads(rs);
    assert(all.skip(0) =~= all);
    let mut i: usize = 0;
    while i < rs.len()
        invariant
            i <= rs@.len(),
            all == payloads(rs),
            all.len() == rs@.len(),
            f == (|p: Seq<u8>| eq_probe(p)),
            first_hit(all, f) == first_hit(all.skip(i as int), f),
        decreases rs@.len() - i,
    {
        proof {
            lemma_payload_at(rs, i as int);
        }
        let p = &rs[i];
        if p.len() == 0 {
            proof {
                lemma_first_hit_stop(all, f, i as int);
            }
            return Err(MalformedReply);
        }
        if !(p[0] != 0x57 || p.len() < 4) {
            let n = p[3] as usize;
            if !(p.len() < 4 + n) {
                let mut bands: Vec<i8> = Vec::new();
                let mut j: usize = 0;
                while j < n
                    invariant
                        i < rs@.len(),
                        all == payloads(rs),
                        all.len() == rs@.len(),
                        all[i as int] == p@,
                        f == (|p: Seq<u8>| eq_probe(p)),
                        first_hit(all, f) == first_hit(all.skip(i as int), f),
                        p@.len() >= 4,
                        p@[0] == 0x57,
                        j <= n,
                        n == p@[3],
                        4 + n <= p@.len(),
                        bands@.len() == j,
                        forall|k: int| 4 <= k < 4 + j ==> signed_byte(#[trigger] p@[k]) - 10 >= -128,
                        forall|k: int|
                            0 <= k < j ==> #[trigger] bands@[k] == (signed_byte(p@[4 + k]) - 10) as i8,
                    decreases n - j,
                {
                    let b = p[4 + j];
                    let v: i16 = if b < 128 {
                        b as i16 - 10
                    } else {
                        b as i16 - 266
                    };
                    if v < -128 {
                        proof {
                            assert(signed_byte(p@[4 + j as int]) - 10 < -128);
                            lemma_first_hit_stop(all, f, i as int);
                        }
                        return Err(MalformedReply);
                    }
                    bands.push(v as i8);
                    j = j + 1;
                }
                proof {
                    lemma_first_hit_stop(all, f, i as int);
                    assert(bands@ =~= Seq::new(
                        p@[3] as nat,
                        |k: int| (signed_byte(p@[4 + k]) - 10) as i8,
                    ));
                }
                return Ok(Some(EqStatus { bands }));
            }
        }
        proof {
            lemma_first_hit_skip(all, f, i as int);
        }
        i = i + 1;
    }
    assert(all.skip(i as int) =~= Seq::<Seq<u8>>::empty());
    Ok(None)
}

/// What one payload tells a device-information text reader for field
/// `sel` (1: model, 2: firmware): a reply `0x05 sel n text*n` gives the
/// text, decoded leniently from UTF-8.
pub open spec fn text_probe(sel: u8, p: Seq<u8>) -> Probe<Seq<char>> {
    if p.len() == 0 {
        Probe::Fault
    } else if p[0] != 0x05 {
        Probe::Skip
    } else if p.len() < 2 {
        Probe::Fault
    } else if p[1] == sel && p.len() >= 3 {
        if p.len() >= 3 + p[2] {
            Probe::Hit(utf8_lossy(p.subrange(3, 3 + p[2])))
        } else {
            Probe::Skip
        }
    } else {
        Probe::Skip
    }
}

/// The text found so far, as a probe result.
pub open spec fn found_probe(found: Option<String>) -> Probe<Seq<char>> {
    match found {
        Some(t) => Probe::Hit(t@),
        None => Probe::Skip,
    }
}

/// The text reading of a last-hit scan: the text of the last hit, `None`
/// when there is none, or the failure.
pub open spec fn text_reading_matches(
    probe: Probe<Seq<char>>,
    r: Result<Option<String>, MalformedReply>,
) -> bool {
    match probe {
        Probe::Hit(t) => (r matches Ok(Some(s)) && s@ == t),
        Probe::Skip => r matches Ok(None),
        Probe::Fault => r is Err,
    }
}

/// The device-information text of field `sel` carried by the last
/// payload that has it.
pub fn info_text_from_replies(rs: &Vec<Vec<u8>>, sel: u8) -> (r: Result<Option<String>, MalformedReply>)
    ensures
        text_reading_matches(
            last_hit(payloads(rs), |p: Seq<u8>| text_probe(sel, p), Probe::Skip),
            r,
        ),
{
    let ghost f = |p: Seq<u8>| text_probe(sel, p);
    let ghost all = payloads(rs);
    assert(all.skip(0) =~= all);
    let mut found: Option<String> = None;
    let mut i: usize = 0;
    while i < rs.len()
        invariant
            i <= rs@.len(),
            all == payloads(rs),
            all.len() == rs@.len(),
            f == (|p: Seq<u8>| text_probe(sel, p)),
            last_hit(all, f, Probe::Skip) == last_hit(
                all.skip(i as int),
                f,
                found_probe(found),
            ),
        decreases rs@.len() - i,
    {
        proof {
            lemma_payload_at(rs, i as int);
            lemma_last_hit_step(
                all,
                f,
                i as int,
                found_probe(found),
            );
        }
        let p = &rs[i];
        if p.len() == 0 {
            return Err(MalformedReply);
        }
        if p[0] == 0x05 {
            if p.len() < 2 {
                return Err(MalformedReply);
            }
            if p[1] == sel && p.len() >= 3 {
                let n = p[2] as usize;
                if p.len() >= 3 + n {
                    found = Some(decode_lossy(slice_subrange(p.as_slice(), 3, 3 + n)));
                }
            }
        }
        i = i + 1;
    }
    assert(all.skip(i as int) =~= Seq::<Seq<u8>>::empty());
    Ok(found)
}

/// Model name: the device-information text of field 1.
pub fn model_from_replies(rs: &Vec<Vec<u8>>) -> (r: Result<Option<String>, MalformedReply>)
    ensures
        text_reading_matches(
            last_hit(payloads(rs), |p: Seq<u8>| text_probe(0x01, p), Probe::Skip),
            r,
        ),
{
    info_text_from_replies(rs, 0x01)
}

/// Firmware version: the device-information text of field 2.
pub fn firmware_from_replies(rs: &Vec<Vec<u8>>) -> (r: Result<Option<String>, MalformedReply>)
    ensures
        text_reading_matches(
            last_hit(payloads(rs), |p: Seq<u8>| text_probe(0x02, p), Probe::Skip),
            r,
        ),
{
    info_text_from_replies(rs, 0x02)
}

/// A lower-case hexadecimal digit.
pub open spec fn hex_digit(v: u8) -> char {
    if v < 10 {
        (48 + v) as char
    } else {
        (87 + v) as char
    }
}

/// The name of a codec byte: SBC, AAC, LDAC, aptX, aptX HD, or else the
/// byte written `0x` and two lower-case hexadecimal digits.
pub open spec fn codec_name(c: u8) -> Seq<char> {
    if c == 0x01 {
        seq!['S', 'B', 'C']
    } else if c == 0x02 {
        seq!['A', 'A', 'C']
    } else if c == 0x10 {
        seq!['L', 'D', 'A', 'C']
    } else if c == 0x20 {
        seq!['a', 'p', 't', 'X']
    } else if c == 0x21 {
        seq!['a', 'p', 't', 'X', ' ', 'H', 'D']
    } else {
        seq!['0', 'x', hex_digit(c / 16), hex_digit(c % 16)]
    }
}

fn hex_digit_char(v: u8) -> (c: char)
    requires
        v < 16,
    ensures
        c == hex_digit(v),
{
    if v < 10 {
        (48 + v) as char
    } else {
        (87 + v) as char
    }
}

/// The name of a codec byte (see `codec_name`).
pub fn codec_name_of(c: u8) -> (s: String)
    ensures
        s@ == codec_name(c),
{
    if c == 0x01 {
        string_from_chars(&['S', 'B', 'C'])
    } else if c == 0x02 {
        string_from_chars(&['A', 'A', 'C'])
    } else if c == 0x10 {
        string_from_chars(&['L', 'D', 'A', 'C'])
    } else if c == 0x20 {
        string_from_chars(&['a', 'p', 't', 'X'])
    } else if c == 0x21 {
        string_from_chars(&['a', 'p', 't', 'X', ' ', 'H', 'D'])
    } else {
        string_from_chars(&['0', 'x', hex_digit_char(c / 16), hex_digit_char(c % 16)])
    }
}

/// What one payload tells the codec reader: a reply `0x13 _ codec`.
pub open spec fn codec_probe(p: Seq<u8>) -> Probe<Seq<char>> {
    if p.len() == 0 {
        Probe::Fault
    } else if p[0] == 0x13 && p.len() >= 3 {
        Probe::Hit(codec_name(p[2]))
    } else {
        Probe::Skip
    }
}

/// Active codec name, carried by the last codec reply.
pub fn codec_from_replies(rs: &Vec<Vec<u8>>) -> (r: Result<Option<String>, MalformedReply>)
    ensures
        text_reading_matches(last_hit(payloads(rs), |p: Seq<u8>| codec_probe(p), Probe::Skip), r),
{
    let ghost f = |p: Seq<u8>| codec_probe(p);
    let ghost all = payloads(rs);
    assert(all.skip(0) =~= all);
    let mut found: Option<String> = None;
    let mut i: usize = 0;
    while i < rs.len()
        invariant
            i <= rs@.len(),
            all == payloads(rs),
            all.len() == rs@.len(),
            f == (|p: Seq<u8>| codec_probe(p)),
            last_hit(all, f, Probe::Skip) == last_hit(
                all.skip(i as int),
                f,
                found_probe(found),
            ),
        decreases rs@.len() - i,
    {
        proof {
            lemma_payload_at(rs, i as int);
            lemma_last_hit_step(
                all,
                f,
                i as int,
                found_probe(found),
            );
        }
        let p = &rs[i];
        if p.len() == 0 {
            return Err(MalformedReply);
        }
        if p[0] == 0x13 && p.len() >= 3 {
            found = Some(codec_name_of(p[2]));
        }
        i = i + 1;
    }
    assert(all.skip(i as int) =~= Seq::<Seq<u8>>::empty());
    Ok(found)
}

/// A device as the library sees it: name and address.
pub type DeviceView = (Seq<char>, Seq<char>);

/// The view of a list of devices.
pub open spec fn device_views(ds: Seq<BtDevice>) -> Seq<DeviceView> {
    ds.map_values(|d: BtDevice| (d.name@, d.mac@))
}

/// Two lists of devices joined pairwise: connected with connected, paired
/// with paired.
pub open spec fn pair_cat(
    x: (Seq<DeviceView>, Seq<DeviceView>),
    y: (Seq<DeviceView>, Seq<DeviceView>),
) -> (Seq<DeviceView>, Seq<DeviceView>) {
    (x.0 + y.0, x.1 + y.1)
}

/// The entries of a device-list reply from entry `i` (of `total`) at byte
/// `pos`, split into the first `nc` (connected) and the rest (paired). An
/// entry is a 17-byte address, 4 flag bytes, a name length `n` and `n`
/// name bytes; the list stops at the first entry whose address or name
/// length is cut off; a cut-off name reads `?` and ends the list.
pub open spec fn device_entries(p: Seq<u8>, pos: int, i: int, total: int, nc: int) -> (
    Seq<DeviceView>,
    Seq<DeviceView>,
)
    decreases total - i,
{
    if i >= total {
        (Seq::empty(), Seq::empty())
    } else if pos + 17 > p.len() {
        (Seq::empty(), Seq::empty())
    } else {
        let mac = utf8_lossy(p.subrange(pos, pos + 17));
        let q = pos + 21;
        if q >= p.len() {
            (Seq::empty(), Seq::empty())
        } else {
            let n = p[q] as int;
            let start = q + 1;
            let name = if start + n <= p.len() {
                utf8_lossy(p.subrange(start, start + n))
            } else {
                seq!['?']
            };
            let rest = device_entries(p, start + n, i + 1, total, nc);
            if i < nc {
                (seq![(name, mac)] + rest.0, rest.1)
            } else {
                (rest.0, seq![(name, mac)] + rest.1)
            }
        }
    }
}

/// The devices that one non-empty payload lists: a reply
/// `0x37 connected total entries` of at least four bytes; other payloads
/// list none.
pub open spec fn payload_devices(p: Seq<u8>) -> (Seq<DeviceView>, Seq<DeviceView>) {
    if p[0] != 0x37 || p.len() < 4 {
        (Seq::empty(), Seq::empty())
    } else {
        device_entries(p, 3, 0, p[2] as int, p[1] as int)
    }
}

/// The connected and paired devices that all payloads list, in order;
/// `None` when a payload is empty (malformed).
pub open spec fn devices_spec(ps: Seq<Seq<u8>>) -> Option<(Seq<DeviceView>, Seq<DeviceView>)>
    decreases ps.len(),
{
    if ps.len() == 0 {
        Some((Seq::empty(), Seq::empty()))
    } else if ps[0].len() == 0 {
        None
    } else {
        match devices_spec(ps.drop_first()) {
            None => None,
            Some(rest) => Some(pair_cat(payload_devices(ps[0]), rest)),
        }
    }
}

/// `acc` put in front of a device listing, if there is one.
pub open spec fn prepend_devices(
    acc: (Seq<DeviceView>, Seq<DeviceView>),
    x: Option<(Seq<DeviceView>, Seq<DeviceView>)>,
) -> Option<(Seq<DeviceView>, Seq<DeviceView>)> {
    match x {
        None => None,
        Some(y) => Some(pair_cat(acc, y)),
    }
}

proof fn lemma_devices_step(ps: Seq<Seq<u8>>, i: int, acc: (Seq<DeviceView>, Seq<DeviceView>))
    requires
        0 <= i < ps.len(),
        ps[i].len() > 0,
    ensures
        prepend_devices(acc, devices_spec(ps.skip(i))) == prepend_devices(
            pair_cat(acc, payload_devices(ps[i])),
            devices_spec(ps.skip(i + 1)),
        ),
{
    assert(ps.skip(i).drop_first() =~= ps.skip(i + 1));
    assert(ps.skip(i)[0] == ps[i]);
    if let Some(y) = devices_spec(ps.skip(i + 1)) {
        let e = payload_devices(ps[i]);
        assert(acc.0 + (e.0 + y.0) =~= (acc.0 + e.0) + y.0);
        assert(acc.1 + (e.1 + y.1) =~= (acc.1 + e.1) + y.1);
    }
}

proof fn lemma_push_view(ds: Seq<BtDevice>, d: BtDevice)
    ensures
        device_views(ds.push(d)) == device_views(ds).push((d.name@, d.mac@)),
{
    assert(device_views(ds.push(d)) =~= device_views(ds).push((d.name@, d.mac@)));
}

/// Connected and paired devices listed by all collected payloads.
pub fn devices_from_replies(rs: &Vec<Vec<u8>>) -> (r: Result<
    (Vec<BtDevice>, Vec<BtDevice>),
    MalformedReply,
>)
    ensures
        match devices_spec(payloads(rs)) {
            Some(ds) => (r matches Ok((c, pd)) && device_views(c@) == ds.0 && device_views(pd@)
                == ds.1),
            None => r is Err,
        },
{
    let ghost all = payloads(rs);
    assert(all.skip(0) =~= all);
    let mut connected: Vec<BtDevice> = Vec::new();
    let mut paired: Vec<BtDevice> = Vec::new();
    assert(device_views(connected@) =~= Seq::<DeviceView>::empty());
    assert(device_views(paired@) =~= Seq::<DeviceView>::empty());
    assert(prepend_devices((Seq::empty(), Seq::empty()), devices_spec(all)) =~~= devices_spec(all))
        by {
        if let Some(y) = devices_spec(all) {
            assert(Seq::<DeviceView>::empty() + y.0 =~= y.0);
            assert(Seq::<DeviceView>::empty() + y.1 =~= y.1);
        }
    }
    let mut i: usize = 0;
    while i < rs.len()
        invariant
            i <= rs@.len(),
            all == payloads(rs),
            all.len() == rs@.len(),
            devices_spec(all) == prepend_devices(
                (device_views(connected@), device_views(paired@)),
                devices_spec(all.skip(i as int)),
            ),
        decreases rs@.len() - i,
    {
        proof {
            lemma_payload_at(rs, i as int);
        }
        let p = &rs[i];
        let len = p.len();
        if len == 0 {
            proof {
                assert(all.skip(i as int)[0] == all[i as int]);
            }
            return Err(MalformedReply);
        }
        let ghost acc = (device_views(connected@), device_views(paired@));
        proof {
            lemma_devices_step(all, i as int, acc);
        }
        if !(p[0] != 0x37 || len < 4) {
            let nc = p[1] as usize;
            let total = p[2] as usize;
            let ghost first = device_entries(p@, 3, 0, total as int, nc as int);
            let mut pos: usize = 3;
            let mut k: usize = 0;
            assert(pair_cat(acc, device_entries(p@, 3, 0, total as int, nc as int)) =~~= pair_cat(
                acc,
                first,
            ));
            while k < total
                invariant
                    p@ == all[i as int],
                    len == p@.len(),
                    pos <= len,
                    k <= total,
                    total == p@[2],
                    nc == p@[1],
                    pair_cat(acc, first) == pair_cat(
                        (device_views(connected@), device_views(paired@)),
                        device_entries(p@, pos as int, k as int, total as int, nc as int),
                    ),
                ensures
                    device_entries(p@, pos as int, k as int, total as int, nc as int).0.len() == 0,
                    device_entries(p@, pos as int, k as int, total as int, nc as int).1.len() == 0,
                decreases total - k,
            {
                let ghost cur = (device_views(connected@), device_views(paired@));
                if len < 17 || pos > len - 17 {
                    break;
                }
                let mac = decode_lossy(slice_subrange(p.as_slice(), pos, pos + 17));
                if len - pos <= 21 {
                    break;
                }
                let q = pos + 21;
                let n = p[q] as usize;
                let start = q + 1;
                let fits = n <= len - start;
                let name = if fits {
                    decode_lossy(slice_subrange(p.as_slice(), start, start + n))
                } else {
                    string_from_chars(&['?'])
                };
                let ghost entry: DeviceView = (name@, mac@);
                let ghost rest = device_entries(
                    p@,
                    start + n as int,
                    k + 1 as int,
                    total as int,
                    nc as int,
                );
                proof {
                    if !fits {
                        assert(name@ =~= seq!['?']);
                        assert(rest =~~= (Seq::<DeviceView>::empty(), Seq::<DeviceView>::empty()));
                    }
                    let whole = device_entries(p@, pos as int, k as int, total as int, nc as int);
                    if k < nc {
                        assert(whole == (seq![entry] + rest.0, rest.1));
                    } else {
                        assert(whole == (rest.0, seq![entry] + rest.1));
                    }
                }
                let dev = BtDevice { name, mac };
                if k < nc {
                    proof {
                        lemma_push_view(connected@, dev);
                        assert(cur.0 + (seq![entry] + rest.0) =~= cur.0.push(entry) + rest.0);
                    }
                    connected.push(dev);
                } else {
                    proof {
                        lemma_push_view(paired@, dev);
                        assert(cur.1 + (seq![entry] + rest.1) =~= cur.1.push(entry) + rest.1);
                    }
                    paired.push(dev);
                }
                k = k + 1;
                if !fits {
                    proof {
                        assert(rest.0 =~= Seq::<DeviceView>::empty());
                        assert(rest.1 =~= Seq::<DeviceView>::empty());
                    }
                    pos = len;
                    proof {
                        let e2 = device_entries(p@, len as int, k as int, total as int, nc as int);
                        assert(e2.0 =~= Seq::<DeviceView>::empty());
                        assert(e2.1 =~= Seq::<DeviceView>::empty());
                        assert(e2 == rest);
                    }
                    break;
                }
                pos = start + n;
            }
            proof {
                let e = device_entries(p@, pos as int, k as int, total as int, nc as int);
                assert(e.0 =~= Seq::<DeviceView>::empty());
                assert(e.1 =~= Seq::<DeviceView>::empty());
                assert(device_views(connected@) + e.0 =~= device_views(connected@));
                assert(device_views(paired@) + e.1 =~= device_views(paired@));
            }
        } else {
            proof {
                assert(acc.0 + Seq::<DeviceView>::empty() =~= acc.0);
                assert(acc.1 + Seq::<DeviceView>::empty() =~= acc.1);
            }
        }
        i = i + 1;
    }
    proof {
        assert(all.skip(i as int) =~= Seq::<Seq<u8>>::empty());
        assert(device_views(connected@) + Seq::<DeviceView>::empty() =~= device_views(connected@));
        assert(device_views(paired@) + Seq::<DeviceView>::empty() =~= device_views(paired@));
    }
    Ok((connected, paired))
}

/// How one noise-control reply reads, for every sub-type and payload: a
/// `0x67`/`0x69` reply of at least seven bytes gives the state in bytes 3
/// to 6 (off when byte 3 is 0, else ambient when byte 4 is not 0, else
/// noise cancelling; voice focus from byte 5; the level from byte 6 in
/// ambient mode and 0 otherwise); it is passed over only for sub-type 0x17
/// when bytes 3 to 6 are all 0. Other non-empty payloads are passed over,
/// and an empty one is malformed.
pub proof fn lemma_anc_single_reply(sub: u8, p: Seq<u8>)
    ensures
        ({
            let r = first_hit(seq![p], |q: Seq<u8>| anc_probe(sub, q));
            &&& p.len() == 0 ==> r is Fault
            &&& p.len() > 0 && !((p[0] == 0x67 || p[0] == 0x69) && p.len() >= 7) ==> r is Skip
            &&& p.len() >= 7 && (p[0] == 0x67 || p[0] == 0x69) ==> {
                &&& (r is Skip <==> (sub == 0x17 && p[3] == 0 && p[4] == 0 && p[5] == 0 && p[6]
                    == 0))
                &&& !(r is Fault)
                &&& r matches Probe::Hit(st) ==> {
                    &&& (st.mode == AncMode::Off <==> p[3] == 0)
                    &&& (st.mode == AncMode::Ambient <==> (p[3] != 0 && p[4] != 0))
                    &&& (st.mode == AncMode::NoiseCancelling <==> (p[3] != 0 && p[4] == 0))
                    &&& st.voice == (p[5] != 0)
                    &&& st.level == (if p[4] != 0 {
                        p[6]
                    } else {
                        0u8
                    })
                }
            }
        }),
{
    let ps = seq![p];
    let f = |q: Seq<u8>| anc_probe(sub, q);
    assert(ps[0] == p);
    assert(ps.drop_first() =~= Seq::<Seq<u8>>::empty());
    assert(first_hit(Seq::<Seq<u8>>::empty(), f) is Skip);
    assert(first_hit(ps, f) == anc_probe(sub, p));
}

} // verus!
