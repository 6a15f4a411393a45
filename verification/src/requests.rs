//! The commands the client sends: payload bytes, channel, the leading byte
//! of the awaited reply, and how long to wait for it.
use vstd::prelude::*;
use crate::headphones::{AncStatus, PlaybackAction};
use crate::protocol::DataType;
use crate::replies::{auto_off_minutes, eq_probe, signed_byte, tagged_reading, Probe};

verus! {

/// A command to send and how to await its reply.
#[derive(Debug)]
pub struct Request {
    pub data_type: DataType,
    pub payload: Vec<u8>,
    pub expect: Option<u8>,
    pub timeout_ms: u64,
}

/// `r` is the command with these parts.
pub open spec fn request_is(
    r: Request,
    dt: DataType,
    payload: Seq<u8>,
    expect: Option<u8>,
    timeout_ms: u64,
) -> bool {
    &&& r.data_type == dt
    &&& r.payload@ == payload
    &&& r.expect == expect
    &&& r.timeout_ms == timeout_ms
}

/// `r` is a command on channel 1 with the usual wait of three seconds.
pub open spec fn cmd_is(r: Request, payload: Seq<u8>, expect: Option<u8>) -> bool {
    request_is(r, DataType::DataMdr, payload, expect, 3000)
}

/// A command on channel 1 with the usual wait of three seconds.
pub fn cmd_request(payload: Vec<u8>, expect: Option<u8>) -> (r: Request)
    ensures
        cmd_is(r, payload@, expect),
{
    Request { data_type: DataType::DataMdr, payload, expect, timeout_ms: 3000 }
}

/// Session start on channel 1.
pub fn init_request() -> (r: Request)
    ensures
        cmd_is(r, seq![0x00, 0x00], Some(0x01u8)),
{
    cmd_request(vec![0x00, 0x00], Some(0x01))
}

/// Session start on channel 2, which unlocks its replies.
pub fn init2_request() -> (r: Request)
    ensures
        request_is(r, DataType::DataMdrNo2, seq![0x06, 0x00], Some(0x07u8), 2000),
{
    Request { data_type: DataType::DataMdrNo2, payload: vec![0x06, 0x00], expect: Some(0x07), timeout_ms: 2000 }
}

/// Battery query.
pub fn battery_request() -> (r: Request)
    ensures
        cmd_is(r, seq![0x22, 0x00], Some(0x23u8)),
{
    cmd_request(vec![0x22, 0x00], Some(0x23))
}

/// The noise-control query sub-types, in the order they are tried: 0x19
/// (newer models) first, then 0x17.
pub const ANC_SUBTYPES: [u8; 2] = [0x19, 0x17];

/// What to do after a noise-control query: report the state, query the
/// next sub-type, or give up.
#[derive(Debug, Clone, Copy, PartialEq, Eq, Structural)]
pub enum AncStep {
    Found(AncStatus),
    Try(u8),
    NotFound,
}

/// The step after querying sub-type `sub` with outcome `found`: a state
/// found is reported; otherwise the sub-type after `sub` in
/// `ANC_SUBTYPES` is tried, and after the last one the search ends.
pub open spec fn anc_step_spec(sub: u8, found: Option<AncStatus>) -> AncStep {
    match found {
        Some(st) => AncStep::Found(st),
        None => if sub == 0x19 {
            AncStep::Try(0x17)
        } else {
            AncStep::NotFound
        },
    }
}

/// Decides the next step of the noise-control query (see `anc_step_spec`).
pub fn anc_next_step(sub: u8, found: Option<AncStatus>) -> (r: AncStep)
    ensures
        r == anc_step_spec(sub, found),
{
    match found {
        Some(st) => AncStep::Found(st),
        None => if sub == ANC_SUBTYPES[0] {
            AncStep::Try(ANC_SUBTYPES[1])
        } else {
            AncStep::NotFound
        },
    }
}

/// Noise-control query of sub-type `sub` (0x19 on newer models, 0x17 on
/// older ones).
pub fn anc_request(sub: u8) -> (r: Request)
    ensures
        cmd_is(r, seq![0x66, sub], Some(0x67u8)),
{
    cmd_request(vec![0x66, sub], Some(0x67))
}

/// Turns noise cancelling on.
pub fn noise_cancelling_request() -> (r: Request)
    ensures
        cmd_is(r, seq![0x68, 0x17, 0x01, 0x01, 0x00, 0x00, 0x01], None),
{
    cmd_request(vec![0x68, 0x17, 0x01, 0x01, 0x00, 0x00, 0x01], None)
}

/// The ambient level actually sent: `level` clamped to 1..=20.
pub open spec fn ambient_level(level: u8) -> u8 {
    if level < 1 {
        1
    } else if level > 20 {
        20
    } else {
        level
    }
}

/// Turns ambient sound on at `level` (clamped to 1..=20), with or without
/// voice focus.
pub fn ambient_request(level: u8, voice: bool) -> (r: Request)
    ensures
        cmd_is(
            r,
            seq![0x68, 0x17, 0x01, 0x01, 0x01, if voice { 0x01 } else { 0x00 }, ambient_level(level)],
            None,
        ),
{
    let level = if level < 1 {
        1
    } else if level > 20 {
        20
    } else {
        level
    };
    let v: u8 = if voice {
        0x01
    } else {
        0x00
    };
    cmd_request(vec![0x68, 0x17, 0x01, 0x01, 0x01, v, level], None)
}

/// Turns noise cancelling and ambient sound off.
pub fn anc_off_request() -> (r: Request)
    ensures
        cmd_is(r, seq![0x68, 0x17, 0x01, 0x00, 0x00, 0x00, 0x01], None),
{
    cmd_request(vec![0x68, 0x17, 0x01, 0x00, 0x00, 0x00, 0x01], None)
}

/// Equalizer query.
pub fn eq_request() -> (r: Request)
    ensures
        cmd_is(r, seq![0x56, 0x00], Some(0x57u8)),
{
    cmd_request(vec![0x56, 0x00], Some(0x57))
}

/// The byte that carries one band gain: the gain clamped to -10..=10,
/// plus 10.
pub open spec fn band_byte(b: i8) -> u8 {
    if b < -10 {
        0
    } else if b > 10 {
        20
    } else {
        (b + 10) as u8
    }
}

/// The equalizer payload: the header, the band count (modulo 256) and one
/// byte per band.
pub open spec fn set_eq_payload(bands: Seq<i8>) -> Seq<u8> {
    seq![0x58u8, 0x00, 0xA0, (bands.len() % 256) as u8] + bands.map_values(|b: i8| band_byte(b))
}

/// Sets the equalizer bands (each clamped to -10..=10).
pub fn set_eq_request(bands: &[i8]) -> (r: Request)
    ensures
        cmd_is(r, set_eq_payload(bands@), None),
{
    let mut payload: Vec<u8> = vec![0x58, 0x00, 0xA0, (bands.len() % 256) as u8];
    let mut i: usize = 0;
    while i < bands.len()
        invariant
            i <= bands@.len(),
            payload@ == seq![0x58u8, 0x00, 0xA0, (bands@.len() % 256) as u8] + bands@.take(
                i as int,
            ).map_values(|b: i8| band_byte(b)),
        decreases bands@.len() - i,
    {
        let b = bands[i];
        let c: i8 = if b < -10 {
            -10
        } else if b > 10 {
            10
        } else {
            b
        };
        payload.push((c + 10) as u8);
        assert(bands@.take(i + 1).map_values(|b: i8| band_byte(b)) =~= bands@.take(
            i as int,
        ).map_values(|b: i8| band_byte(b)).push(band_byte(b)));
        i = i + 1;
    }
    assert(bands@.take(bands@.len() as int) =~= bands@);
    cmd_request(payload, None)
}

/// Volume query.
pub fn volume_request() -> (r: Request)
    ensures
        cmd_is(r, seq![0xA6, 0x20], Some(0xA7u8)),
{
    cmd_request(vec![0xA6, 0x20], Some(0xA7))
}

/// Sets the volume to `level`, at most 30.
pub fn set_volume_request(level: u8) -> (r: Request)
    ensures
        cmd_is(r, seq![0xA8, 0x20, if level > 30 { 30 } else { level }], None),
{
    let level = if level > 30 {
        30
    } else {
        level
    };
    cmd_request(vec![0xA8, 0x20, level], None)
}

/// Speak-to-chat query.
pub fn speak_to_chat_request() -> (r: Request)
    ensures
        cmd_is(r, seq![0xF6, 0x0C], Some(0xF7u8)),
{
    cmd_request(vec![0xF6, 0x0C], Some(0xF7))
}

/// Turns speak-to-chat on or off (the device byte is inverted).
pub fn set_speak_to_chat_request(enabled: bool) -> (r: Request)
    ensures
        cmd_is(r, seq![0xF8, 0x0C, if enabled { 0x00 } else { 0x01 }, 0x01], None),
{
    let v: u8 = if enabled {
        0x00
    } else {
        0x01
    };
    cmd_request(vec![0xF8, 0x0C, v, 0x01], None)
}

/// Model-name query.
pub fn model_request() -> (r: Request)
    ensures
        cmd_is(r, seq![0x04, 0x01], Some(0x05u8)),
{
    cmd_request(vec![0x04, 0x01], Some(0x05))
}

/// Firmware-version query.
pub fn firmware_request() -> (r: Request)
    ensures
        cmd_is(r, seq![0x04, 0x02], Some(0x05u8)),
{
    cmd_request(vec![0x04, 0x02], Some(0x05))
}

/// Active-codec query.
pub fn codec_request() -> (r: Request)
    ensures
        cmd_is(r, seq![0x12, 0x02], Some(0x13u8)),
{
    cmd_request(vec![0x12, 0x02], Some(0x13))
}

/// DSEE query.
pub fn dsee_request() -> (r: Request)
    ensures
        cmd_is(r, seq![0xE6, 0x01], Some(0xE7u8)),
{
    cmd_request(vec![0xE6, 0x01], Some(0xE7))
}

/// Turns DSEE on or off.
pub fn set_dsee_request(enabled: bool) -> (r: Request)
    ensures
        cmd_is(r, seq![0xE8, 0x01, if enabled { 0x01 } else { 0x00 }], None),
{
    let v: u8 = if enabled {
        0x01
    } else {
        0x00
    };
    cmd_request(vec![0xE8, 0x01, v], None)
}

/// Auto power-off query.
pub fn auto_off_request() -> (r: Request)
    ensures
        cmd_is(r, seq![0x26, 0x05], Some(0x27u8)),
{
    cmd_request(vec![0x26, 0x05], Some(0x27))
}

/// An auto power-off time other than 0 (off), 5, 30, 60 or 180 minutes.
#[derive(Debug, Clone, Copy, PartialEq, Eq, Structural)]
pub struct InvalidAutoOff;

/// Whether the headphones offer an auto power-off time.
pub open spec fn valid_auto_off(minutes: u16) -> bool {
    minutes == 0 || minutes == 5 || minutes == 30 || minutes == 60 || minutes == 180
}

/// The code pair that stands for an offered auto power-off time.
pub open spec fn auto_off_code(minutes: u16) -> (u8, u8) {
    if minutes == 0 {
        (0x11, 0x00)
    } else if minutes == 5 {
        (0x10, 0x00)
    } else if minutes == 30 {
        (0x10, 0x01)
    } else if minutes == 60 {
        (0x10, 0x02)
    } else {
        (0x10, 0x03)
    }
}

/// Sets the auto power-off time; refused unless it is 0 (off), 5, 30, 60
/// or 180 minutes.
pub fn set_auto_off_request(minutes: u16) -> (r: Result<Request, InvalidAutoOff>)
    ensures
        valid_auto_off(minutes) <==> r is Ok,
        (minutes == 0 || minutes == 5 || minutes == 30 || minutes == 60 || minutes == 180) <==> r is Ok,
        r matches Ok(req) ==> cmd_is(
            req,
            seq![0x28, 0x05, auto_off_code(minutes).0, auto_off_code(minutes).1],
            None,
        ),
{
    let (c1, c2): (u8, u8) = if minutes == 0 {
        (0x11, 0x00)
    } else if minutes == 5 {
        (0x10, 0x00)
    } else if minutes == 30 {
        (0x10, 0x01)
    } else if minutes == 60 {
        (0x10, 0x02)
    } else if minutes == 180 {
        (0x10, 0x03)
    } else {
        return Err(InvalidAutoOff);
    };
    Ok(cmd_request(vec![0x28, 0x05, c1, c2], None))
}

/// Setting and reading auto power-off use the same codes: the code sent for
/// an offered time reads back as that time.
pub proof fn lemma_auto_off_code_roundtrip(minutes: u16)
    requires
        valid_auto_off(minutes),
    ensures
        auto_off_minutes(auto_off_code(minutes).0, auto_off_code(minutes).1) == minutes,
{
}

/// Voice-guidance query (channel 2).
pub fn voice_guidance_request() -> (r: Request)
    ensures
        request_is(r, DataType::DataMdrNo2, seq![0x46, 0x01], Some(0x47u8), 3000),
{
    Request { data_type: DataType::DataMdrNo2, payload: vec![0x46, 0x01], expect: Some(0x47), timeout_ms: 3000 }
}

/// Turns voice guidance on or off (channel 2).
pub fn set_voice_guidance_request(enabled: bool) -> (r: Request)
    ensures
        request_is(
            r,
            DataType::DataMdrNo2,
            seq![0x48, 0x01, if enabled { 0x01 } else { 0x00 }],
            None,
            3000,
        ),
{
    let v: u8 = if enabled {
        0x01
    } else {
        0x00
    };
    Request { data_type: DataType::DataMdrNo2, payload: vec![0x48, 0x01, v], expect: None, timeout_ms: 3000 }
}

/// Multipoint query.
pub fn multipoint_request() -> (r: Request)
    ensures
        cmd_is(r, seq![0xD6, 0xD2], Some(0xD7u8)),
{
    cmd_request(vec![0xD6, 0xD2], Some(0xD7))
}

/// Asks to turn multipoint on or off (the device byte is inverted); the
/// reply may take five seconds.
pub fn set_multipoint_request(enabled: bool) -> (r: Request)
    ensures
        request_is(
            r,
            DataType::DataMdr,
            seq![0xD8, 0xD2, 0x00, if enabled { 0x00 } else { 0x01 }],
            Some(0xD9u8),
            5000,
        ),
{
    let v: u8 = if enabled {
        0x00
    } else {
        0x01
    };
    Request { data_type: DataType::DataMdr, payload: vec![0xD8, 0xD2, 0x00, v], expect: Some(0xD9), timeout_ms: 5000 }
}

/// Follow-up sent after a multipoint change.
pub fn multipoint_commit_request() -> (r: Request)
    ensures
        cmd_is(r, seq![0x98, 0x00, 0x07, 0x01], None),
{
    cmd_request(vec![0x98, 0x00, 0x07, 0x01], None)
}

/// Device-list query (channel 2); the reply may come late, so every
/// payload within five seconds is collected.
pub fn devices_request() -> (r: Request)
    ensures
        request_is(r, DataType::DataMdrNo2, seq![0x36, 0x02], None, 5000),
{
    Request { data_type: DataType::DataMdrNo2, payload: vec![0x36, 0x02], expect: None, timeout_ms: 5000 }
}

/// The device byte of a media action.
pub open spec fn playback_code(action: PlaybackAction) -> u8 {
    match action {
        PlaybackAction::Pause => 1,
        PlaybackAction::Next => 2,
        PlaybackAction::Prev => 3,
        PlaybackAction::Play => 7,
    }
}

/// Media control.
pub fn playback_request(action: PlaybackAction) -> (r: Request)
    ensures
        cmd_is(r, seq![0xA4, 0x01, 0x00, playback_code(action)], None),
{
    let code: u8 = match action {
        PlaybackAction::Pause => 1,
        PlaybackAction::Next => 2,
        PlaybackAction::Prev => 3,
        PlaybackAction::Play => 7,
    };
    cmd_request(vec![0xA4, 0x01, 0x00, code], None)
}

/// Powers the headphones off.
pub fn power_off_request() -> (r: Request)
    ensures
        cmd_is(r, seq![0x24, 0x03, 0x01], None),
{
    cmd_request(vec![0x24, 0x03, 0x01], None)
}

/// A band gain clamped to the headphones' range -10..=10.
pub open spec fn clamp_band(b: i8) -> i8 {
    if b < -10 {
        -10i8
    } else if b > 10 {
        10i8
    } else {
        b
    }
}

/// The band bytes that the equalizer setter sends read back, in an
/// equalizer reply, as the requested gains clamped to -10..=10 (for fewer
/// than 256 bands, so that the count byte is exact).
pub proof fn lemma_eq_bands_roundtrip(bands: Seq<i8>, x: u8, y: u8)
    requires
        bands.len() < 256,
    ensures
        eq_probe(seq![0x57u8, x, y, bands.len() as u8] + bands.map_values(|b: i8| band_byte(b)))
            == Probe::Hit(bands.map_values(|b: i8| clamp_band(b))),
{
    let bytes = bands.map_values(|b: i8| band_byte(b));
    let p = seq![0x57u8, x, y, bands.len() as u8] + bytes;
    assert(p[3] == bands.len());
    assert forall|j: int| 4 <= j < 4 + p[3] implies signed_byte(#[trigger] p[j]) - 10 >= -128 by {
        assert(p[j] == bytes[j - 4]);
    }
    let got = Seq::new(p[3] as nat, |j: int| (signed_byte(p[4 + j]) - 10) as i8);
    assert(got =~= bands.map_values(|b: i8| clamp_band(b))) by {
        assert forall|j: int| 0 <= j < got.len() implies got[j] == clamp_band(bands[j]) by {
            assert(p[4 + j] == bytes[j]);
        }
    }
}

/// Each on/off setting reads back as what was set: the state byte that a
/// setter sends, placed in the matching reply, is read as the requested
/// state (speak-to-chat and multipoint store it inverted).
pub proof fn lemma_toggle_readback(enabled: bool)
    ensures
        tagged_reading(
            seq![seq![0xF7u8, 0x0C, if enabled { 0x00u8 } else { 0x01u8 }]],
            0xF7,
            0x0C,
            3,
            |p: Seq<u8>| p[2] == 0,
        ) == Ok::<Option<bool>, crate::replies::MalformedReply>(Some(enabled)),
        tagged_reading(
            seq![seq![0xE7u8, 0x01, if enabled { 0x01u8 } else { 0x00u8 }]],
            0xE7,
            0x01,
            3,
            |p: Seq<u8>| p[2] != 0,
        ) == Ok::<Option<bool>, crate::replies::MalformedReply>(Some(enabled)),
        tagged_reading(
            seq![seq![0x47u8, 0x01, if enabled { 0x01u8 } else { 0x00u8 }]],
            0x47,
            0x01,
            3,
            |p: Seq<u8>| p[2] != 0,
        ) == Ok::<Option<bool>, crate::replies::MalformedReply>(Some(enabled)),
        tagged_reading(
            seq![seq![0xD7u8, 0xD2, 0x00, if enabled { 0x00u8 } else { 0x01u8 }]],
            0xD7,
            0xD2,
            4,
            |p: Seq<u8>| p[3] == 0,
        ) == Ok::<Option<bool>, crate::replies::MalformedReply>(Some(enabled)),
{
    let a = seq![seq![0xF7u8, 0x0C, if enabled { 0x00u8 } else { 0x01u8 }]];
    let b = seq![seq![0xE7u8, 0x01, if enabled { 0x01u8 } else { 0x00u8 }]];
    let c = seq![seq![0x47u8, 0x01, if enabled { 0x01u8 } else { 0x00u8 }]];
    let d = seq![seq![0xD7u8, 0xD2, 0x00, if enabled { 0x00u8 } else { 0x01u8 }]];
    assert(a[0][0] == 0xF7 && a[0][1] == 0x0C);
    assert(b[0][0] == 0xE7 && b[0][1] == 0x01);
    assert(c[0][0] == 0x47 && c[0][1] == 0x01);
    assert(d[0][0] == 0xD7 && d[0][1] == 0xD2);
}

/// The auto power-off codes as the headphones use them: off is
/// `0x11 0x00`; the offered times 5, 30, 60 and 180 minutes are `0x10 k`
/// with `k` counting up from 0 in the order of the times, so a longer time
/// always has a larger code; and the code of each offered time reads back
/// as that time, while any other pair reads as 9999.
pub proof fn lemma_auto_off_codes(m1: u16, m2: u16, c1: u8, c2: u8)
    ensures
        valid_auto_off(m1) <==> (m1 == 0 || m1 == 5 || m1 == 30 || m1 == 60 || m1 == 180),
        auto_off_code(0) == (0x11u8, 0x00u8),
        valid_auto_off(m1) && m1 != 0 ==> auto_off_code(m1).0 == 0x10 && auto_off_code(m1).1 < 4,
        valid_auto_off(m1) && valid_auto_off(m2) && 0 < m1 < m2 ==> auto_off_code(m1).1
            < auto_off_code(m2).1,
        valid_auto_off(m1) ==> auto_off_minutes(auto_off_code(m1).0, auto_off_code(m1).1) == m1,
        (c1 == 0x10 && c2 < 4) || (c1 == 0x11 && c2 == 0) ==> valid_auto_off(
            auto_off_minutes(c1, c2),
        ) && auto_off_code(auto_off_minutes(c1, c2)) == (c1, c2),
        !((c1 == 0x10 && c2 < 4) || (c1 == 0x11 && c2 == 0)) ==> auto_off_minutes(c1, c2) == 9999,
{
}

} // verus!
