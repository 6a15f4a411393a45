//! The values that the headphones report and accept.
use vstd::prelude::*;

verus! {

/// RFCOMM channel of the headphones' control service.
pub const DEFAULT_CHANNEL: u8 = 9;

/// Noise-control mode.
#[derive(Debug, Clone, Copy, PartialEq, Eq, Structural)]
pub enum AncMode {
    Off,
    NoiseCancelling,
    Ambient,
}

/// Noise-control state: mode, voice focus and ambient level (0 unless the
/// mode is ambient).
#[derive(Debug, Clone, Copy, PartialEq, Eq, Structural)]
pub struct AncStatus {
    pub mode: AncMode,
    pub voice: bool,
    pub level: u8,
}

/// Equalizer band gains, each from -10 to +10 in the headphones' range.
#[derive(Debug)]
pub struct EqStatus {
    pub bands: Vec<i8>,
}

/// Model name, firmware version and active codec; empty when unknown.
#[derive(Debug)]
pub struct DeviceInfo {
    pub model: String,
    pub firmware: String,
    pub codec: String,
}

impl Default for DeviceInfo {
    fn default() -> (d: DeviceInfo)
        ensures
            d.model@.len() == 0,
            d.firmware@.len() == 0,
            d.codec@.len() == 0,
    {
        DeviceInfo { model: String::new(), firmware: String::new(), codec: String::new() }
    }
}

/// Device information from the texts read, each empty when it was not
/// reported.
pub fn device_info_from(
    model: Option<String>,
    firmware: Option<String>,
    codec: Option<String>,
) -> (d: DeviceInfo)
    ensures
        d.model@ == (match model {
            Some(t) => t@,
            None => Seq::<char>::empty(),
        }),
        d.firmware@ == (match firmware {
            Some(t) => t@,
            None => Seq::<char>::empty(),
        }),
        d.codec@ == (match codec {
            Some(t) => t@,
            None => Seq::<char>::empty(),
        }),
{
    let mut info = DeviceInfo::default();
    if let Some(t) = model {
        info.model = t;
    }
    if let Some(t) = firmware {
        info.firmware = t;
    }
    if let Some(t) = codec {
        info.codec = t;
    }
    info
}

/// A Bluetooth device known to the headphones.
#[derive(Debug)]
pub struct BtDevice {
    pub name: String,
    pub mac: String,
}

/// Media control action.
#[derive(Debug, Clone, Copy, PartialEq, Eq, Structural)]
pub enum PlaybackAction {
    Play,
    Pause,
    Next,
    Prev,
}

} // verus!
