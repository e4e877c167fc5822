use vstd::prelude::*;

verus! {

/// Errors of a hardware backend.
#[derive(Debug)]
pub enum HardwareError {
    OpenError(String),
    FrequencyError(String),
    SampleRateError(String),
    GainError(String),
    ReadError(String),
}

/// Errors of a device operation.
#[derive(Debug)]
pub enum DeviceError {
    OpenFailed(String),
    FrequencyError(String),
    SampleRateError(String),
    GainError(String),
    ReadError(String),
    NotOpen,
}

impl From<HardwareError> for DeviceError {
    fn from(e: HardwareError) -> (r: Self) {
        match e {
            HardwareError::OpenError(s) => DeviceError::OpenFailed(s),
            HardwareError::FrequencyError(s) => DeviceError::FrequencyError(s),
            HardwareError::SampleRateError(s) => DeviceError::SampleRateError(s),
            HardwareError::GainError(s) => DeviceError::GainError(s),
            HardwareError::ReadError(s) => DeviceError::ReadError(s),
        }
    }
}

impl vstd::std_specs::convert::FromSpecImpl<HardwareError> for DeviceError {
    open spec fn obeys_from_spec() -> bool {
        true
    }

    /// Each hardware error becomes the device error of the same kind, with the
    /// same message.
    open spec fn from_spec(e: HardwareError) -> DeviceError {
        match e {
            HardwareError::OpenError(s) => DeviceError::OpenFailed(s),
            HardwareError::FrequencyError(s) => DeviceError::FrequencyError(s),
            HardwareError::SampleRateError(s) => DeviceError::SampleRateError(s),
            HardwareError::GainError(s) => DeviceError::GainError(s),
            HardwareError::ReadError(s) => DeviceError::ReadError(s),
        }
    }
}

/// Tuning and streaming settings of a device.
#[derive(Debug, Clone)]
pub struct DeviceConfig {
    pub frequency_hz: u32,
    pub sample_rate: u32,
    /// Tuner gain in tenths of dB; `None` selects automatic gain.
    pub gain_tenths: Option<i32>,
    pub bias_tee: bool,
    pub audio_sample_rate: u32,
}

impl Default for DeviceConfig {
    /// 100 MHz, 2.048 MSPS, automatic gain, bias-tee off, 96 kHz audio.
    fn default() -> (c: Self)
        ensures
            c.frequency_hz == 100_000_000,
            c.sample_rate == 2_048_000,
            c.gain_tenths is None,
            !c.bias_tee,
            c.audio_sample_rate == 96_000,
    {
        Self {
            frequency_hz: 100_000_000,
            sample_rate: 2_048_000,
            gain_tenths: None,
            bias_tee: false,
            audio_sample_rate: 96_000,
        }
    }
}

/// The tuner gain request for a manual gain of `tenths_db` or automatic gain.
pub fn gain_setting(tenths_db: i32, auto_gain: bool) -> (g: Option<i32>)
    ensures
        auto_gain ==> g is None,
        !auto_gain ==> g == Some(tenths_db),
{
    if auto_gain {
        None
    } else {
        Some(tenths_db)
    }
}

/// Describes how to locate and open the hardware.
#[derive(Debug, Clone, PartialEq, Eq)]
pub enum DeviceSource {
    /// Open from an existing file descriptor (Unix/Android). `no_discovery`
    /// suppresses libusb bus enumeration (required on Android).
    FileDescriptor { fd: i32, no_discovery: bool },
    /// Open the first available RTL-SDR device.
    FirstAvailable,
    /// Open by device index (libusb enumeration order).
    Index(usize),
    /// Open by USB serial number string.
    Serial(String),
    /// Open the first device matching a USB vendor ID / product ID pair.
    VidPid { vid: u16, pid: u16 },
}

impl DeviceSource {
    /// Android: a file descriptor with discovery suppressed.
    pub fn android_fd(fd: i32) -> (s: Self)
        ensures
            s == (DeviceSource::FileDescriptor { fd, no_discovery: true }),
    {
        DeviceSource::FileDescriptor { fd, no_discovery: true }
    }

    /// POSIX: a file descriptor with discovery left enabled (Linux device node, etc.).
    pub fn posix_fd(fd: i32) -> (s: Self)
        ensures
            s == (DeviceSource::FileDescriptor { fd, no_discovery: false }),
    {
        DeviceSource::FileDescriptor { fd, no_discovery: false }
    }
}

/// USB connection speed of a device.
#[derive(Clone, Copy, Debug, PartialEq, Eq, Structural)]
pub enum UsbSpeed {
    Unknown,
    Low,
    Full,
    High,
    Super,
    SuperPlus,
}

/// Transfer size used when the bulk endpoint cannot be probed.
pub const FALLBACK_TRANSFER_SAMPLES: u64 = 8_192;

/// Packets per bulk transfer at a given connection speed.
pub open spec fn packets_per_transfer(speed: UsbSpeed) -> u64 {
    match speed {
        UsbSpeed::Full => 256,
        UsbSpeed::High => 64,
        UsbSpeed::Super | UsbSpeed::SuperPlus => 32,
        _ => 64,
    }
}

/// Transfer sizing in bytes: a probed transfer is 256 packets at full speed,
/// 32 at SuperSpeed and SuperSpeed+, and 64 otherwise, and holds half as many
/// IQ samples as bytes (two bytes per sample).
pub proof fn lemma_transfer_packets(packet_bytes: i32, speed: UsbSpeed)
    requires
        packet_bytes > 0,
    ensures
        speed == UsbSpeed::Full ==> packet_bytes * packets_per_transfer(speed) == packet_bytes * 256,
        (speed == UsbSpeed::Super || speed == UsbSpeed::SuperPlus) ==> packet_bytes * packets_per_transfer(
            speed,
        ) == packet_bytes * 32,
        (speed == UsbSpeed::High || speed == UsbSpeed::Low || speed == UsbSpeed::Unknown)
            ==> packet_bytes * packets_per_transfer(speed) == packet_bytes * 64,
{
}

/// The natural transfer size, in IQ samples (two bytes each), of a bulk IN
/// endpoint with the given maximum packet size: a speed-dependent number of
/// packets per transfer. Falls back to 8 192 samples when the packet size is
/// not positive.
pub fn bulk_transfer_samples(packet_bytes: i32, speed: UsbSpeed) -> (n: u64)
    ensures
        packet_bytes <= 0 ==> n == FALLBACK_TRANSFER_SAMPLES,
        packet_bytes > 0 ==> n == (packet_bytes * packets_per_transfer(speed)) / 2,
{
    if packet_bytes <= 0 {
        return 8_192;
    }
    let batch: u64 = match speed {
        UsbSpeed::Full => 256,
        UsbSpeed::High => 64,
        UsbSpeed::Super | UsbSpeed::SuperPlus => 32,
        _ => 64,
    };
    assert((packet_bytes as u64) * batch <= 0x7FFF_FFFFu64 * 256) by (nonlinear_arith)
        requires 0 < packet_bytes, batch <= 256;
    let total_bytes = (packet_bytes as u64) * batch;
    total_bytes / 2
}

} // verus!
