use sdr_core::device::{
    bulk_transfer_samples, gain_setting, DeviceConfig, DeviceError, DeviceSource, HardwareError,
    UsbSpeed,
};
use sdr_core::modes::PipelineMode;
use sdr_core::settings::{parse_hex_u16, resolve_device_source, DeviceSettings, ModeValue};

fn settings(source: &str) -> DeviceSettings {
    DeviceSettings {
        source: source.to_string(),
        index: None,
        serial: None,
        vid: None,
        pid: None,
        center_hz: 101_100_000,
        sample_rate: 2_400_000,
        audio_rate: 48_000,
        gain_tenths: None,
        bias_tee: false,
    }
}

#[test]
fn default_device_config() {
    let c = DeviceConfig::default();
    assert_eq!(c.frequency_hz, 100_000_000);
    assert_eq!(c.sample_rate, 2_048_000);
    assert_eq!(c.gain_tenths, None);
    assert!(!c.bias_tee);
    assert_eq!(c.audio_sample_rate, 96_000);
}

#[test]
fn hardware_errors_map_to_device_errors() {
    assert!(matches!(DeviceError::from(HardwareError::OpenError("x".into())), DeviceError::OpenFailed(s) if s == "x"));
    assert!(matches!(DeviceError::from(HardwareError::FrequencyError("f".into())), DeviceError::FrequencyError(s) if s == "f"));
    assert!(matches!(DeviceError::from(HardwareError::SampleRateError("r".into())), DeviceError::SampleRateError(s) if s == "r"));
    assert!(matches!(DeviceError::from(HardwareError::GainError("g".into())), DeviceError::GainError(s) if s == "g"));
    assert!(matches!(DeviceError::from(HardwareError::ReadError("e".into())), DeviceError::ReadError(s) if s == "e"));
}

#[test]
fn fd_sources() {
    assert_eq!(DeviceSource::android_fd(7), DeviceSource::FileDescriptor { fd: 7, no_discovery: true });
    assert_eq!(DeviceSource::posix_fd(9), DeviceSource::FileDescriptor { fd: 9, no_discovery: false });
}

#[test]
fn gain_modes() {
    assert_eq!(gain_setting(280, false), Some(280));
    assert_eq!(gain_setting(280, true), None);
}

#[test]
fn bulk_transfer_sizes() {
    assert_eq!(bulk_transfer_samples(512, UsbSpeed::High), 16_384);
    assert_eq!(bulk_transfer_samples(64, UsbSpeed::Full), 8_192);
    assert_eq!(bulk_transfer_samples(1024, UsbSpeed::Super), 16_384);
    assert_eq!(bulk_transfer_samples(1024, UsbSpeed::SuperPlus), 16_384);
    assert_eq!(bulk_transfer_samples(512, UsbSpeed::Unknown), 16_384);
    assert_eq!(bulk_transfer_samples(0, UsbSpeed::High), 8_192);
    assert_eq!(bulk_transfer_samples(-5, UsbSpeed::High), 8_192);
}

#[test]
fn hex_ids_parse_like_from_str_radix() {
    for s in ["0bda", "2838", "+ff", "FFFF", "0", "00000abc", "", "+", "-1", "10000", "0x12", "g", "ab cd"] {
        assert_eq!(parse_hex_u16(s), u16::from_str_radix(s, 16).ok(), "input {:?}", s);
    }
}

#[test]
fn device_source_selection() {
    assert_eq!(resolve_device_source(&settings("stub")), None);
    assert_eq!(resolve_device_source(&settings("")), None);
    assert_eq!(resolve_device_source(&settings("bogus")), None);
    assert_eq!(resolve_device_source(&settings("first_available")), Some(DeviceSource::FirstAvailable));
    assert_eq!(resolve_device_source(&settings("index")), Some(DeviceSource::Index(0)));
    let mut s = settings("index");
    s.index = Some(2);
    assert_eq!(resolve_device_source(&s), Some(DeviceSource::Index(2)));
    assert_eq!(resolve_device_source(&settings("serial")), None);
    let mut s = settings("serial");
    s.serial = Some("00000001".to_string());
    assert_eq!(resolve_device_source(&s), Some(DeviceSource::Serial("00000001".to_string())));
    let mut s = settings("vid_pid");
    s.vid = Some("0bda".to_string());
    s.pid = Some("2838".to_string());
    assert_eq!(resolve_device_source(&s), Some(DeviceSource::VidPid { vid: 0x0bda, pid: 0x2838 }));
    s.pid = None;
    assert_eq!(resolve_device_source(&s), None);
}

#[test]
fn mode_values_map_to_pipeline_modes() {
    assert_eq!(ModeValue::Wfm.pipeline_mode(), PipelineMode::Wfm);
    assert_eq!(ModeValue::Nfm.pipeline_mode(), PipelineMode::Nfm);
    assert_eq!(ModeValue::AmDsb.pipeline_mode(), PipelineMode::AmDsb);
    assert_eq!(ModeValue::AmUsb.pipeline_mode(), PipelineMode::AmUsb);
    assert_eq!(ModeValue::AmLsb.pipeline_mode(), PipelineMode::AmLsb);
}
