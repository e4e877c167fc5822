//! Integer core of an RTL-SDR receiver: RDS block framing and group decoding,
//! the IQ ring buffer, display snapshots, pipeline transition and tuning
//! decisions, device configuration and server settings.
pub mod rds;
pub mod stream;
pub mod waveform;
pub mod modes;
pub mod manager;
pub mod service;
pub mod blocks;
pub mod device;
pub mod settings;
