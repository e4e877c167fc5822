use vstd::prelude::*;

verus! {

/// Demodulation modes of the DSP toolkit.
#[derive(Clone, Copy, Debug, PartialEq, Eq, Structural)]
pub enum DemodulationMode {
    WFM,
    NFM,
    AM,
    LSB,
    USB,
    DSB,
    RAW,
}

/// De-emphasis settings of the DSP toolkit.
#[derive(Clone, Copy, Debug, PartialEq, Eq, Structural)]
pub enum Deemphesis {
    Stereo,
    Mono,
}

/// Channel width of the single-stage FM demodulator.
#[derive(Clone, Copy, Debug, PartialEq, Eq, Structural)]
pub enum FMDemodulationMode {
    Narrow,
    Wide,
}

/// FM pipeline flavour.
#[derive(Clone, Copy, Debug, PartialEq, Eq, Structural)]
pub enum FmMode {
    /// Wide FM — broadcast band, up to 200 kHz deviation, stereo pilot, RDS-capable.
    Wide,
    /// Narrow FM — voice/utility bands, ±5 kHz deviation, mono, no de-emphasis.
    Narrow,
}

/// AM demodulation sub-mode. Only envelope detection is implemented; the
/// others currently fall back to it.
#[derive(Clone, Copy, Debug, PartialEq, Eq, Structural)]
pub enum AmMode {
    Envelope,
    /// Synchronous AM (PLL-based)
    Sam,
    /// Upper sideband
    Usb,
    /// Lower sideband
    Lsb,
    /// Double sideband
    Dsb,
}

/// Preset AM IF filter widths.
#[derive(Clone, Copy, Debug, PartialEq, Eq, Structural)]
pub enum AmBandwidth {
    /// 8 kHz — music, strong signals
    Wide,
    /// 5 kHz — standard broadcast
    Normal,
    /// 3 kHz — interference / adjacent channel
    Narrow,
    /// 2.5 kHz — severe interference / SSB
    Voice,
}

pub open spec fn cutoff_hz_spec(bw: AmBandwidth) -> u32 {
    match bw {
        AmBandwidth::Wide => 8_000,
        AmBandwidth::Normal => 5_000,
        AmBandwidth::Narrow => 3_000,
        AmBandwidth::Voice => 2_500,
    }
}

/// The presets narrow step by step: Wide 8 kHz, Normal 5 kHz, Narrow 3 kHz,
/// Voice 2.5 kHz, each above the 2 kHz floor of the IF filter.
pub proof fn lemma_am_presets_narrow(bw: AmBandwidth)
    ensures
        cutoff_hz_spec(AmBandwidth::Wide) == 8_000,
        cutoff_hz_spec(AmBandwidth::Normal) == 5_000,
        cutoff_hz_spec(AmBandwidth::Narrow) == 3_000,
        cutoff_hz_spec(AmBandwidth::Voice) == 2_500,
        cutoff_hz_spec(bw) >= 2_000,
{
}

impl AmBandwidth {
    /// The preset's IF filter cutoff in Hz.
    pub fn cutoff_hz(self) -> (hz: u32)
        ensures
            hz == cutoff_hz_spec(self),
    {
        match self {
            AmBandwidth::Wide => 8_000,
            AmBandwidth::Normal => 5_000,
            AmBandwidth::Narrow => 3_000,
            AmBandwidth::Voice => 2_500,
        }
    }
}

/// Top-level demodulation mode: wide FM, narrow FM, or AM with double,
/// upper or lower sideband.
#[derive(Clone, Copy, Debug, PartialEq, Eq, Structural)]
pub enum PipelineMode {
    Wfm,
    Nfm,
    AmDsb,
    AmUsb,
    AmLsb,
}

} // verus!
