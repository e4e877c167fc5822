use vstd::prelude::*;

verus! {

/// Largest offset from the hardware centre that is tuned digitally (DDC), in Hz.
pub const DDC_RANGE_HZ: u32 = 1_000_000;

/// How a channel frequency request is carried out.
#[derive(Clone, Copy, Debug, PartialEq, Eq, Structural)]
pub enum TuneAction {
    /// Shift digitally by this many Hz from the current hardware centre.
    Ddc { offset_hz: i64 },
    /// Retune the hardware to this centre frequency.
    HardwareRetune { center_hz: u32 },
}

/// Distance in Hz between two frequencies.
pub open spec fn freq_distance(a: u32, b: u32) -> int {
    if a >= b {
        a - b
    } else {
        b - a
    }
}

/// Whether reaching `target_hz` from a hardware centre of `center_hz` needs a
/// hardware retune: the offset exceeds ±1 MHz.
pub fn requires_hardware_retune(center_hz: u32, target_hz: u32) -> (r: bool)
    ensures
        r == (freq_distance(center_hz, target_hz) > DDC_RANGE_HZ),
{
    let distance = if target_hz >= center_hz {
        target_hz - center_hz
    } else {
        center_hz - target_hz
    };
    distance > 1_000_000
}

/// The tuning plan for reaching `target_hz` from a hardware centre of
/// `center_hz`: a DDC offset within ±1 MHz, a hardware retune beyond it.
pub open spec fn plan_tune_spec(center_hz: u32, target_hz: u32) -> TuneAction {
    if freq_distance(center_hz, target_hz) > DDC_RANGE_HZ {
        TuneAction::HardwareRetune { center_hz: target_hz }
    } else {
        TuneAction::Ddc { offset_hz: (target_hz - center_hz) as i64 }
    }
}

/// The channel frequency reached by carrying out `action` from a hardware
/// centre of `center_hz`.
pub open spec fn tuned_frequency(center_hz: u32, action: TuneAction) -> int {
    match action {
        TuneAction::Ddc { offset_hz } => center_hz + offset_hz,
        TuneAction::HardwareRetune { center_hz: new_center } => new_center as int,
    }
}

/// Whatever plan is chosen, carrying it out lands exactly on the requested
/// channel, and a DDC shift never exceeds the ±1 MHz range.
pub proof fn lemma_plan_tune_reaches_target(center_hz: u32, target_hz: u32)
    ensures
        tuned_frequency(center_hz, plan_tune_spec(center_hz, target_hz)) == target_hz,
        plan_tune_spec(center_hz, target_hz) matches TuneAction::Ddc { offset_hz } ==> -DDC_RANGE_HZ
            <= offset_hz <= DDC_RANGE_HZ,
{
}

/// The hardware is retuned only when it must be: a target within ±1 MHz of the
/// hardware centre is always reached by a DDC shift of exactly the difference,
/// and a target further away by retuning the hardware to the target itself.
pub proof fn lemma_plan_tune_retunes_only_beyond_range(center_hz: u32, target_hz: u32)
    ensures
        -1_000_000 <= target_hz - center_hz <= 1_000_000 ==> plan_tune_spec(center_hz, target_hz)
            == (TuneAction::Ddc { offset_hz: (target_hz - center_hz) as i64 }),
        (target_hz - center_hz > 1_000_000 || target_hz - center_hz < -1_000_000) ==> plan_tune_spec(
            center_hz,
            target_hz,
        ) == (TuneAction::HardwareRetune { center_hz: target_hz }),
{
}

/// Decides how to tune to a channel frequency: within ±1 MHz of the hardware
/// centre a DDC offset suffices; beyond it the hardware is retuned to the target.
pub fn plan_tune(center_hz: u32, target_hz: u32) -> (a: TuneAction)
    ensures
        a == plan_tune_spec(center_hz, target_hz),
{
    if requires_hardware_retune(center_hz, target_hz) {
        TuneAction::HardwareRetune { center_hz: target_hz }
    } else {
        TuneAction::Ddc { offset_hz: target_hz as i64 - center_hz as i64 }
    }
}

// ── Stub IQ source ───────────────────────────────────────────────────────────

/// Number of IQ samples in one block of the stub source.
pub const STUB_BLOCK_LEN: usize = 8_192;

/// One block of the stub IQ source used when no hardware stream is open:
/// silence. Each sample is a pair of raw words (in-phase, quadrature), the
/// sample value being the word divided by 2^31; every word is zero.
pub fn stub_iq_block() -> (block: Vec<(i32, i32)>)
    ensures
        block@.len() == STUB_BLOCK_LEN,
        forall|i: int| 0 <= i < STUB_BLOCK_LEN ==> #[trigger] block@[i] == (0i32, 0i32),
{
    let mut block: Vec<(i32, i32)> = Vec::with_capacity(8_192);
    let mut i: usize = 0;
    while i < 8_192
        invariant
            i <= STUB_BLOCK_LEN,
            block@.len() == i,
            forall|j: int| 0 <= j < i ==> #[trigger] block@[j] == (0i32, 0i32),
        decreases STUB_BLOCK_LEN - i,
    {
        block.push((0, 0));
        i = i + 1;
    }
    block
}

} // verus!
