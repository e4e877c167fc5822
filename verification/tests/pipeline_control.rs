use sdr_core::blocks::{decimated_rate, decimation, stereo_request, OverlapHistory, SquelchGate};
use sdr_core::manager::{PipelineState, MODE_CROSSFADE_LEN, RETUNE_DISCARD_SAMPLES};
use sdr_core::modes::{AmBandwidth, PipelineMode};
use sdr_core::service::{
    plan_tune, requires_hardware_retune, stub_iq_block, TuneAction, STUB_BLOCK_LEN,
};

#[test]
fn small_offsets_use_ddc() {
    assert_eq!(plan_tune(100_000_000, 100_500_000), TuneAction::Ddc { offset_hz: 500_000 });
    assert_eq!(plan_tune(100_000_000, 99_000_000), TuneAction::Ddc { offset_hz: -1_000_000 });
    assert!(!requires_hardware_retune(100_000_000, 101_000_000));
}

#[test]
fn large_offsets_retune_hardware() {
    assert_eq!(
        plan_tune(100_000_000, 101_000_001),
        TuneAction::HardwareRetune { center_hz: 101_000_001 }
    );
    assert!(requires_hardware_retune(100_000_000, 98_999_999));
}

#[test]
fn retune_enters_settling_state() {
    let s: PipelineState<u8> = PipelineState::Stable;
    let (next, was_crossfading) = s.retuned();
    assert!(!was_crossfading);
    assert!(matches!(next, PipelineState::Retuning { samples_remaining } if samples_remaining == RETUNE_DISCARD_SAMPLES));
    let x: PipelineState<u8> = PipelineState::begin_crossfade(3);
    let (_, was_crossfading) = x.retuned();
    assert!(was_crossfading);
}

#[test]
fn retuning_discards_until_settled() {
    let s: PipelineState<u8> = PipelineState::discard_block(204_800, 200_000);
    assert!(matches!(s, PipelineState::Retuning { samples_remaining: 4_800 }));
    let s: PipelineState<u8> = PipelineState::discard_block(4_800, 8_192);
    assert!(matches!(s, PipelineState::Stable));
}

#[test]
fn crossfade_completes_after_its_length() {
    let s: PipelineState<&str> = PipelineState::begin_crossfade("fm");
    match s {
        PipelineState::CrossfadingMode { outgoing, progress, crossfade_len } => {
            assert_eq!(outgoing, "fm");
            assert_eq!(progress, 0);
            assert_eq!(crossfade_len, MODE_CROSSFADE_LEN);
            let (s2, done) = PipelineState::advance_crossfade(outgoing, progress, crossfade_len, 1_000);
            assert!(!done);
            assert!(matches!(s2, PipelineState::CrossfadingMode { progress: 1_000, .. }));
            let (s3, done) = PipelineState::advance_crossfade("fm", 1_000, crossfade_len, 1_048);
            assert!(done);
            assert!(matches!(s3, PipelineState::Stable));
        }
        _ => panic!("expected a crossfade"),
    }
}

#[test]
fn squelch_hang_holds_gate_open() {
    let mut g = SquelchGate::new();
    assert!(g.gate(false));
    assert!(!g.gate(true));
    g.set_hang(480);
    assert!(g.gate(false));
    g.consume(400);
    assert!(g.gate(true));
    g.consume(400);
    assert!(!g.gate(true));
}

#[test]
fn stereo_needs_pilot() {
    assert_eq!(stereo_request(true, false, false), (false, false));
    assert_eq!(stereo_request(true, true, false), (true, true));
    assert_eq!(stereo_request(false, false, true), (false, true));
}

#[test]
fn decimation_factors() {
    assert_eq!(decimation(2_400_000, 200_000), 12);
    assert_eq!(decimated_rate(2_400_000, 12), 200_000);
    assert_eq!(decimation(48_000, 96_000), 1);
    assert_eq!(decimation(2_048_000, 50_000), 40);
    assert_eq!(decimated_rate(2_048_000, 40), 51_200);
}

#[test]
fn tap_change_keeps_continuity() {
    let stream: Vec<i32> = (1..=20).collect();
    let mut changed = OverlapHistory::new(7, 0i32);
    changed.extend(&stream);
    changed.resize(3, 0);
    let mut fresh = OverlapHistory::new(3, 0i32);
    fresh.extend(&stream);
    assert_eq!(changed.extend(&[21, 22]), fresh.extend(&[21, 22]));
}

#[test]
fn overlap_history_keeps_last_samples() {
    let mut h = OverlapHistory::new(3, 0i32);
    let ext = h.extend(&[1, 2, 3, 4, 5]);
    assert_eq!(ext, vec![0, 0, 0, 1, 2, 3, 4, 5]);
    let ext = h.extend(&[6]);
    assert_eq!(ext, vec![3, 4, 5, 6]);
    h.resize(5, 0);
    assert_eq!(h.extend(&[]), vec![0, 0, 4, 5, 6]);
    h.resize(2, 0);
    assert_eq!(h.extend(&[9]), vec![5, 6, 9]);
    assert_eq!(OverlapHistory::<i32>::overlap_for(0), 0);
    assert_eq!(OverlapHistory::<i32>::overlap_for(64), 63);
}

#[test]
fn am_bandwidth_presets() {
    assert_eq!(AmBandwidth::Wide.cutoff_hz(), 8_000);
    assert_eq!(AmBandwidth::Normal.cutoff_hz(), 5_000);
    assert_eq!(AmBandwidth::Narrow.cutoff_hz(), 3_000);
    assert_eq!(AmBandwidth::Voice.cutoff_hz(), 2_500);
    assert_ne!(PipelineMode::Wfm, PipelineMode::Nfm);
}

#[test]
fn stub_source_is_silent() {
    let block = stub_iq_block();
    assert_eq!(block.len(), STUB_BLOCK_LEN);
    assert_eq!(STUB_BLOCK_LEN, 8_192);
    assert!(block.iter().all(|&w| w == (0, 0)));
}

#[test]
fn retune_discard_is_independent_of_block_sizes() {
    let mut s: PipelineState<u8> = PipelineState::Retuning { samples_remaining: RETUNE_DISCARD_SAMPLES };
    let blocks = [100_000usize, 4_096, 100_000, 8_192];
    let mut seen = 0usize;
    for b in blocks {
        s = match s {
            PipelineState::Retuning { samples_remaining } => PipelineState::discard_block(samples_remaining, b),
            other => other,
        };
        seen += b;
        if seen >= RETUNE_DISCARD_SAMPLES {
            assert!(matches!(s, PipelineState::Stable));
        } else {
            assert!(matches!(s, PipelineState::Retuning { samples_remaining } if samples_remaining == RETUNE_DISCARD_SAMPLES - seen));
        }
    }
}

#[test]
fn tuning_plan_lands_on_target() {
    for &(center, target) in &[(100_000_000u32, 100_250_000u32), (100_000_000, 99_400_000), (100_000_000, 88_000_000)] {
        let reached = match plan_tune(center, target) {
            TuneAction::Ddc { offset_hz } => center as i64 + offset_hz,
            TuneAction::HardwareRetune { center_hz } => center_hz as i64,
        };
        assert_eq!(reached, target as i64);
    }
}
