use sdr_core::waveform::WaveformStage;

#[test]
fn no_snapshot_before_update() {
    let mut w: WaveformStage<(f32, f32), f32> = WaveformStage::new((0.0, 0.0), 0.0);
    assert!(w.take_iq_waveform().is_none());
    assert!(w.take_audio_waveform().is_none());
}

#[test]
fn short_block_repeats_its_last_sample() {
    let mut w: WaveformStage<u32, u32> = WaveformStage::new(0, 0);
    let pcm: Vec<u32> = (0..100).collect();
    w.update_audio(&pcm);
    let snap = w.take_audio_waveform().expect("updated");
    assert_eq!(snap.len(), 512);
    assert_eq!(snap[0], 0);
    assert_eq!(snap[99], 99);
    assert_eq!(snap[100], 99);
    assert_eq!(snap[511], 99);
    assert!(w.take_audio_waveform().is_none());
}

#[test]
fn long_block_is_strided() {
    let mut w: WaveformStage<u32, u32> = WaveformStage::new(0, 0);
    let iq: Vec<u32> = (0..2048).collect();
    w.update_iq(&iq);
    let snap = w.take_iq_waveform().expect("updated");
    assert_eq!(snap[0], 0);
    assert_eq!(snap[1], 4);
    assert_eq!(snap[511], 2044);
}

#[test]
fn empty_block_changes_nothing() {
    let mut w: WaveformStage<u32, u32> = WaveformStage::new(7, 7);
    w.update_iq(&[]);
    w.update_audio(&[]);
    assert!(w.take_iq_waveform().is_none());
    assert!(w.take_audio_waveform().is_none());
    w.update_iq(&[3]);
    assert_eq!(w.take_iq_waveform().unwrap(), vec![3u32; 512]);
}
