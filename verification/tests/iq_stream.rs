use sdr_core::stream::{IqStream, RETUNE_SETTLING_SAMPLES, RING_BUFFER_SIZE};

#[test]
fn read_size_defaults_to_hardware_size() {
    let s: IqStream<i32> = IqStream::new(0, 16_384, None);
    assert_eq!(s.read_size(), 16_384);
}

#[test]
fn smaller_read_size_request_is_honoured() {
    let s: IqStream<i32> = IqStream::new(0, 16_384, Some(4_096));
    assert_eq!(s.read_size(), 4_096);
}

#[test]
fn oversized_read_size_request_is_clamped() {
    let s: IqStream<i32> = IqStream::new(0, 16_384, Some(100_000));
    assert_eq!(s.read_size(), 16_384);
}

#[test]
fn samples_come_out_in_arrival_order() {
    let mut s: IqStream<i32> = IqStream::new(0, 8_192, None);
    assert_eq!(s.fill(&[1, 2, 3]), 3);
    assert_eq!(s.fill(&[4, 5]), 2);
    assert_eq!(s.available(), 5);
    assert_eq!(s.drain(2), vec![1, 2]);
    assert_eq!(s.available(), 3);
    assert_eq!(s.drain(10), vec![3, 4, 5]);
    assert_eq!(s.available(), 0);
    assert_eq!(s.drain(4), Vec::<i32>::new());
    assert_eq!(s.overflows(), 0);
}

#[test]
fn full_ring_overwrites_oldest_samples() {
    let mut s: IqStream<u32> = IqStream::new(0, 8_192, None);
    let n = RING_BUFFER_SIZE + 9;
    let data: Vec<u32> = (0..n as u32).collect();
    assert_eq!(s.fill(&data), n);
    // one slot stays free: capacity is RING_BUFFER_SIZE - 1
    assert_eq!(s.available(), RING_BUFFER_SIZE - 1);
    assert_eq!(s.overflows(), 10);
    let out = s.drain(3);
    assert_eq!(out, vec![10, 11, 12]);
}

#[test]
fn retune_discards_settling_samples() {
    let mut s: IqStream<u32> = IqStream::new(0, 8_192, None);
    s.mark_retuned();
    assert_eq!(s.settling_samples(), RETUNE_SETTLING_SAMPLES);
    let first: Vec<u32> = (0..200_000).collect();
    s.fill(&first);
    assert_eq!(s.available(), 0);
    assert_eq!(s.settling_samples(), 4_800);
    let second: Vec<u32> = (200_000..210_000).collect();
    s.fill(&second);
    assert_eq!(s.settling_samples(), 0);
    assert_eq!(s.available(), 5_200);
    assert_eq!(s.drain(1), vec![204_800]);
}

#[test]
fn flush_empties_the_ring() {
    let mut s: IqStream<i32> = IqStream::new(0, 8_192, None);
    s.fill(&[7, 8, 9]);
    s.flush();
    assert_eq!(s.available(), 0);
    s.fill(&[10]);
    assert_eq!(s.drain(5), vec![10]);
}

#[test]
fn wraps_around_the_ring_end() {
    let mut s: IqStream<u32> = IqStream::new(0, 8_192, None);
    let block: Vec<u32> = (0..(RING_BUFFER_SIZE as u32 - 10)).collect();
    s.fill(&block);
    s.drain(RING_BUFFER_SIZE - 12);
    s.fill(&[1, 2, 3, 4, 5]);
    assert_eq!(s.available(), 7);
    assert_eq!(s.drain(7), vec![RING_BUFFER_SIZE as u32 - 12, RING_BUFFER_SIZE as u32 - 11, 1, 2, 3, 4, 5]);
}

#[test]
fn every_sample_is_accounted_for() {
    let mut s: IqStream<u32> = IqStream::new(0, 8_192, None);
    s.mark_retuned();
    let n = RING_BUFFER_SIZE + 9;
    let data: Vec<u32> = (0..n as u32).collect();
    s.fill(&data);
    let settled = RETUNE_SETTLING_SAMPLES;
    assert_eq!(s.overflows(), 10);
    assert_eq!(s.settling_samples(), 0);
    assert_eq!(s.available() + s.overflows() as usize + settled, n);
    // the oldest survivor is the first sample past the overwritten and settled ones
    assert_eq!(s.drain(1), vec![10 + settled as u32]);
}

#[test]
fn settling_spans_several_fills() {
    let mut s: IqStream<u32> = IqStream::new(0, 8_192, None);
    s.mark_retuned();
    let data: Vec<u32> = (0..300_000).collect();
    for chunk in data.chunks(70_000) {
        s.fill(chunk);
    }
    assert_eq!(s.available(), 300_000 - RETUNE_SETTLING_SAMPLES);
    let out = s.drain(s.available());
    assert_eq!(out, data[RETUNE_SETTLING_SAMPLES..].to_vec());
}
