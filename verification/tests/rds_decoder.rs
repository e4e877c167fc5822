use sdr_core::rds::{
    syndrome, RdsDecoder, OFFSET_A, OFFSET_B, OFFSET_C, OFFSET_CP, OFFSET_D, POLY_LOWER,
};

/// Remainder of a polynomial over GF(2) modulo G(x) = 0x5B9, by long division.
fn poly_mod(mut v: u64, nbits: u32) -> u32 {
    let g: u64 = 0x400 | POLY_LOWER as u64;
    let mut i = nbits;
    while i > 10 {
        i -= 1;
        if (v >> i) & 1 == 1 {
            v ^= g << (i - 10);
        }
    }
    v as u32
}

fn encode(data: u16, offset: u32) -> u32 {
    let check = syndrome((data as u32) << 10);
    ((data as u32) << 10) | (check ^ offset)
}

fn push_block(d: &mut RdsDecoder, word: u32) {
    for i in (0..26).rev() {
        d.push_bit(((word >> i) & 1) as u8);
    }
}

fn push_group(d: &mut RdsDecoder, blocks: [u16; 4], c_offset: u32) {
    push_block(d, encode(blocks[0], OFFSET_A));
    push_block(d, encode(blocks[1], OFFSET_B));
    push_block(d, encode(blocks[2], c_offset));
    push_block(d, encode(blocks[3], OFFSET_D));
}

#[test]
fn syndrome_is_remainder_modulo_generator() {
    for w in [0u32, 1, 0x3FF, 0x400, 0x12345, 0x3FF_FFFF, 0x2AA_AAAA] {
        assert_eq!(syndrome(w), poly_mod(w as u64, 26));
    }
    assert_eq!(syndrome(0), 0);
    assert_eq!(syndrome(0x1B9), 0x1B9);
    assert_eq!(syndrome(0x400), 0x1B9);
}

#[test]
fn valid_block_syndrome_equals_offset() {
    for offset in [OFFSET_A, OFFSET_B, OFFSET_C, OFFSET_CP, OFFSET_D] {
        for data in [0u16, 1, 0x1234, 0xABCD, 0xFFFF] {
            assert_eq!(syndrome(encode(data, offset)), offset);
        }
    }
}

#[test]
fn syndrome_is_linear() {
    let a = 0x1A2_B3C4;
    let b = 0x0F0_F0F0;
    assert_eq!(syndrome(a ^ b), syndrome(a) ^ syndrome(b));
}

#[test]
fn new_decoder_is_blank() {
    let d = RdsDecoder::new();
    assert_eq!(d.pi(), 0);
    assert_eq!(d.ps(), [0x20u8; 8]);
    assert_eq!(d.rt(), [0x20u8; 64]);
    assert!(!d.ps_ready());
    assert!(!d.rt_ready());
    assert_eq!(d.ps_string(), "");
    assert_eq!(d.rt_string(), "");
}

fn ps_group(pi: u16, seg: u16, chars: &[u8; 2]) -> [u16; 4] {
    // group 0A, TP=1, PTY=10, TA=1, MS=1, segment
    let b1 = (1 << 10) | (10 << 5) | (1 << 4) | (1 << 3) | seg;
    let d = ((chars[0] as u16) << 8) | chars[1] as u16;
    [pi, b1, 0, d]
}

#[test]
fn decodes_programme_service_name() {
    let mut d = RdsDecoder::new();
    let name = b"RADIO 1 ";
    for seg in 0..4u16 {
        let i = (seg * 2) as usize;
        push_group(&mut d, ps_group(0xC201, seg, &[name[i], name[i + 1]]), OFFSET_C);
    }
    assert_eq!(d.pi(), 0xC201);
    assert_eq!(&d.ps(), name);
    assert_eq!(d.ps_string(), "RADIO 1");
    assert!(d.ps_ready());
    assert!(d.tp());
    assert!(d.ta());
    assert!(d.ms());
    assert_eq!(d.pty(), 10);
}

#[test]
fn non_printable_ps_characters_are_ignored() {
    let mut d = RdsDecoder::new();
    push_group(&mut d, ps_group(0x1234, 1, &[0x07, b'Z']), OFFSET_C);
    assert_eq!(d.ps(), [0x20, 0x20, 0x20, b'Z', 0x20, 0x20, 0x20, 0x20]);
    assert_eq!(d.ps_string(), "   Z");
}

fn rt_group_2a(pi: u16, ab: bool, seg: u16, text: &[u8; 4]) -> [u16; 4] {
    let b1 = (2 << 12) | ((ab as u16) << 4) | seg;
    [
        pi,
        b1,
        ((text[0] as u16) << 8) | text[1] as u16,
        ((text[2] as u16) << 8) | text[3] as u16,
    ]
}

#[test]
fn decodes_radiotext_until_carriage_return() {
    let mut d = RdsDecoder::new();
    push_group(&mut d, rt_group_2a(0x1111, false, 0, b"HELL"), OFFSET_C);
    push_group(&mut d, rt_group_2a(0x1111, false, 1, b"O\r??"), OFFSET_C);
    assert!(d.rt_ready());
    assert_eq!(d.rt_string(), "HELLO");
}

#[test]
fn radiotext_ab_flip_clears_text() {
    let mut d = RdsDecoder::new();
    push_group(&mut d, rt_group_2a(0x1111, false, 1, b"ABCD"), OFFSET_C);
    assert_eq!(d.rt_string(), "    ABCD");
    push_group(&mut d, rt_group_2a(0x1111, true, 0, b"XY  "), OFFSET_C);
    assert!(d.rt_ab());
    assert_eq!(d.rt_string(), "XY");
}

#[test]
fn decodes_radiotext_2b_with_c_prime() {
    let mut d = RdsDecoder::new();
    let b1 = (2 << 12) | (1 << 11) | 3;
    push_group(&mut d, [0x2222, b1, 0x2222, ((b'o' as u16) << 8) | b'k' as u16], OFFSET_CP);
    assert_eq!(&d.rt()[6..8], b"ok");
    assert_eq!(d.rt_string(), "      ok");
}

#[test]
fn corrupted_block_b_skips_group() {
    let mut d = RdsDecoder::new();
    push_group(&mut d, ps_group(0x0101, 0, b"AB"), OFFSET_C);
    assert_eq!(d.ps_string(), "AB");
    // second group: block B damaged
    push_block(&mut d, encode(0x0101, OFFSET_A));
    push_block(&mut d, encode(0x0008 | 1, OFFSET_B) ^ 0x1);
    push_block(&mut d, encode(0, OFFSET_C));
    push_block(&mut d, encode(((b'C' as u16) << 8) | b'D' as u16, OFFSET_D));
    assert_eq!(d.ps_string(), "AB");
    // framing survived one bad block: the next group decodes
    push_group(&mut d, ps_group(0x0101, 1, b"CD"), OFFSET_C);
    assert_eq!(d.ps_string(), "ABCD");
}

#[test]
fn clock_bit_decodes_differentially() {
    // Equal consecutive levels give 1, a level change gives 0. Build the
    // level sequence for the data bits of a valid block A and feed it.
    let word = encode(0x5555, OFFSET_A);
    let mut d = RdsDecoder::new();
    let mut level = false; // previous decision starts at 0
    for i in (0..26).rev() {
        let bit = (word >> i) & 1;
        if bit == 0 {
            level = !level;
        }
        d.clock_bit(level);
    }
    // Framing locked on block A: the next block is expected at position B.
    push_block(&mut d, encode(0x0000, OFFSET_B));
    push_block(&mut d, encode(0, OFFSET_C));
    push_block(&mut d, encode(((b'H' as u16) << 8) | b'I' as u16, OFFSET_D));
    assert_eq!(d.pi(), 0x5555);
    assert_eq!(d.ps_string(), "HI");
}

#[test]
fn burst_errors_change_the_syndrome() {
    let word = encode(0x1234, OFFSET_B);
    for s in 0..=16u32 {
        for e in 1..0x400u32 {
            assert_ne!(syndrome(word ^ (e << s)), syndrome(word));
        }
    }
}

#[test]
fn group_with_bad_block_a_is_not_decoded() {
    let mut d = RdsDecoder::new();
    push_group(&mut d, [0x1111, 0x0000, 0x0000, 0x4142], OFFSET_C);
    assert_eq!(d.pi(), 0x1111);
    // block A corrupted by one flipped bit, then a complete PS group of another station
    push_block(&mut d, encode(0x2222, OFFSET_A) ^ 1);
    push_block(&mut d, encode(0x0000, OFFSET_B));
    push_block(&mut d, encode(0x0000, OFFSET_C));
    push_block(&mut d, encode(0x4344, OFFSET_D));
    assert_eq!(d.pi(), 0x1111);
    assert_eq!(d.ps_string(), "AB");
}
