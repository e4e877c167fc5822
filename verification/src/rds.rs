use vstd::prelude::*;

verus! {

/// Lower 10 bits of the generator polynomial G(x) = x^10 + x^8 + x^7 + x^5 + x^4 + x^3 + 1.
pub const POLY_LOWER: u32 = 0x1B9;

/// Block offset words: the syndrome of a valid received block equals its offset word.
pub const OFFSET_A: u32 = 0x0FC;
pub const OFFSET_B: u32 = 0x198;
pub const OFFSET_C: u32 = 0x168;
/// Offset word C' used in version B groups.
pub const OFFSET_CP: u32 = 0x354;
pub const OFFSET_D: u32 = 0x1B4;

/// One step of polynomial division by G(x): shift `bit` into the 10-bit
/// remainder and reduce by G(x) when the bit shifted out is set.
pub open spec fn crc_step(reg: u32, bit: u32) -> u32 {
    let shifted = ((reg << 1u32) & 0x3FFu32) | bit;
    if (reg >> 9u32) & 1u32 == 1u32 {
        shifted ^ POLY_LOWER
    } else {
        shifted
    }
}

/// Bit `i` of `word` (0 is the least significant bit).
pub open spec fn bit_of(word: u32, i: u32) -> u32 {
    (word >> i) & 1u32
}

/// Remainder, modulo G(x), of the polynomial formed by the `n` most
/// significant bits of a 26-bit word (Horner's rule, most significant bit first).
pub open spec fn remainder_prefix(word: u32, n: nat) -> u32
    decreases n,
{
    if n == 0 {
        0
    } else {
        crc_step(remainder_prefix(word, (n - 1) as nat), bit_of(word, (26 - n) as u32))
    }
}

/// The CRC-10 syndrome of a 26-bit codeword: its remainder modulo G(x).
pub open spec fn syndrome_spec(word: u32) -> u32 {
    remainder_prefix(word, 26)
}

/// Compute the CRC-10 syndrome of a 26-bit RDS codeword [data(16) | checkword(10)].
/// A valid block's syndrome equals its offset word.
pub fn syndrome(word: u32) -> (reg: u32)
    ensures
        reg == syndrome_spec(word),
        reg < 1024,
{
    let mut reg: u32 = 0;
    let mut n: u32 = 0;
    while n < 26
        invariant
            n <= 26,
            reg == remainder_prefix(word, n as nat),
            reg < 1024,
        decreases 26 - n,
    {
        let i: u32 = 25 - n;
        let bit = (word >> i) & 1;
        let msb = (reg >> 9) & 1;
        let next = ((reg << 1) & 0x3FF) | bit;
        let next = if msb != 0 { next ^ POLY_LOWER } else { next };
        assert(next < 1024) by (bit_vector)
            requires
                reg < 1024,
                bit == (word >> i) & 1u32,
                msb == (reg >> 9u32) & 1u32,
                next == (if msb != 0 { (((reg << 1u32) & 0x3FFu32) | bit) ^ 0x1B9u32 } else { ((reg << 1u32) & 0x3FFu32) | bit }),
        ;
        assert(msb != 0 <==> (reg >> 9u32) & 1u32 == 1u32) by (bit_vector)
            requires msb == (reg >> 9u32) & 1u32;
        reg = next;
        n = n + 1;
    }
    reg
}


proof fn lemma_crc_step_bounded(reg: u32, bit: u32)
    requires
        reg < 1024,
        bit <= 1,
    ensures
        crc_step(reg, bit) < 1024,
{
    assert((if (reg >> 9u32) & 1u32 == 1u32 { (((reg << 1u32) & 0x3FFu32) | bit) ^ 0x1B9u32 } else {
        ((reg << 1u32) & 0x3FFu32) | bit }) < 1024) by (bit_vector)
        requires reg < 1024, bit <= 1;
}

proof fn lemma_bit_of_bounded(word: u32, i: u32)
    ensures
        bit_of(word, i) <= 1,
{
    assert((word >> i) & 1u32 <= 1) by (bit_vector);
}

proof fn lemma_remainder_prefix_bounded(word: u32, n: nat)
    ensures
        remainder_prefix(word, n) < 1024,
    decreases n,
{
    if n > 0 {
        lemma_remainder_prefix_bounded(word, (n - 1) as nat);
        lemma_bit_of_bounded(word, (26 - n) as u32);
        lemma_crc_step_bounded(remainder_prefix(word, (n - 1) as nat), bit_of(word, (26 - n) as u32));
    }
}

proof fn lemma_crc_step_xor(r1: u32, r2: u32, b1: u32, b2: u32)
    requires
        r1 < 1024,
        r2 < 1024,
        b1 <= 1,
        b2 <= 1,
    ensures
        crc_step(r1 ^ r2, b1 ^ b2) == crc_step(r1, b1) ^ crc_step(r2, b2),
{
    assert((if ((r1 ^ r2) >> 9u32) & 1u32 == 1u32 { ((((r1 ^ r2) << 1u32) & 0x3FFu32) | (b1 ^ b2)) ^ 0x1B9u32 } else {
        (((r1 ^ r2) << 1u32) & 0x3FFu32) | (b1 ^ b2) })
        == (if (r1 >> 9u32) & 1u32 == 1u32 { (((r1 << 1u32) & 0x3FFu32) | b1) ^ 0x1B9u32 } else {
        ((r1 << 1u32) & 0x3FFu32) | b1 })
        ^ (if (r2 >> 9u32) & 1u32 == 1u32 { (((r2 << 1u32) & 0x3FFu32) | b2) ^ 0x1B9u32 } else {
        ((r2 << 1u32) & 0x3FFu32) | b2 })) by (bit_vector)
        requires r1 < 1024, r2 < 1024, b1 <= 1, b2 <= 1;
}

proof fn lemma_remainder_prefix_xor(w1: u32, w2: u32, n: nat)
    requires
        n <= 26,
    ensures
        remainder_prefix(w1 ^ w2, n) == remainder_prefix(w1, n) ^ remainder_prefix(w2, n),
    decreases n,
{
    if n > 0 {
        let s = (26 - n) as u32;
        lemma_remainder_prefix_xor(w1, w2, (n - 1) as nat);
        lemma_remainder_prefix_bounded(w1, (n - 1) as nat);
        lemma_remainder_prefix_bounded(w2, (n - 1) as nat);
        lemma_bit_of_bounded(w1, s);
        lemma_bit_of_bounded(w2, s);
        assert(bit_of(w1 ^ w2, s) == bit_of(w1, s) ^ bit_of(w2, s)) by {
            assert(((w1 ^ w2) >> s) & 1u32 == ((w1 >> s) & 1u32) ^ ((w2 >> s) & 1u32)) by (bit_vector);
        }
        lemma_crc_step_xor(
            remainder_prefix(w1, (n - 1) as nat),
            remainder_prefix(w2, (n - 1) as nat),
            bit_of(w1, s),
            bit_of(w2, s),
        );
    } else {
        assert(0u32 ^ 0u32 == 0u32) by (bit_vector);
    }
}

/// Linearity of the syndrome: the syndrome of the XOR of two words is the XOR
/// of their syndromes.
pub proof fn lemma_syndrome_xor(w1: u32, w2: u32)
    ensures
        syndrome_spec(w1 ^ w2) == syndrome_spec(w1) ^ syndrome_spec(w2),
{
    lemma_remainder_prefix_xor(w1, w2, 26);
}

proof fn lemma_remainder_prefix_small(x: u32, n: nat)
    requires
        x < 1024,
        n <= 26,
    ensures
        n <= 16 ==> remainder_prefix(x, n) == 0,
        n > 16 ==> remainder_prefix(x, n) == x >> ((26 - n) as u32),
    decreases n,
{
    if n > 0 {
        lemma_remainder_prefix_small(x, (n - 1) as nat);
        let s = (26 - n) as u32;
        if n <= 16 {
            assert(((x >> s) & 1u32) == 0) by (bit_vector)
                requires x < 1024, s >= 10u32, s < 32u32;
            assert(crc_step(0, 0) == 0) by (bit_vector);
        } else if n == 17 {
            assert(crc_step(0, (x >> 9u32) & 1u32) == x >> 9u32) by (bit_vector)
                requires x < 1024;
        } else {
            assert(crc_step(x >> ((s + 1) as u32), (x >> s) & 1u32) == x >> s) by (bit_vector)
                requires x < 1024, s < 9u32;
        }
    }
}

/// A word below 2^10 (a bare checkword) is its own syndrome.
pub proof fn lemma_syndrome_small(x: u32)
    requires
        x < 1024,
    ensures
        syndrome_spec(x) == x,
{
    lemma_remainder_prefix_small(x, 26);
    assert(x >> 0u32 == x) by (bit_vector);
}

proof fn lemma_remainder_prefix_top_bits(x: u32, n: nat)
    requires
        x < 0x400_0000,
        n <= 26,
        x >> ((26 - n) as u32) < 1024,
    ensures
        remainder_prefix(x, n) == x >> ((26 - n) as u32),
    decreases n,
{
    let k = (26 - n) as u32;
    if n == 0 {
        assert(x >> 26u32 == 0) by (bit_vector)
            requires x < 0x400_0000u32;
    } else {
        assert(x >> ((k + 1) as u32) < 1024) by (bit_vector)
            requires x >> k < 1024, k < 26;
        lemma_remainder_prefix_top_bits(x, (n - 1) as nat);
        assert(crc_step(x >> ((k + 1) as u32), (x >> k) & 1u32) == x >> k) by (bit_vector)
            requires x >> k < 1024, k < 26;
    }
}

proof fn lemma_remainder_prefix_low_zeros(x: u32, s: u32, n: nat)
    requires
        s <= 16,
        26 - s <= n <= 26,
        remainder_prefix(x, (26 - s) as nat) != 0,
        remainder_prefix(x, (26 - s) as nat) < 1024,
        forall|k: u32| k < s ==> #[trigger] bit_of(x, k) == 0,
    ensures
        remainder_prefix(x, n) != 0,
        remainder_prefix(x, n) < 1024,
    decreases n,
{
    if n > 26 - s {
        lemma_remainder_prefix_low_zeros(x, s, (n - 1) as nat);
        let r = remainder_prefix(x, (n - 1) as nat);
        let k = (26 - n) as u32;
        assert(bit_of(x, k) == 0);
        assert(crc_step(r, 0) != 0 && crc_step(r, 0) < 1024) by (bit_vector)
            requires r != 0, r < 1024;
    }
}

/// Burst errors are detected: flipping a run of at most 10 adjacent bits of a
/// 26-bit block (a nonzero pattern `e` of 10 bits at position `s`) always
/// changes its syndrome, so a valid block hit by such a burst never passes the
/// check that the intact block passes.
pub proof fn lemma_burst_error_changes_syndrome(word: u32, e: u32, s: u32)
    requires
        0 < e < 0x400,
        s + 10 <= 26,
    ensures
        syndrome_spec(word ^ (e << s)) != syndrome_spec(word),
{
    let x = e << s;
    assert(x < 0x400_0000 && x >> s == e) by (bit_vector)
        requires 0 < e < 0x400u32, s <= 16u32, x == e << s;
    lemma_remainder_prefix_top_bits(x, (26 - s) as nat);
    assert forall|k: u32| k < s implies #[trigger] bit_of(x, k) == 0 by {
        assert((x >> k) & 1u32 == 0) by (bit_vector)
            requires x == e << s, k < s, s <= 16u32;
    }
    lemma_remainder_prefix_low_zeros(x, s, 26);
    lemma_syndrome_xor(word, x);
    let a = syndrome_spec(word);
    let b = syndrome_spec(x);
    assert(a ^ b != a) by (bit_vector)
        requires b != 0;
}

/// The CRC-10 checkword of 16 data bits: the remainder of data(x)·x^10 modulo G(x).
pub open spec fn checkword(data: u16) -> u32 {
    syndrome_spec((data as u32) << 10u32)
}

/// A block as transmitted: 16 data bits followed by their checkword XORed with
/// the block's offset word.
pub open spec fn encode_block(data: u16, offset: u32) -> u32 {
    ((data as u32) << 10u32) | (checkword(data) ^ offset)
}

/// The syndrome of a valid received block equals its offset word: for any 16
/// data bits and any 10-bit offset word, the block built from them has that
/// offset word as its syndrome.
pub proof fn lemma_valid_block_syndrome(data: u16, offset: u32)
    requires
        offset < 1024,
    ensures
        syndrome_spec(encode_block(data, offset)) == offset,
{
    let hi = (data as u32) << 10u32;
    let c = checkword(data);
    lemma_remainder_prefix_bounded(hi, 26);
    assert(c ^ offset < 1024) by (bit_vector)
        requires c < 1024, offset < 1024;
    let low = c ^ offset;
    assert(hi | low == hi ^ low) by (bit_vector)
        requires hi == (data as u32) << 10u32, low < 1024;
    lemma_syndrome_xor(hi, low);
    lemma_syndrome_small(low);
    assert(c ^ (c ^ offset) == offset) by (bit_vector);
}


proof fn lemma_block_data_of_encoded(data: u16, offset: u32)
    requires
        offset < 1024,
    ensures
        block_data(encode_block(data, offset)) == data,
        encode_block(data, offset) < 0x400_0000,
{
    let c = checkword(data);
    lemma_remainder_prefix_bounded((data as u32) << 10u32, 26);
    assert(((((((data as u32) << 10u32) | (c ^ offset)) >> 10u32) & 0xFFFFu32) as u16) == data
        && (((data as u32) << 10u32) | (c ^ offset)) < 0x400_0000) by (bit_vector)
        requires c < 1024, offset < 1024;
}

// ── Group decoding model ───────────────────────────────────────────────────────

/// The abstract state of an [`RdsDecoder`].
pub struct RdsView {
    pub prev_bit: u8,
    pub shift_reg: u64,
    pub bits_since_sync: usize,
    pub block_idx: usize,
    pub group_blocks: Seq<u16>,
    pub block_ok: Seq<bool>,
    pub synced: bool,
    pub sync_errors: u8,
    pub pi: u16,
    pub ps: Seq<u8>,
    pub rt: Seq<u8>,
    pub rt_ab: bool,
    pub pty: u8,
    pub tp: bool,
    pub ta: bool,
    pub ms: bool,
    pub ps_ready: bool,
    pub rt_ready: bool,
}

/// A character the decoder stores as is: printable ASCII.
pub open spec fn is_printable(c: u8) -> bool {
    0x20 <= c && c < 0x7F
}

/// A received RadioText character: kept when printable, a space otherwise.
pub open spec fn printable_or_space(c: u8) -> u8 {
    if is_printable(c) {
        c
    } else {
        0x20
    }
}

/// The last 26 bits of the shift register.
pub open spec fn word26(shift_reg: u64) -> u32 {
    (shift_reg & 0x3FF_FFFFu64) as u32
}

/// The 16 data bits of a 26-bit block.
pub open spec fn block_data(word: u32) -> u16 {
    ((word >> 10u32) & 0xFFFFu32) as u16
}

/// Which block of a group a syndrome identifies, if any.
pub open spec fn block_for_syndrome(syn: u32) -> Option<usize> {
    if syn == OFFSET_A {
        Some(0)
    } else if syn == OFFSET_B {
        Some(1)
    } else if syn == OFFSET_C || syn == OFFSET_CP {
        Some(2)
    } else if syn == OFFSET_D {
        Some(3)
    } else {
        None
    }
}

/// The offset word expected at block position `idx` of a group.
pub open spec fn expected_offset(idx: usize) -> u32 {
    if idx == 0 {
        OFFSET_A
    } else if idx == 1 {
        OFFSET_B
    } else if idx == 2 {
        OFFSET_C
    } else {
        OFFSET_D
    }
}

/// Whether a block whose syndrome is `syn` is accepted at position `idx`.
pub open spec fn block_accepted(idx: usize, syn: u32) -> bool {
    syn == expected_offset(idx) || (idx == 2 && syn == OFFSET_CP)
}

pub open spec fn group_type(b1: u16) -> u16 {
    (b1 >> 12u16) & 0xFu16
}

pub open spec fn group_version(b1: u16) -> u16 {
    (b1 >> 11u16) & 1u16
}

/// Whether some PS character is a visible (non-space) character.
pub open spec fn has_visible(ps: Seq<u8>) -> bool {
    exists|i: int| 0 <= i < ps.len() && ps[i] > 0x20
}

/// The two characters carried by one 16-bit data word.
pub open spec fn high_char(w: u16) -> u8 {
    (w >> 8u16) as u8
}

pub open spec fn low_char(w: u16) -> u8 {
    (w & 0xFFu16) as u8
}

/// Group 0A/0B: two Programme Service characters at segment `b1 & 3`.
pub open spec fn parse_group_0a_spec(s: RdsView, b1: u16) -> RdsView {
    if !s.block_ok[3] {
        s
    } else {
        let seg = (b1 & 0x3u16) as int;
        let d = s.group_blocks[3];
        let c0 = high_char(d);
        let c1 = low_char(d);
        let ps1 = if is_printable(c0) { s.ps.update(seg * 2, c0) } else { s.ps };
        let ps2 = if is_printable(c1) { ps1.update(seg * 2 + 1, c1) } else { ps1 };
        RdsView {
            ta: (b1 >> 4u16) & 1u16 != 0,
            ms: (b1 >> 3u16) & 1u16 != 0,
            ps: ps2,
            ps_ready: has_visible(ps2),
            ..s
        }
    }
}

/// The RadioText buffer and ready flag after seeing A/B flag `ab`: a flip of
/// the flag clears the text.
pub open spec fn rt_after_ab(s: RdsView, ab: bool) -> RdsView {
    if ab != s.rt_ab {
        RdsView { rt: Seq::new(64, |i: int| 0x20u8), rt_ab: ab, rt_ready: false, ..s }
    } else {
        s
    }
}

/// The four RadioText characters of a group 2A, in order.
pub open spec fn chars_2a(s: RdsView) -> Seq<u8> {
    seq![
        high_char(s.group_blocks[2]),
        low_char(s.group_blocks[2]),
        high_char(s.group_blocks[3]),
        low_char(s.group_blocks[3]),
    ]
}

/// Writes `cs[j..]` at `base + j` until a carriage return, which marks the end of the text.
pub open spec fn write_rt(s: RdsView, base: int, cs: Seq<u8>, j: nat) -> RdsView
    decreases cs.len() - j,
{
    if j >= cs.len() {
        s
    } else if cs[j as int] == 0x0D {
        RdsView { rt_ready: true, ..s }
    } else {
        write_rt(
            RdsView { rt: s.rt.update(base + j, printable_or_space(cs[j as int])), ..s },
            base,
            cs,
            j + 1,
        )
    }
}

/// Group 2A: four RadioText characters at segment `b1 & 0xF`.
pub open spec fn parse_group_2a_spec(s: RdsView, b1: u16) -> RdsView {
    if !s.block_ok[2] || !s.block_ok[3] {
        s
    } else {
        let s1 = rt_after_ab(s, (b1 >> 4u16) & 1u16 != 0);
        write_rt(s1, ((b1 & 0xFu16) as int) * 4, chars_2a(s), 0)
    }
}

/// Group 2B: two RadioText characters at segment `b1 & 0xF`.
pub open spec fn parse_group_2b_spec(s: RdsView, b1: u16) -> RdsView {
    if !s.block_ok[3] {
        s
    } else {
        let s1 = rt_after_ab(s, (b1 >> 4u16) & 1u16 != 0);
        let off = ((b1 & 0xFu16) as int) * 2;
        let d = s.group_blocks[3];
        RdsView {
            rt: s1.rt.update(off, printable_or_space(high_char(d))).update(
                off + 1,
                printable_or_space(low_char(d)),
            ),
            ..s1
        }
    }
}

/// Decoding of a complete group: blocks 0 and 1 must be error-free; they give
/// PI, TP and PTY, and the group type selects PS or RadioText decoding.
pub open spec fn parse_group_spec(s: RdsView) -> RdsView {
    if !s.block_ok[0] || !s.block_ok[1] {
        s
    } else {
        let b1 = s.group_blocks[1];
        let s1 = RdsView {
            pi: s.group_blocks[0],
            tp: (b1 >> 10u16) & 1u16 != 0,
            pty: ((b1 >> 5u16) & 0x1Fu16) as u8,
            ..s
        };
        if group_type(b1) == 0 {
            parse_group_0a_spec(s1, b1)
        } else if group_type(b1) == 2 && group_version(b1) == 0 {
            parse_group_2a_spec(s1, b1)
        } else if group_type(b1) == 2 && group_version(b1) == 1 {
            parse_group_2b_spec(s1, b1)
        } else {
            s1
        }
    }
}

/// Unsynchronised: a valid block of any position in the last 26 bits
/// establishes sync and is stored at its position.
pub open spec fn acquire_spec(s: RdsView) -> RdsView {
    let word = word26(s.shift_reg);
    match block_for_syndrome(syndrome_spec(word)) {
        Some(k) => RdsView {
            synced: true,
            bits_since_sync: 0,
            block_idx: ((k + 1) % 4) as usize,
            group_blocks: s.group_blocks.update(k as int, block_data(word)),
            block_ok: s.block_ok.update(k as int, true),
            ..s
        },
        None => s,
    }
}

/// Synchronised, a block rejected at its position: the first bad block is
/// marked invalid and skipped; a second one in a row drops sync.
pub open spec fn reject_block_spec(s: RdsView) -> RdsView {
    if s.sync_errors + 1 >= 2 {
        RdsView {
            bits_since_sync: 0,
            synced: false,
            block_idx: 0,
            block_ok: Seq::new(4, |i: int| false),
            sync_errors: 0,
            ..s
        }
    } else {
        RdsView {
            bits_since_sync: 0,
            sync_errors: (s.sync_errors + 1) as u8,
            block_ok: s.block_ok.update(s.block_idx as int, false),
            block_idx: ((s.block_idx + 1) % 4) as usize,
            ..s
        }
    }
}

/// Synchronised, a block accepted at its position: it is stored, and the
/// fourth block of a group completes the group, which is then decoded.
pub open spec fn accept_block_spec(s: RdsView) -> RdsView {
    let s2 = RdsView {
        bits_since_sync: 0,
        sync_errors: 0,
        group_blocks: s.group_blocks.update(s.block_idx as int, block_data(word26(s.shift_reg))),
        block_ok: s.block_ok.update(s.block_idx as int, true),
        block_idx: (s.block_idx + 1) as usize,
        ..s
    };
    if s.block_idx + 1 == 4 {
        let s3 = parse_group_spec(RdsView { block_idx: 0, ..s2 });
        RdsView { block_ok: Seq::new(4, |i: int| false), ..s3 }
    } else {
        s2
    }
}

/// Effect of one decoded data bit on the block framer.
pub open spec fn push_bit_spec(s: RdsView, bit: u8) -> RdsView {
    let s1 = RdsView { shift_reg: (s.shift_reg << 1u64) | ((bit as u64) & 1u64), ..s };
    if !s.synced {
        acquire_spec(s1)
    } else if s.bits_since_sync + 1 < 26 {
        RdsView { bits_since_sync: (s.bits_since_sync + 1) as usize, ..s1 }
    } else if !block_accepted(s.block_idx, syndrome_spec(word26(s1.shift_reg))) {
        reject_block_spec(s1)
    } else {
        accept_block_spec(s1)
    }
}

/// The state's invariant: framing counters in range and stored text printable.
pub open spec fn view_wf(s: RdsView) -> bool {
    &&& s.prev_bit <= 1
    &&& s.bits_since_sync < 26
    &&& s.block_idx < 4
    &&& s.sync_errors < 2
    &&& s.group_blocks.len() == 4
    &&& s.block_ok.len() == 4
    &&& s.ps.len() == 8
    &&& s.rt.len() == 64
    &&& forall|i: int| 0 <= i < 8 ==> is_printable(#[trigger] s.ps[i])
    &&& forall|i: int| 0 <= i < 64 ==> is_printable(#[trigger] s.rt[i])
    &&& s.ps_ready == has_visible(s.ps)
}


proof fn lemma_write_rt_unfold(s: RdsView, base: int, cs: Seq<u8>, j: nat)
    requires
        j < cs.len(),
    ensures
        write_rt(s, base, cs, j) == (if cs[j as int] == 0x0D {
            RdsView { rt_ready: true, ..s }
        } else {
            write_rt(
                RdsView { rt: s.rt.update(base + j, printable_or_space(cs[j as int])), ..s },
                base,
                cs,
                j + 1,
            )
        }),
{
}

/// The hard decision of one baseband level as a bit.
pub open spec fn level_bit(high: bool) -> u8 {
    if high {
        1
    } else {
        0
    }
}

/// ASCII whitespace, the characters `str::trim_end` removes from ASCII text.
pub open spec fn is_ascii_whitespace(b: u8) -> bool {
    b == 0x20 || (0x09 <= b && b <= 0x0D)
}

/// `s` without its trailing ASCII whitespace.
pub open spec fn trim_end_whitespace(s: Seq<u8>) -> Seq<u8>
    decreases s.len(),
{
    if s.len() > 0 && is_ascii_whitespace(s.last()) {
        trim_end_whitespace(s.drop_last())
    } else {
        s
    }
}

/// `s` without its trailing spaces and control characters.
pub open spec fn trim_end_blank(s: Seq<u8>) -> Seq<u8>
    decreases s.len(),
{
    if s.len() > 0 && s.last() <= 0x20 {
        trim_end_blank(s.drop_last())
    } else {
        s
    }
}

/// The characters whose codes are the given ASCII bytes.
pub open spec fn ascii_chars(bytes: Seq<u8>) -> Seq<char> {
    bytes.map_values(|b: u8| b as char)
}

/// Calls `String::from_utf8_lossy`, which decodes the bytes as UTF-8. The
/// contract claims only what std documents for valid input: bytes that are all
/// ASCII decode one-to-one to the characters with the same codes. What it
/// returns for other bytes (replacement characters) is left unsaid.
#[verifier::external_body]
fn string_from_utf8_lossy(bytes: &[u8]) -> (s: String)
    ensures
        (forall|i: int| 0 <= i < bytes@.len() ==> bytes@[i] < 0x80) ==> s@ == ascii_chars(bytes@),
{
    String::from_utf8_lossy(bytes).into_owned()
}

/// The first `len` bytes of `bytes`.
fn prefix_vec(bytes: &[u8], len: usize) -> (v: Vec<u8>)
    requires
        len <= bytes@.len(),
    ensures
        v@ == bytes@.subrange(0, len as int),
{
    let mut v: Vec<u8> = Vec::new();
    let mut i: usize = 0;
    while i < len
        invariant
            i <= len,
            len <= bytes@.len(),
            v@ == bytes@.subrange(0, i as int),
        decreases len - i,
    {
        v.push(bytes[i]);
        i = i + 1;
        assert(v@ =~= bytes@.subrange(0, i as int));
    }
    v
}

/// The position in a group of the block that carries a given offset word.
pub open spec fn offset_position(offset: u32) -> int {
    if offset == OFFSET_A {
        0
    } else if offset == OFFSET_B {
        1
    } else if offset == OFFSET_C || offset == OFFSET_CP {
        2
    } else {
        3
    }
}

pub open spec fn is_offset_word(offset: u32) -> bool {
    offset == OFFSET_A || offset == OFFSET_B || offset == OFFSET_C || offset == OFFSET_CP
        || offset == OFFSET_D
}

/// Block synchronisation: while unsynchronised, the bit that completes a valid
/// block (any of the five offset words) synchronises the decoder, stores the
/// block's data at its position in the group and expects the next position.
pub proof fn lemma_sync_on_valid_block(s: RdsView, bit: u8, data: u16, offset: u32)
    requires
        view_wf(s),
        !s.synced,
        is_offset_word(offset),
        word26((s.shift_reg << 1u64) | ((bit as u64) & 1u64)) == encode_block(data, offset),
    ensures
        push_bit_spec(s, bit).synced,
        push_bit_spec(s, bit).group_blocks[offset_position(offset)] == data,
        push_bit_spec(s, bit).block_ok[offset_position(offset)],
        push_bit_spec(s, bit).block_idx == (offset_position(offset) + 1) % 4,
        push_bit_spec(s, bit).bits_since_sync == 0,
{
    lemma_valid_block_syndrome(data, offset);
    lemma_block_data_of_encoded(data, offset);
}

/// Block checking: synchronised, the bit that completes a valid block carrying
/// the offset word expected at the current position stores its data there and
/// clears the error count; when it is not the last block of a group, framing
/// moves on to the next position.
pub proof fn lemma_accept_expected_block(s: RdsView, bit: u8, data: u16)
    requires
        view_wf(s),
        s.synced,
        s.bits_since_sync == 25,
        s.block_idx < 3,
        word26((s.shift_reg << 1u64) | ((bit as u64) & 1u64)) == encode_block(
            data,
            expected_offset(s.block_idx),
        ),
    ensures
        push_bit_spec(s, bit).synced,
        push_bit_spec(s, bit).group_blocks[s.block_idx as int] == data,
        push_bit_spec(s, bit).block_ok[s.block_idx as int],
        push_bit_spec(s, bit).block_idx == s.block_idx + 1,
        push_bit_spec(s, bit).sync_errors == 0,
        push_bit_spec(s, bit).bits_since_sync == 0,
{
    lemma_valid_block_syndrome(data, expected_offset(s.block_idx));
    lemma_block_data_of_encoded(data, expected_offset(s.block_idx));
}

/// Loss of sync: synchronised after one bad block, a second block in a row
/// whose syndrome is not accepted at its position drops synchronisation and
/// forgets the partial group.
pub proof fn lemma_second_bad_block_drops_sync(s: RdsView, bit: u8)
    requires
        view_wf(s),
        s.synced,
        s.bits_since_sync == 25,
        s.sync_errors == 1,
        !block_accepted(
            s.block_idx,
            syndrome_spec(word26((s.shift_reg << 1u64) | ((bit as u64) & 1u64))),
        ),
    ensures
        !push_bit_spec(s, bit).synced,
        push_bit_spec(s, bit).block_idx == 0,
        push_bit_spec(s, bit).block_ok == Seq::new(4, |i: int| false),
        push_bit_spec(s, bit).sync_errors == 0,
{
}

// ── Whole blocks and groups ────────────────────────────────────────────────────

/// The state after pushing data bits one by one, first to last.
pub open spec fn push_bits(s: RdsView, bits: Seq<u8>) -> RdsView
    decreases bits.len(),
{
    if bits.len() == 0 {
        s
    } else {
        push_bit_spec(push_bits(s, bits.drop_last()), bits.last())
    }
}

/// The shift register after shifting in data bits, first to last.
pub open spec fn shift_in(r: u64, bits: Seq<u8>) -> u64
    decreases bits.len(),
{
    if bits.len() == 0 {
        r
    } else {
        (shift_in(r, bits.drop_last()) << 1u64) | ((bits.last() as u64) & 1u64)
    }
}

/// The 26 bits of a block as transmitted, most significant first.
pub open spec fn block_bits(w: u32) -> Seq<u8> {
    Seq::new(26, |i: int| ((w >> ((25 - i) as u32)) & 1u32) as u8)
}

/// The state after a whole block `w` arrives while synchronised at a block
/// boundary: it is accepted or rejected at the expected position.
pub open spec fn block_result(s: RdsView, w: u32) -> RdsView {
    let s1 = RdsView { shift_reg: shift_in(s.shift_reg, block_bits(w)), bits_since_sync: 25, ..s };
    if block_accepted(s.block_idx, syndrome_spec(w)) {
        accept_block_spec(s1)
    } else {
        reject_block_spec(s1)
    }
}

proof fn lemma_push_bits_append(s: RdsView, a: Seq<u8>, b: Seq<u8>)
    ensures
        push_bits(s, a + b) == push_bits(push_bits(s, a), b),
    decreases b.len(),
{
    if b.len() == 0 {
        assert(a + b =~= a);
    } else {
        assert((a + b).drop_last() =~= a + b.drop_last());
        assert((a + b).last() == b.last());
        lemma_push_bits_append(s, a, b.drop_last());
    }
}

proof fn lemma_write_rt_keeps_framing(s: RdsView, base: int, cs: Seq<u8>, j: nat)
    ensures
        write_rt(s, base, cs, j) == (RdsView {
            rt: write_rt(s, base, cs, j).rt,
            rt_ready: write_rt(s, base, cs, j).rt_ready,
            ..s
        }),
    decreases cs.len() - j,
{
    if j < cs.len() && cs[j as int] != 0x0D {
        lemma_write_rt_keeps_framing(
            RdsView { rt: s.rt.update(base + j, printable_or_space(cs[j as int])), ..s },
            base,
            cs,
            j + 1,
        );
    }
}

/// Group decoding touches only the decoded programme data.
proof fn lemma_parse_group_keeps_framing(s: RdsView)
    ensures
        parse_group_spec(s).shift_reg == s.shift_reg,
        parse_group_spec(s).synced == s.synced,
        parse_group_spec(s).bits_since_sync == s.bits_since_sync,
        parse_group_spec(s).block_idx == s.block_idx,
        parse_group_spec(s).group_blocks == s.group_blocks,
        parse_group_spec(s).block_ok == s.block_ok,
        parse_group_spec(s).sync_errors == s.sync_errors,
        parse_group_spec(s).prev_bit == s.prev_bit,
{
    if s.block_ok[0] && s.block_ok[1] {
        let b1 = s.group_blocks[1];
        let s1 = RdsView {
            pi: s.group_blocks[0],
            tp: (b1 >> 10u16) & 1u16 != 0,
            pty: ((b1 >> 5u16) & 0x1Fu16) as u8,
            ..s
        };
        if group_type(b1) == 2 && group_version(b1) == 0 && s1.block_ok[2] && s1.block_ok[3] {
            let s2 = rt_after_ab(s1, (b1 >> 4u16) & 1u16 != 0);
            lemma_write_rt_keeps_framing(s2, ((b1 & 0xFu16) as int) * 4, chars_2a(s1), 0);
        }
    }
}

proof fn lemma_push_bit_shift(s: RdsView, bit: u8)
    ensures
        push_bit_spec(s, bit).shift_reg == (s.shift_reg << 1u64) | ((bit as u64) & 1u64),
{
    let s1 = RdsView { shift_reg: (s.shift_reg << 1u64) | ((bit as u64) & 1u64), ..s };
    if s.synced && s.bits_since_sync + 1 >= 26 && block_accepted(
        s.block_idx,
        syndrome_spec(word26(s1.shift_reg)),
    ) && s.block_idx + 1 == 4 {
        let s2 = RdsView {
            bits_since_sync: 0,
            sync_errors: 0,
            group_blocks: s1.group_blocks.update(s1.block_idx as int, block_data(word26(s1.shift_reg))),
            block_ok: s1.block_ok.update(s1.block_idx as int, true),
            block_idx: 0,
            ..s1
        };
        lemma_parse_group_keeps_framing(s2);
    }
}

/// Within a block, bits only move through the shift register.
proof fn lemma_push_bits_within_block(s: RdsView, bits: Seq<u8>)
    requires
        s.synced,
        s.bits_since_sync == 0,
        bits.len() <= 25,
    ensures
        push_bits(s, bits) == (RdsView {
            shift_reg: shift_in(s.shift_reg, bits),
            bits_since_sync: bits.len() as usize,
            ..s
        }),
    decreases bits.len(),
{
    if bits.len() > 0 {
        lemma_push_bits_within_block(s, bits.drop_last());
    }
}

proof fn lemma_shift_in_block(r: u64, w: u32, k: nat)
    requires
        w < 0x400_0000,
        k <= 26,
    ensures
        shift_in(r, block_bits(w).take(k as int)) & (((1u64 << (k as u64)) - 1u64) as u64) == (w >> ((26 - k) as u32))
            as u64,
    decreases k,
{
    let kk = k as u64;
    if k == 0 {
        assert(block_bits(w).take(0) =~= Seq::<u8>::empty());
        assert(r & (((1u64 << 0u64) - 1u64) as u64) == 0u64 && (w >> 26u32) as u64 == 0u64) by (bit_vector)
            requires w < 0x400_0000u32;
    } else {
        let prev = block_bits(w).take(k - 1);
        assert(block_bits(w).take(k as int).drop_last() =~= prev);
        lemma_shift_in_block(r, w, (k - 1) as nat);
        let y = shift_in(r, prev);
        let bit = block_bits(w).take(k as int).last();
        let sh = (26 - k) as u32;
        assert(bit == ((w >> sh) & 1u32) as u8);
        let j = (k - 1) as u64;
        assert(((bit as u64) & 1u64) == ((w >> sh) & 1u32) as u64) by (bit_vector)
            requires bit == ((w >> sh) & 1u32) as u8;
        assert(((y << 1u64) | (((w >> sh) & 1u32) as u64)) & (((1u64 << ((j + 1) as u64)) - 1u64) as u64) == (w >> sh) as u64)
            by (bit_vector)
            requires
                y & (((1u64 << j) - 1u64) as u64) == (w >> ((sh + 1) as u32)) as u64,
                w < 0x400_0000u32,
                j < 26u64,
                sh == 25u32 - (j as u32),
        ;
    }
}

/// A whole block arriving at a block boundary while synchronised is accepted
/// or rejected as a unit.
proof fn lemma_push_block(s: RdsView, w: u32)
    requires
        s.synced,
        s.bits_since_sync == 0,
        w < 0x400_0000,
    ensures
        push_bits(s, block_bits(w)) == block_result(s, w),
        word26(shift_in(s.shift_reg, block_bits(w))) == w,
{
    let bb = block_bits(w);
    let head = bb.take(25);
    assert(bb.drop_last() =~= head);
    lemma_push_bits_within_block(s, head);
    let s25 = push_bits(s, head);
    lemma_push_bit_shift(s25, bb.last());
    assert(bb.take(26) =~= bb);
    lemma_shift_in_block(s.shift_reg, w, 26);
    let r = shift_in(s.shift_reg, bb);
    assert(r & (((1u64 << 26u64) - 1u64) as u64) == r & 0x3FF_FFFFu64) by (bit_vector);
    assert((w >> 0u32) as u64 == w as u64) by (bit_vector);
    assert(word26(r) == w) by {
        assert(((r & 0x3FF_FFFFu64) as u32) == w) by (bit_vector)
            requires r & 0x3FF_FFFFu64 == w as u64;
    }
}

/// The Programme Service name after a group 0A/0B with segment `seg` carrying
/// the data word `d`: each printable character lands at its place.
pub open spec fn ps_after_0a(ps: Seq<u8>, seg: int, d: u16) -> Seq<u8> {
    let ps1 = if is_printable(high_char(d)) { ps.update(seg * 2, high_char(d)) } else { ps };
    if is_printable(low_char(d)) { ps1.update(seg * 2 + 1, low_char(d)) } else { ps1 }
}

/// A complete group 0A/0B is decoded: synchronised at a group boundary, once
/// the 104 bits of four valid blocks (offset words A, B, C or C', D) have
/// arrived, PI comes from block A; TP, PTY, TA and M/S from block B; the two
/// printable characters of block D are stored in the PS segment that block B
/// names; and the PS-ready flag tells whether PS shows a visible character.
pub proof fn lemma_group_0a_decoded(
    s: RdsView,
    d_a: u16,
    d_b: u16,
    d_c: u16,
    d_d: u16,
    c_offset: u32,
)
    requires
        view_wf(s),
        s.synced,
        s.bits_since_sync == 0,
        s.block_idx == 0,
        c_offset == OFFSET_C || c_offset == OFFSET_CP,
        group_type(d_b) == 0,
    ensures
        ({
            let t = push_bits(
                s,
                block_bits(encode_block(d_a, OFFSET_A)) + block_bits(encode_block(d_b, OFFSET_B))
                    + block_bits(encode_block(d_c, c_offset)) + block_bits(encode_block(d_d, OFFSET_D)),
            );
            &&& t.synced
            &&& t.block_idx == 0
            &&& t.bits_since_sync == 0
            &&& t.pi == d_a
            &&& t.tp == ((d_b >> 10u16) & 1u16 != 0)
            &&& t.pty == ((d_b >> 5u16) & 0x1Fu16) as u8
            &&& t.ta == ((d_b >> 4u16) & 1u16 != 0)
            &&& t.ms == ((d_b >> 3u16) & 1u16 != 0)
            &&& t.ps == ps_after_0a(s.ps, (d_b & 3u16) as int, d_d)
            &&& t.ps_ready == has_visible(t.ps)
            &&& t.rt == s.rt
        }),
{
    let wa = encode_block(d_a, OFFSET_A);
    let wb = encode_block(d_b, OFFSET_B);
    let wc = encode_block(d_c, c_offset);
    let wd = encode_block(d_d, OFFSET_D);
    lemma_valid_block_syndrome(d_a, OFFSET_A);
    lemma_valid_block_syndrome(d_b, OFFSET_B);
    lemma_valid_block_syndrome(d_c, c_offset);
    lemma_valid_block_syndrome(d_d, OFFSET_D);
    lemma_block_data_of_encoded(d_a, OFFSET_A);
    lemma_block_data_of_encoded(d_b, OFFSET_B);
    lemma_block_data_of_encoded(d_c, c_offset);
    lemma_block_data_of_encoded(d_d, OFFSET_D);
    let ba = block_bits(wa);
    let bb = block_bits(wb);
    let bc = block_bits(wc);
    let bd = block_bits(wd);
    lemma_push_bits_append(s, ba + bb + bc, bd);
    lemma_push_bits_append(s, ba + bb, bc);
    lemma_push_bits_append(s, ba, bb);
    lemma_push_block(s, wa);
    let s1 = block_result(s, wa);
    lemma_push_block(s1, wb);
    let s2 = block_result(s1, wb);
    lemma_push_block(s2, wc);
    let s3 = block_result(s2, wc);
    lemma_push_block(s3, wd);
    let s4 = block_result(s3, wd);
    assert(s3.block_idx == 3);
    assert(s3.block_ok[0] && s3.block_ok[1]);
    assert(s3.group_blocks[0] == d_a && s3.group_blocks[1] == d_b);
    let seg = (d_b & 3u16) as int;
    assert(0 <= seg < 4) by {
        assert(d_b & 3u16 < 4) by (bit_vector);
    }
}

/// The bits of a group of four valid blocks: data words A, B, C, D with their
/// offset words (C' in place of C where `c_offset` says so).
pub open spec fn valid_group_bits(d_a: u16, d_b: u16, d_c: u16, d_d: u16, c_offset: u32) -> Seq<u8> {
    block_bits(encode_block(d_a, OFFSET_A)) + block_bits(encode_block(d_b, OFFSET_B)) + block_bits(
        encode_block(d_c, c_offset),
    ) + block_bits(encode_block(d_d, OFFSET_D))
}

/// The state in which a group of four accepted blocks is handed to decoding.
pub open spec fn group_received(s: RdsView, shift_reg: u64, d_a: u16, d_b: u16, d_c: u16, d_d: u16) -> RdsView {
    RdsView {
        shift_reg,
        synced: true,
        bits_since_sync: 0,
        block_idx: 0,
        sync_errors: 0,
        group_blocks: seq![d_a, d_b, d_c, d_d],
        block_ok: seq![true, true, true, true],
        ..s
    }
}

proof fn lemma_valid_group(s: RdsView, d_a: u16, d_b: u16, d_c: u16, d_d: u16, c_offset: u32)
    requires
        view_wf(s),
        s.synced,
        s.bits_since_sync == 0,
        s.block_idx == 0,
        c_offset == OFFSET_C || c_offset == OFFSET_CP,
    ensures
        ({
            let t = push_bits(s, valid_group_bits(d_a, d_b, d_c, d_d, c_offset));
            t == (RdsView {
                block_ok: Seq::new(4, |i: int| false),
                ..parse_group_spec(group_received(s, t.shift_reg, d_a, d_b, d_c, d_d))
            })
        }),
{
    let wa = encode_block(d_a, OFFSET_A);
    let wb = encode_block(d_b, OFFSET_B);
    let wc = encode_block(d_c, c_offset);
    let wd = encode_block(d_d, OFFSET_D);
    lemma_valid_block_syndrome(d_a, OFFSET_A);
    lemma_valid_block_syndrome(d_b, OFFSET_B);
    lemma_valid_block_syndrome(d_c, c_offset);
    lemma_valid_block_syndrome(d_d, OFFSET_D);
    lemma_block_data_of_encoded(d_a, OFFSET_A);
    lemma_block_data_of_encoded(d_b, OFFSET_B);
    lemma_block_data_of_encoded(d_c, c_offset);
    lemma_block_data_of_encoded(d_d, OFFSET_D);
    let ba = block_bits(wa);
    let bb = block_bits(wb);
    let bc = block_bits(wc);
    let bd = block_bits(wd);
    lemma_push_bits_append(s, ba + bb + bc, bd);
    lemma_push_bits_append(s, ba + bb, bc);
    lemma_push_bits_append(s, ba, bb);
    lemma_push_block(s, wa);
    let s1 = block_result(s, wa);
    lemma_push_block(s1, wb);
    let s2 = block_result(s1, wb);
    lemma_push_block(s2, wc);
    let s3 = block_result(s2, wc);
    lemma_push_block(s3, wd);
    let r = shift_in(s3.shift_reg, bd);
    let g = RdsView {
        bits_since_sync: 0,
        sync_errors: 0,
        group_blocks: s3.group_blocks.update(3, d_d),
        block_ok: s3.block_ok.update(3, true),
        block_idx: 0,
        shift_reg: r,
        ..s3
    };
    assert(g.group_blocks =~= seq![d_a, d_b, d_c, d_d]);
    assert(g.block_ok =~= seq![true, true, true, true]);
    assert(g == group_received(s, r, d_a, d_b, d_c, d_d));
    lemma_parse_group_keeps_framing(g);
}

/// Every group with valid blocks A and B sets the station data of its header,
/// whatever its type: once a complete group of four valid blocks has arrived
/// at a group boundary, PI is block A's data word, and TP and PTY come from
/// bits 10 and 5..9 of block B.
pub proof fn lemma_group_header_decoded(s: RdsView, d_a: u16, d_b: u16, d_c: u16, d_d: u16, c_offset: u32)
    requires
        view_wf(s),
        s.synced,
        s.bits_since_sync == 0,
        s.block_idx == 0,
        c_offset == OFFSET_C || c_offset == OFFSET_CP,
    ensures
        ({
            let t = push_bits(s, valid_group_bits(d_a, d_b, d_c, d_d, c_offset));
            &&& t.pi == d_a
            &&& t.tp == ((d_b >> 10u16) & 1u16 == 1u16)
            &&& t.pty == ((d_b >> 5u16) & 0x1Fu16) as u8
        }),
{
    lemma_valid_group(s, d_a, d_b, d_c, d_d, c_offset);
    let t = push_bits(s, valid_group_bits(d_a, d_b, d_c, d_d, c_offset));
    let g = group_received(s, t.shift_reg, d_a, d_b, d_c, d_d);
    let s1 = RdsView { pi: d_a, tp: (d_b >> 10u16) & 1u16 != 0, pty: ((d_b >> 5u16) & 0x1Fu16) as u8, ..g };
    assert(((d_b >> 10u16) & 1u16 != 0) == ((d_b >> 10u16) & 1u16 == 1u16)) by (bit_vector);
    if group_type(d_b) == 2 && group_version(d_b) == 0 {
        let s2 = rt_after_ab(s1, (d_b >> 4u16) & 1u16 != 0);
        lemma_write_rt_keeps_framing(s2, ((d_b & 0xFu16) as int) * 4, chars_2a(s1), 0);
    }
}

/// How many of the four characters of a group 2A come before the first
/// carriage return (all four when there is none).
pub open spec fn chars_before_cr(cs: Seq<u8>) -> int {
    if cs[0] == 0x0D {
        0
    } else if cs[1] == 0x0D {
        1
    } else if cs[2] == 0x0D {
        2
    } else if cs[3] == 0x0D {
        3
    } else {
        4
    }
}

/// A group 2A places its four RadioText characters at the segment it
/// addresses, up to an end-of-text carriage return: once a complete group 2A
/// of four valid blocks has arrived at a group boundary, with seg the low four
/// bits of block B and `n` the number of its characters (two of block C, then
/// two of block D) before the first carriage return, RadioText positions
/// 4·seg .. 4·seg+n-1 hold those characters, each replaced by a space unless
/// printable; every other position keeps its character, unless the A/B flag
/// (bit 4 of block B) changed, which first clears the text to spaces; the flag
/// is stored; and the text is marked complete exactly when a carriage return
/// came, or it was complete before and the flag did not change.
pub proof fn lemma_group_2a_places_text(s: RdsView, d_a: u16, d_b: u16, d_c: u16, d_d: u16)
    requires
        view_wf(s),
        s.synced,
        s.bits_since_sync == 0,
        s.block_idx == 0,
        (d_b >> 12u16) == 2,
        (d_b >> 11u16) & 1u16 == 0,
    ensures
        ({
            let t = push_bits(s, valid_group_bits(d_a, d_b, d_c, d_d, OFFSET_C));
            let ab = (d_b >> 4u16) & 1u16 == 1u16;
            let seg = (d_b & 0xFu16) as int;
            let cs = seq![(d_c >> 8u16) as u8, (d_c & 0xFFu16) as u8, (d_d >> 8u16) as u8, (d_d & 0xFFu16) as u8];
            let n = chars_before_cr(cs);
            &&& t.rt_ab == ab
            &&& t.rt.len() == 64
            &&& forall|p: int|
                0 <= p < 64 ==> #[trigger] t.rt[p] == (if 4 * seg <= p < 4 * seg + n {
                    printable_or_space(cs[p - 4 * seg])
                } else if ab != s.rt_ab {
                    0x20u8
                } else {
                    s.rt[p]
                })
            &&& t.rt_ready == (n < 4 || (ab == s.rt_ab && s.rt_ready))
        }),
{
    lemma_valid_group(s, d_a, d_b, d_c, d_d, OFFSET_C);
    let t = push_bits(s, valid_group_bits(d_a, d_b, d_c, d_d, OFFSET_C));
    let g = group_received(s, t.shift_reg, d_a, d_b, d_c, d_d);
    let ab = (d_b >> 4u16) & 1u16 == 1u16;
    assert(((d_b >> 4u16) & 1u16 != 0) == ((d_b >> 4u16) & 1u16 == 1u16)) by (bit_vector);
    assert(group_type(d_b) == 2 && group_version(d_b) == 0) by (bit_vector)
        requires (d_b >> 12u16) == 2, (d_b >> 11u16) & 1u16 == 0;
    let seg = (d_b & 0xFu16) as int;
    assert(0 <= seg < 16) by {
        assert(d_b & 0xFu16 < 16) by (bit_vector);
    }
    let s1 = RdsView { pi: d_a, tp: (d_b >> 10u16) & 1u16 != 0, pty: ((d_b >> 5u16) & 0x1Fu16) as u8, ..g };
    let s2 = rt_after_ab(s1, ab);
    let cs = chars_2a(s1);
    assert(cs =~= seq![(d_c >> 8u16) as u8, (d_c & 0xFFu16) as u8, (d_d >> 8u16) as u8, (d_d & 0xFFu16) as u8]);
    let n = chars_before_cr(cs);
    let base = seg * 4;
    let w1 = RdsView { rt: s2.rt.update(base, printable_or_space(cs[0])), ..s2 };
    let w2 = RdsView { rt: w1.rt.update(base + 1, printable_or_space(cs[1])), ..w1 };
    let w3 = RdsView { rt: w2.rt.update(base + 2, printable_or_space(cs[2])), ..w2 };
    let w4 = RdsView { rt: w3.rt.update(base + 3, printable_or_space(cs[3])), ..w3 };
    lemma_write_rt_unfold(s2, base, cs, 0);
    lemma_write_rt_unfold(w1, base, cs, 1);
    lemma_write_rt_unfold(w2, base, cs, 2);
    lemma_write_rt_unfold(w3, base, cs, 3);
    assert(write_rt(w4, base, cs, 4) == w4);
    let done = if n == 0 {
        RdsView { rt_ready: true, ..s2 }
    } else if n == 1 {
        RdsView { rt_ready: true, ..w1 }
    } else if n == 2 {
        RdsView { rt_ready: true, ..w2 }
    } else if n == 3 {
        RdsView { rt_ready: true, ..w3 }
    } else {
        w4
    };
    assert(write_rt(s2, base, cs, 0) == done);
    assert(s2.rt.len() == 64);
    assert(t.rt == done.rt && t.rt_ready == done.rt_ready && t.rt_ab == done.rt_ab);
    assert forall|p: int| 0 <= p < 64 implies #[trigger] t.rt[p] == (if 4 * seg <= p < 4 * seg + n {
        printable_or_space(cs[p - 4 * seg])
    } else if ab != s.rt_ab {
        0x20u8
    } else {
        s.rt[p]
    }) by {}
}

/// A group 2B places its two RadioText characters at the segment it
/// addresses: once a complete group 2B of four valid blocks (block C with
/// offset C') has arrived at a group boundary, RadioText positions 2·seg and
/// 2·seg+1 (seg = the low four bits of block B) hold the two characters of
/// block D, each replaced by a space unless printable; every other position
/// keeps its character, unless the A/B flag (bit 4 of block B) changed, which
/// first clears the text to spaces; the flag is stored.
pub proof fn lemma_group_2b_places_text(s: RdsView, d_a: u16, d_b: u16, d_c: u16, d_d: u16)
    requires
        view_wf(s),
        s.synced,
        s.bits_since_sync == 0,
        s.block_idx == 0,
        (d_b >> 12u16) == 2,
        (d_b >> 11u16) & 1u16 == 1,
    ensures
        ({
            let t = push_bits(s, valid_group_bits(d_a, d_b, d_c, d_d, OFFSET_CP));
            let ab = (d_b >> 4u16) & 1u16 == 1u16;
            let seg = (d_b & 0xFu16) as int;
            let cs = seq![(d_d >> 8u16) as u8, (d_d & 0xFFu16) as u8];
            &&& t.rt_ab == ab
            &&& t.rt.len() == 64
            &&& forall|p: int|
                0 <= p < 64 ==> #[trigger] t.rt[p] == (if 2 * seg <= p < 2 * seg + 2 {
                    printable_or_space(cs[p - 2 * seg])
                } else if ab != s.rt_ab {
                    0x20u8
                } else {
                    s.rt[p]
                })
        }),
{
    lemma_valid_group(s, d_a, d_b, d_c, d_d, OFFSET_CP);
    assert(((d_b >> 4u16) & 1u16 != 0) == ((d_b >> 4u16) & 1u16 == 1u16)) by (bit_vector);
    assert(group_type(d_b) == 2 && group_version(d_b) == 1) by (bit_vector)
        requires (d_b >> 12u16) == 2, (d_b >> 11u16) & 1u16 == 1;
    let seg = (d_b & 0xFu16) as int;
    assert(0 <= seg < 16) by {
        assert(d_b & 0xFu16 < 16) by (bit_vector);
    }
}

/// The decoded programme data of two states agree.
pub open spec fn same_programme_data(a: RdsView, b: RdsView) -> bool {
    &&& a.pi == b.pi
    &&& a.ps == b.ps
    &&& a.rt == b.rt
    &&& a.rt_ab == b.rt_ab
    &&& a.pty == b.pty
    &&& a.tp == b.tp
    &&& a.ta == b.ta
    &&& a.ms == b.ms
    &&& a.ps_ready == b.ps_ready
    &&& a.rt_ready == b.rt_ready
}

/// Bits until the block at the last position of a group next completes.
pub open spec fn bits_to_group_end(s: RdsView) -> int {
    (26 - s.bits_since_sync) + 26 * (3 - s.block_idx)
}

/// Blocks A or B of the group being received are known to be missing, so the
/// group cannot be decoded when it completes.
pub open spec fn group_blocked(s: RdsView) -> bool {
    (s.block_idx >= 1 && !s.block_ok[0]) || (s.block_idx >= 2 && !s.block_ok[1])
}

/// No group can be decoded within the next `rem` bits: unsynchronised with no
/// block stored, or synchronised with the current group blocked or ending
/// beyond `rem` bits; and `rem` is at most three blocks, too few to receive a
/// whole group after a resynchronisation.
pub open spec fn no_group_within(s: RdsView, rem: nat) -> bool {
    &&& s.bits_since_sync < 26
    &&& s.block_idx < 4
    &&& s.sync_errors < 2
    &&& s.group_blocks.len() == 4
    &&& s.block_ok.len() == 4
    &&& rem <= 78
    &&& !s.synced ==> s.block_ok == Seq::new(4, |i: int| false)
    &&& s.synced ==> (group_blocked(s) || rem < bits_to_group_end(s))
}

proof fn lemma_no_group_step(s: RdsView, bit: u8, rem: nat)
    requires
        no_group_within(s, rem),
        rem > 0,
    ensures
        no_group_within(push_bit_spec(s, bit), (rem - 1) as nat),
        same_programme_data(push_bit_spec(s, bit), s),
{
    let t = push_bit_spec(s, bit);
    let s1 = RdsView { shift_reg: (s.shift_reg << 1u64) | ((bit as u64) & 1u64), ..s };
    if !s.synced {
        let word = word26(s1.shift_reg);
        match block_for_syndrome(syndrome_spec(word)) {
            Some(k) => {
                assert(t.block_ok =~= Seq::new(4, |i: int| false).update(k as int, true));
            },
            None => {},
        }
    } else if s.bits_since_sync + 1 < 26 {
    } else if !block_accepted(s.block_idx, syndrome_spec(word26(s1.shift_reg))) {
        if s.sync_errors + 1 >= 2 {
            assert(t.block_ok =~= Seq::new(4, |i: int| false));
        }
    } else if s.block_idx + 1 == 4 {
        let s2 = RdsView {
            bits_since_sync: 0,
            sync_errors: 0,
            group_blocks: s1.group_blocks.update(s1.block_idx as int, block_data(word26(s1.shift_reg))),
            block_ok: s1.block_ok.update(s1.block_idx as int, true),
            block_idx: 0,
            ..s1
        };
        assert(!s2.block_ok[0] || !s2.block_ok[1]);
        lemma_parse_group_keeps_framing(s2);
    }
}

proof fn lemma_no_group_run(s: RdsView, bits: Seq<u8>)
    requires
        no_group_within(s, bits.len()),
    ensures
        same_programme_data(push_bits(s, bits), s),
    decreases bits.len(),
{
    if bits.len() > 0 {
        let first = seq![bits[0]];
        let rest = bits.drop_first();
        assert(first + rest =~= bits);
        lemma_push_bits_append(s, first, rest);
        assert(first.drop_last() =~= Seq::<u8>::empty());
        assert(first.last() == bits[0]);
        assert(push_bits(s, first.drop_last()) == s);
        assert(push_bits(s, first) == push_bit_spec(s, bits[0]));
        lemma_no_group_step(s, bits[0], bits.len());
        lemma_no_group_run(push_bit_spec(s, bits[0]), rest);
    }
}

/// A group whose block A or B fails its check is never decoded: synchronised
/// at a group boundary, once the 104 bits of a group have arrived in which
/// block A or block B is rejected at its position, the decoded programme data
/// is what it was before the group, whatever blocks C and D hold and whether
/// or not framing is lost on the way.
pub proof fn lemma_group_with_bad_a_or_b_skipped(s: RdsView, wa: u32, wb: u32, wc: u32, wd: u32)
    requires
        view_wf(s),
        s.synced,
        s.bits_since_sync == 0,
        s.block_idx == 0,
        wa < 0x400_0000,
        wb < 0x400_0000,
        wc < 0x400_0000,
        wd < 0x400_0000,
        !block_accepted(0, syndrome_spec(wa)) || !block_accepted(1, syndrome_spec(wb)),
    ensures
        same_programme_data(
            push_bits(s, block_bits(wa) + block_bits(wb) + block_bits(wc) + block_bits(wd)),
            s,
        ),
{
    let ba = block_bits(wa);
    let bb = block_bits(wb);
    let bc = block_bits(wc);
    let bd = block_bits(wd);
    assert(ba + bb + bc + bd =~= ba + (bb + bc + bd));
    lemma_push_bits_append(s, ba, bb + bc + bd);
    lemma_push_block(s, wa);
    let s1 = block_result(s, wa);
    if !block_accepted(0, syndrome_spec(wa)) {
        if s.sync_errors + 1 >= 2 {
            assert(s1.block_ok =~= Seq::new(4, |i: int| false));
        }
        assert(no_group_within(s1, (bb + bc + bd).len()));
        lemma_no_group_run(s1, bb + bc + bd);
    } else {
        assert(bb + bc + bd =~= bb + (bc + bd));
        lemma_push_bits_append(s1, bb, bc + bd);
        lemma_push_block(s1, wb);
        let s2 = block_result(s1, wb);
        assert(no_group_within(s2, (bc + bd).len()));
        lemma_no_group_run(s2, bc + bd);
    }
}

// ── RDS decoder ────────────────────────────────────────────────────────────────

/// Block framing and group decoding of an RDS bit stream: takes the hard
/// bit decisions of the demodulator and keeps the decoded programme data.
pub struct RdsDecoder {
    // Differential biphase mark decoding
    prev_bit: u8,
    // 64-bit shift register — last 26 bits are checked for block sync
    shift_reg: u64,
    // Block accumulation state
    bits_since_sync: usize,
    block_idx: usize,
    group_blocks: [u16; 4],
    block_ok: [bool; 4],
    synced: bool,
    // Consecutive syndrome failures before dropping sync (allows 1 soft error)
    sync_errors: u8,
    // Parsed RDS data
    pi: u16,
    ps: [u8; 8],
    rt: [u8; 64],
    rt_ab: bool,
    pty: u8,
    tp: bool,
    ta: bool,
    ms: bool,
    ps_ready: bool,
    rt_ready: bool,
}

impl View for RdsDecoder {
    type V = RdsView;

    closed spec fn view(&self) -> RdsView {
        RdsView {
            prev_bit: self.prev_bit,
            shift_reg: self.shift_reg,
            bits_since_sync: self.bits_since_sync,
            block_idx: self.block_idx,
            group_blocks: self.group_blocks@,
            block_ok: self.block_ok@,
            synced: self.synced,
            sync_errors: self.sync_errors,
            pi: self.pi,
            ps: self.ps@,
            rt: self.rt@,
            rt_ab: self.rt_ab,
            pty: self.pty,
            tp: self.tp,
            ta: self.ta,
            ms: self.ms,
            ps_ready: self.ps_ready,
            rt_ready: self.rt_ready,
        }
    }
}

/// The decoder's state before any bit: unsynchronised, text all spaces.
pub open spec fn initial_view() -> RdsView {
    RdsView {
        prev_bit: 0,
        shift_reg: 0,
        bits_since_sync: 0,
        block_idx: 0,
        group_blocks: Seq::new(4, |i: int| 0u16),
        block_ok: Seq::new(4, |i: int| false),
        synced: false,
        sync_errors: 0,
        pi: 0,
        ps: Seq::new(8, |i: int| 0x20u8),
        rt: Seq::new(64, |i: int| 0x20u8),
        rt_ab: false,
        pty: 0,
        tp: false,
        ta: false,
        ms: false,
        ps_ready: false,
        rt_ready: false,
    }
}

impl RdsDecoder {
    pub open spec fn wf(&self) -> bool {
        view_wf(self@)
    }

    pub fn new() -> (d: Self)
        ensures
            d@ == initial_view(),
            d.wf(),
    {
        let d = Self {
            prev_bit: 0,
            shift_reg: 0,
            bits_since_sync: 0,
            block_idx: 0,
            group_blocks: [0u16; 4],
            block_ok: [false; 4],
            synced: false,
            sync_errors: 0,
            pi: 0,
            ps: [0x20u8; 8],
            rt: [0x20u8; 64],
            rt_ab: false,
            pty: 0,
            tp: false,
            ta: false,
            ms: false,
            ps_ready: false,
            rt_ready: false,
        };
        assert(d@.group_blocks =~= initial_view().group_blocks);
        assert(d@.block_ok =~= initial_view().block_ok);
        assert(d@.ps =~= initial_view().ps);
        assert(d@.rt =~= initial_view().rt);
        d
    }

    fn any_visible(ps: &[u8; 8]) -> (r: bool)
        ensures
            r == has_visible(ps@),
    {
        let mut i: usize = 0;
        while i < 8
            invariant
                i <= 8,
                forall|j: int| 0 <= j < i ==> ps@[j] <= 0x20,
            decreases 8 - i,
        {
            if ps[i] > 0x20 {
                return true;
            }
            i = i + 1;
        }
        false
    }

    /// Group 0A/0B — Programme Service name (2 chars per group, 4 groups = 8 chars)
    fn parse_group_0a(&mut self, b1: u16)
        requires
            old(self).wf(),
        ensures
            final(self)@ == parse_group_0a_spec(old(self)@, b1),
            final(self).wf(),
    {
        if !self.block_ok[3] {
            return;
        }
        self.ta = (b1 >> 4) & 1 != 0;
        self.ms = (b1 >> 3) & 1 != 0;
        let seg = (b1 & 0x3) as usize;
        assert(seg < 4) by (bit_vector)
            requires seg == (b1 & 0x3u16) as usize;
        let d = self.group_blocks[3];
        let c0 = (d >> 8) as u8;
        let c1 = (d & 0xFF) as u8;
        if c0 >= 0x20 && c0 < 0x7F {
            self.ps[seg * 2] = c0;
        }
        if c1 >= 0x20 && c1 < 0x7F {
            self.ps[seg * 2 + 1] = c1;
        }
        self.ps_ready = Self::any_visible(&self.ps);
        assert(self@.ps =~= parse_group_0a_spec(old(self)@, b1).ps);
    }

    fn apply_ab_flag(&mut self, ab: bool)
        requires
            old(self).wf(),
        ensures
            final(self)@ == rt_after_ab(old(self)@, ab),
            final(self).wf(),
    {
        if ab != self.rt_ab {
            self.rt = [0x20u8; 64];
            self.rt_ab = ab;
            self.rt_ready = false;
            assert(self@.rt =~= rt_after_ab(old(self)@, ab).rt);
        }
    }

    /// Stores a received RadioText character at `off`, replacing a
    /// non-printable one by a space.
    fn put_rt(&mut self, off: usize, c: u8)
        requires
            old(self).wf(),
            off < 64,
        ensures
            final(self)@ == (RdsView { rt: old(self)@.rt.update(off as int, printable_or_space(c)), ..old(self)@ }),
            final(self).wf(),
    {
        self.rt[off] = if c >= 0x20 && c < 0x7F {
            c
        } else {
            0x20
        };
        assert(self@.rt =~= old(self)@.rt.update(off as int, printable_or_space(c)));
    }

    /// Stores two RadioText characters at `off` and `off + 1`, stopping at a
    /// carriage return (end of text). Returns whether the text ended.
    fn put_rt_pair(
        &mut self,
        off: usize,
        c0: u8,
        c1: u8,
        Ghost(base): Ghost<int>,
        Ghost(cs): Ghost<Seq<u8>>,
        Ghost(j): Ghost<nat>,
    ) -> (ended: bool)
        requires
            old(self).wf(),
            off + 1 < 64,
            off == base + j,
            j + 1 < cs.len(),
            cs[j as int] == c0,
            cs[(j + 1) as int] == c1,
        ensures
            final(self).wf(),
            ended ==> final(self)@ == write_rt(old(self)@, base, cs, j),
            !ended ==> write_rt(final(self)@, base, cs, j + 2) == write_rt(old(self)@, base, cs, j),
    {
        proof {
            lemma_write_rt_unfold(self@, base, cs, j);
        }
        if c0 == 0x0D {
            let ghost before = self@;
            self.rt_ready = true;
            assert(self@ == RdsView { rt_ready: true, ..before });
            return true;
        }
        self.put_rt(off, c0);
        proof {
            lemma_write_rt_unfold(self@, base, cs, j + 1);
        }
        if c1 == 0x0D {
            let ghost before = self@;
            self.rt_ready = true;
            assert(self@ == RdsView { rt_ready: true, ..before });
            return true;
        }
        self.put_rt(off + 1, c1);
        false
    }

    /// Group 2A — RadioText (4 chars per group, up to 16 groups = 64 chars)
    fn parse_group_2a(&mut self, b1: u16)
        requires
            old(self).wf(),
        ensures
            final(self)@ == parse_group_2a_spec(old(self)@, b1),
            final(self).wf(),
    {
        if !self.block_ok[2] || !self.block_ok[3] {
            return;
        }
        let ghost cs = chars_2a(old(self)@);
        let ghost target = parse_group_2a_spec(old(self)@, b1);
        let ab = (b1 >> 4) & 1 != 0;
        self.apply_ab_flag(ab);
        let seg = (b1 & 0xF) as usize;
        assert(seg < 16) by (bit_vector)
            requires seg == (b1 & 0xFu16) as usize;
        let base = seg * 4;
        let words = [self.group_blocks[2], self.group_blocks[3]];
        assert(cs.len() == 4);
        let mut wi: usize = 0;
        while wi < 2
            invariant
                wi <= 2,
                base == seg * 4,
                seg < 16,
                self.wf(),
                words@ == seq![old(self)@.group_blocks[2], old(self)@.group_blocks[3]],
                cs == chars_2a(old(self)@),
                cs.len() == 4,
                target == parse_group_2a_spec(old(self)@, b1),
                write_rt(self@, base as int, cs, (2 * wi) as nat) == target,
            decreases 2 - wi,
        {
            let w = words[wi];
            let c0 = (w >> 8) as u8;
            let c1 = (w & 0xFF) as u8;
            assert(c0 == cs[2 * wi as int] && c1 == cs[2 * wi + 1]);
            let off = base + wi * 2;
            if off + 1 < 64 {
                if self.put_rt_pair(off, c0, c1, Ghost(base as int), Ghost(cs), Ghost((2 * wi) as nat)) {
                    return;
                }
            }
            wi = wi + 1;
        }
    }

    fn acquire(&mut self)
        requires
            old(self).wf(),
            !old(self).synced,
        ensures
            final(self)@ == acquire_spec(old(self)@),
            final(self).wf(),
    {
        // Check the last 26 bits against all valid syndromes
        let word = (self.shift_reg & 0x3FF_FFFF) as u32;
        let syn = syndrome(word);
        if syn == OFFSET_A || syn == OFFSET_B || syn == OFFSET_C || syn == OFFSET_CP
            || syn == OFFSET_D {
            self.synced = true;
            self.bits_since_sync = 0;
            // Infer which block we just completed
            self.block_idx = if syn == OFFSET_A {
                0
            } else if syn == OFFSET_B {
                1
            } else if syn == OFFSET_C || syn == OFFSET_CP {
                2
            } else {
                3
            };
            let ghost k = self.block_idx;
            self.group_blocks[self.block_idx] = ((word >> 10) & 0xFFFF) as u16;
            self.block_ok[self.block_idx] = true;
            self.block_idx = (self.block_idx + 1) % 4;
            assert(self@.group_blocks =~= old(self)@.group_blocks.update(k as int, block_data(word)));
            assert(self@.block_ok =~= old(self)@.block_ok.update(k as int, true));
        }
    }

    fn reject_block(&mut self)
        requires
            old(self).wf(),
            old(self).bits_since_sync == 0,
        ensures
            final(self)@ == reject_block_spec(old(self)@),
            final(self).wf(),
    {
        self.sync_errors += 1;
        if self.sync_errors >= 2 {
            // Two consecutive bad blocks — truly lost framing
            self.synced = false;
            self.block_idx = 0;
            self.block_ok = [false; 4];
            self.sync_errors = 0;
            assert(self@.block_ok =~= Seq::new(4, |i: int| false));
        } else {
            // One bad block — mark it invalid, advance framing, keep going
            let ghost k = self.block_idx;
            self.block_ok[self.block_idx] = false;
            self.block_idx = (self.block_idx + 1) % 4;
            self.bits_since_sync = 0;
            assert(self@.block_ok =~= old(self)@.block_ok.update(k as int, false));
        }
    }

    fn accept_block(&mut self, data: u16)
        requires
            old(self).wf(),
            old(self).bits_since_sync == 0,
            data == block_data(word26(old(self)@.shift_reg)),
        ensures
            final(self)@ == accept_block_spec(old(self)@),
            final(self).wf(),
    {
        self.sync_errors = 0;
        let ghost k = self.block_idx;
        self.group_blocks[self.block_idx] = data;
        self.block_ok[self.block_idx] = true;
        self.block_idx += 1;
        assert(self@.group_blocks =~= old(self)@.group_blocks.update(k as int, data));
        assert(self@.block_ok =~= old(self)@.block_ok.update(k as int, true));

        if self.block_idx == 4 {
            self.block_idx = 0;
            self.parse_group();
            self.block_ok = [false; 4];
            assert(self@.block_ok =~= Seq::new(4, |i: int| false));
        }
    }

    /// Shifts one decoded data bit into the block framer. Unsynchronised, it
    /// looks for any valid block in the last 26 bits; synchronised, it checks
    /// each 26-bit block against the offset word expected at its position,
    /// decodes every complete group and drops sync after two bad blocks in a row.
    pub fn push_bit(&mut self, bit: u8)
        requires
            old(self).wf(),
        ensures
            final(self)@ == push_bit_spec(old(self)@, bit),
            final(self).wf(),
    {
        self.shift_reg = (self.shift_reg << 1) | (bit as u64 & 1);

        if !self.synced {
            self.acquire();
            return;
        }

        self.bits_since_sync += 1;
        if self.bits_since_sync < 26 {
            return;
        }
        self.bits_since_sync = 0;

        let word = (self.shift_reg & 0x3FF_FFFF) as u32;
        let syn = syndrome(word);
        let data = ((word >> 10) & 0xFFFF) as u16;

        let expected = match self.block_idx {
            0 => OFFSET_A,
            1 => OFFSET_B,
            2 => OFFSET_C,
            _ => OFFSET_D,
        };
        let also_c_prime = self.block_idx == 2 && syn == OFFSET_CP;
        let ok = syn == expected || also_c_prime;

        if !ok {
            self.reject_block();
            return;
        }
        self.accept_block(data);
    }

    /// Takes one hard bit decision of the biphase demodulator (`high`: the
    /// baseband level was non-negative) and decodes it differentially: the data
    /// bit is 1 when the level equals the previous decision, 0 when it changed.
    pub fn clock_bit(&mut self, high: bool)
        requires
            old(self).wf(),
        ensures
            final(self)@ == push_bit_spec(
                RdsView { prev_bit: level_bit(high), ..old(self)@ },
                if level_bit(high) == old(self)@.prev_bit { 1u8 } else { 0u8 },
            ),
            final(self).wf(),
    {
        let bit: u8 = if high { 1 } else { 0 };
        let prev = self.prev_bit;
        let decoded = (bit ^ prev) ^ 1;
        assert(decoded == (if bit == prev { 1u8 } else { 0u8 })) by (bit_vector)
            requires
                bit <= 1,
                prev <= 1,
                decoded == (bit ^ prev) ^ 1u8;
        self.prev_bit = bit;
        self.push_bit(decoded);
    }

    /// The Programme Service name with trailing whitespace removed.
    pub fn ps_string(&self) -> (r: String)
        requires
            self.wf(),
        ensures
            r@ == ascii_chars(trim_end_whitespace(self@.ps)),
    {
        let mut end: usize = 8;
        assert(self@.ps.subrange(0, 8) =~= self@.ps);
        while end > 0 && (self.ps[end - 1] == 0x20 || (0x09 <= self.ps[end - 1] && self.ps[end - 1] <= 0x0D))
            invariant
                end <= 8,
                trim_end_whitespace(self@.ps) == trim_end_whitespace(self@.ps.subrange(0, end as int)),
            decreases end,
        {
            assert(self@.ps.subrange(0, end as int).drop_last() =~= self@.ps.subrange(0, end - 1));
            end = end - 1;
        }
        assert(self@.ps.subrange(0, 8) =~= self@.ps);
        let bytes = prefix_vec(&self.ps, end);
        string_from_utf8_lossy(bytes.as_slice())
    }

    /// The RadioText with trailing spaces and control characters removed.
    pub fn rt_string(&self) -> (r: String)
        requires
            self.wf(),
        ensures
            r@ == ascii_chars(trim_end_blank(self@.rt)),
    {
        let mut end: usize = 64;
        assert(self@.rt.subrange(0, 64) =~= self@.rt);
        while end > 0 && self.rt[end - 1] <= 0x20
            invariant
                end <= 64,
                trim_end_blank(self@.rt) == trim_end_blank(self@.rt.subrange(0, end as int)),
            decreases end,
        {
            assert(self@.rt.subrange(0, end as int).drop_last() =~= self@.rt.subrange(0, end - 1));
            end = end - 1;
        }
        assert(self@.rt.subrange(0, 64) =~= self@.rt);
        let bytes = prefix_vec(&self.rt, end);
        string_from_utf8_lossy(bytes.as_slice())
    }

    /// Programme Identification code.
    pub fn pi(&self) -> (r: u16)
        ensures
            r == self@.pi,
    {
        self.pi
    }

    /// Programme Service name (8 characters).
    pub fn ps(&self) -> (r: [u8; 8])
        ensures
            r@ == self@.ps,
    {
        self.ps
    }

    /// RadioText (up to 64 characters).
    pub fn rt(&self) -> (r: [u8; 64])
        ensures
            r@ == self@.rt,
    {
        self.rt
    }

    /// RadioText A/B flag — flips when the text changes.
    pub fn rt_ab(&self) -> (r: bool)
        ensures
            r == self@.rt_ab,
    {
        self.rt_ab
    }

    /// Programme Type code (0-31).
    pub fn pty(&self) -> (r: u8)
        ensures
            r == self@.pty,
    {
        self.pty
    }

    /// Traffic Programme flag.
    pub fn tp(&self) -> (r: bool)
        ensures
            r == self@.tp,
    {
        self.tp
    }

    /// Traffic Announcement flag.
    pub fn ta(&self) -> (r: bool)
        ensures
            r == self@.ta,
    {
        self.ta
    }

    /// Music/Speech flag: true = music.
    pub fn ms(&self) -> (r: bool)
        ensures
            r == self@.ms,
    {
        self.ms
    }

    /// At least one visible PS character received.
    pub fn ps_ready(&self) -> (r: bool)
        ensures
            r == self@.ps_ready,
    {
        self.ps_ready
    }

    /// End of RadioText (carriage return) received.
    pub fn rt_ready(&self) -> (r: bool)
        ensures
            r == self@.rt_ready,
    {
        self.rt_ready
    }

    fn parse_group(&mut self)
        requires
            old(self).wf(),
        ensures
            final(self)@ == parse_group_spec(old(self)@),
            final(self).wf(),
    {
        // Blocks 0 and 1 must be error-free to determine group type
        if !self.block_ok[0] || !self.block_ok[1] {
            return;
        }
        self.pi = self.group_blocks[0];
        let b1 = self.group_blocks[1];
        let group_type = (b1 >> 12) & 0xF;
        let version = (b1 >> 11) & 1; // 0 = version A, 1 = version B
        self.tp = (b1 >> 10) & 1 != 0;
        self.pty = ((b1 >> 5) & 0x1F) as u8;
        if group_type == 0 {
            self.parse_group_0a(b1);
        } else if group_type == 2 && version == 0 {
            self.parse_group_2a(b1);
        } else if group_type == 2 && version == 1 {
            self.parse_group_2b(b1);
        }
        // 1A (AF list), 4A (clock time), etc. — ignored

    }

    /// Group 2B — RadioText (2 chars per group, up to 16 groups = 32 chars)
    fn parse_group_2b(&mut self, b1: u16)
        requires
            old(self).wf(),
        ensures
            final(self)@ == parse_group_2b_spec(old(self)@, b1),
            final(self).wf(),
    {
        if !self.block_ok[3] {
            return;
        }
        let ab = (b1 >> 4) & 1 != 0;
        self.apply_ab_flag(ab);
        let seg = (b1 & 0xF) as usize;
        assert(seg < 16) by (bit_vector)
            requires seg == (b1 & 0xFu16) as usize;
        let d = self.group_blocks[3];
        let c0 = (d >> 8) as u8;
        let c1 = (d & 0xFF) as u8;
        let off = seg * 2;
        if off + 1 < 32 {
            self.rt[off] = if c0 >= 0x20 && c0 < 0x7F {
                c0
            } else {
                0x20
            };
            self.rt[off + 1] = if c1 >= 0x20 && c1 < 0x7F {
                c1
            } else {
                0x20
            };
        }
        assert(self@.rt =~= parse_group_2b_spec(old(self)@, b1).rt);
    }
}

} // verus!
