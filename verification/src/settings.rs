use vstd::prelude::*;
use vstd::string::StrSliceExecFns;
use crate::device::DeviceSource;
use crate::modes::PipelineMode;

verus! {

/// Server configuration: listening address, logging and device settings.
pub struct AppConfig {
    pub server: ServerSettings,
    pub logging: LoggingSettings,
    pub device: DeviceSettings,
}

pub struct ServerSettings {
    pub host: String,
    pub port: u16,
}

pub struct LoggingSettings {
    /// Log level: trace | debug | info | warn | error
    pub level: String,
    /// Output format: pretty | compact | json
    pub format: String,
}

pub struct DeviceSettings {
    /// How to locate the hardware: stub | first_available | index | serial | vid_pid
    pub source: String,
    /// Used when source = "index"
    pub index: Option<usize>,
    /// Used when source = "serial"
    pub serial: Option<String>,
    /// USB vendor ID hex string, used when source = "vid_pid" (e.g. "0bda")
    pub vid: Option<String>,
    /// USB product ID hex string, used when source = "vid_pid" (e.g. "2838")
    pub pid: Option<String>,
    /// Initial center frequency in Hz
    pub center_hz: u32,
    /// RTL-SDR IQ sample rate in samples/sec
    pub sample_rate: u32,
    /// Audio output sample rate in Hz
    pub audio_rate: u32,
    /// Tuner gain in tenths of dB (e.g. 200 = 20.0 dB); absent = auto-gain
    pub gain_tenths: Option<i32>,
    /// Enable bias-tee (5 V on antenna port for active antennas)
    pub bias_tee: bool,
}

// ── Hexadecimal IDs ────────────────────────────────────────────────────────────

/// Value of a hexadecimal digit (either case), or -1 for any other character.
pub open spec fn hex_digit_value(c: char) -> int {
    let x = c as int;
    if 0x30 <= x <= 0x39 {
        x - 0x30
    } else if 0x61 <= x <= 0x66 {
        x - 0x61 + 10
    } else if 0x41 <= x <= 0x46 {
        x - 0x41 + 10
    } else {
        -1
    }
}

/// Numeric value of a string of hexadecimal digits.
pub open spec fn hex_value(digits: Seq<char>) -> int
    decreases digits.len(),
{
    if digits.len() == 0 {
        0
    } else {
        hex_value(digits.drop_last()) * 16 + hex_digit_value(digits.last())
    }
}

pub open spec fn all_hex_digits(digits: Seq<char>) -> bool {
    forall|i: int| 0 <= i < digits.len() ==> hex_digit_value(#[trigger] digits[i]) >= 0
}

/// The digits of a numeral: without one leading '+'.
pub open spec fn numeral_digits(s: Seq<char>) -> Seq<char> {
    if s.len() > 0 && s[0] == '+' {
        s.drop_first()
    } else {
        s
    }
}

/// A `u16` written in hexadecimal, as `u16::from_str_radix(s, 16)` reads it:
/// an optional '+', then one or more hex digits of either case, with a value
/// that fits in 16 bits.
pub open spec fn parse_hex_u16_spec(s: Seq<char>) -> Option<u16> {
    let digits = numeral_digits(s);
    if digits.len() == 0 || !all_hex_digits(digits) || hex_value(digits) > 0xFFFF {
        None
    } else {
        Some(hex_value(digits) as u16)
    }
}

proof fn lemma_hex_value_nonneg(digits: Seq<char>)
    requires
        all_hex_digits(digits),
    ensures
        hex_value(digits) >= 0,
    decreases digits.len(),
{
    if digits.len() > 0 {
        assert(all_hex_digits(digits.drop_last()));
        lemma_hex_value_nonneg(digits.drop_last());
        assert(hex_digit_value(digits[digits.len() - 1]) >= 0);
    }
}

/// Once a prefix of valid digits exceeds 16 bits, so does every longer string
/// of valid digits extending it.
proof fn lemma_hex_value_monotone(digits: Seq<char>, k: int)
    requires
        0 <= k <= digits.len(),
        all_hex_digits(digits),
    ensures
        hex_value(digits.take(k)) <= hex_value(digits),
    decreases digits.len() - k,
{
    if k < digits.len() {
        lemma_hex_value_monotone(digits, k + 1);
        assert(digits.take(k + 1).drop_last() =~= digits.take(k));
        assert(all_hex_digits(digits.take(k)));
        lemma_hex_value_nonneg(digits.take(k));
        assert(hex_digit_value(digits[k]) >= 0);
    } else {
        assert(digits.take(k) =~= digits);
    }
}

/// The hexadecimal digit character for `d` < 16, in lower or upper case.
pub open spec fn hex_char(d: int, upper: bool) -> char {
    if d < 10 {
        (0x30 + d) as char
    } else if upper {
        (0x41 + d - 10) as char
    } else {
        (0x61 + d - 10) as char
    }
}

/// The four-digit hexadecimal numeral of `v`, most significant digit first.
pub open spec fn hex4(v: u16, upper: bool) -> Seq<char> {
    seq![
        hex_char(v as int / 4096, upper),
        hex_char((v as int / 256) % 16, upper),
        hex_char((v as int / 16) % 16, upper),
        hex_char(v as int % 16, upper),
    ]
}

proof fn lemma_hex_char_value(d: int, upper: bool)
    requires
        0 <= d < 16,
    ensures
        hex_digit_value(hex_char(d, upper)) == d,
{
}

/// Reading an ID back: every 16-bit value written as four hexadecimal digits,
/// in lower or upper case, with or without a leading '+', parses to itself.
pub proof fn lemma_parse_hex_reads_numeral(v: u16, upper: bool)
    ensures
        parse_hex_u16_spec(hex4(v, upper)) == Some(v),
        parse_hex_u16_spec(seq!['+'] + hex4(v, upper)) == Some(v),
{
    let d3 = v as int / 4096;
    let d2 = (v as int / 256) % 16;
    let d1 = (v as int / 16) % 16;
    let d0 = v as int % 16;
    assert(0 <= d3 < 16 && 0 <= d2 < 16 && 0 <= d1 < 16 && 0 <= d0 < 16) by (nonlinear_arith)
        requires d3 == v as int / 4096, d2 == (v as int / 256) % 16, d1 == (v as int / 16) % 16, d0 == v as int % 16, 0 <= v < 65536;
    assert(((d3 * 16 + d2) * 16 + d1) * 16 + d0 == v) by (nonlinear_arith)
        requires d3 == v as int / 4096, d2 == (v as int / 256) % 16, d1 == (v as int / 16) % 16, d0 == v as int % 16, 0 <= v;
    lemma_hex_char_value(d3 as int, upper);
    lemma_hex_char_value(d2 as int, upper);
    lemma_hex_char_value(d1 as int, upper);
    lemma_hex_char_value(d0 as int, upper);
    let h = hex4(v, upper);
    assert(h[0] != '+');
    assert(numeral_digits(h) == h);
    let h1 = seq![h[0]];
    let h2 = seq![h[0], h[1]];
    let h3 = seq![h[0], h[1], h[2]];
    assert(h1.drop_last() =~= Seq::<char>::empty());
    assert(h2.drop_last() =~= h1);
    assert(h3.drop_last() =~= h2);
    assert(h.drop_last() =~= h3);
    assert(hex_value(Seq::<char>::empty()) == 0);
    assert(hex_value(h1) == hex_value(h1.drop_last()) * 16 + hex_digit_value(h1.last()));
    assert(hex_value(h1) == d3);
    assert(hex_value(h2) == hex_value(h1) * 16 + hex_digit_value(h2.last()));
    assert(hex_value(h3) == hex_value(h2) * 16 + hex_digit_value(h3.last()));
    assert(hex_value(h) == hex_value(h3) * 16 + hex_digit_value(h.last()));
    assert(hex_value(h) == v);
    assert forall|i: int| 0 <= i < h.len() implies hex_digit_value(#[trigger] h[i]) >= 0 by {}
    assert(all_hex_digits(h));
    assert((seq!['+'] + h).drop_first() =~= h);
}

fn hex_digit(c: char) -> (d: Option<u32>)
    ensures
        hex_digit_value(c) < 0 ==> d is None,
        hex_digit_value(c) >= 0 ==> d == Some(hex_digit_value(c) as u32),
{
    let x = c as u32;
    if 0x30 <= x && x <= 0x39 {
        Some(x - 0x30)
    } else if 0x61 <= x && x <= 0x66 {
        Some(x - 0x61 + 10)
    } else if 0x41 <= x && x <= 0x46 {
        Some(x - 0x41 + 10)
    } else {
        None
    }
}

/// Parses a 16-bit hexadecimal ID such as a USB vendor or product ID.
pub fn parse_hex_u16(s: &str) -> (r: Option<u16>)
    ensures
        r == parse_hex_u16_spec(s@),
{
    let n = s.unicode_len();
    if n == 0 {
        return None;
    }
    let start: usize = if s.get_char(0) == '+' {
        1
    } else {
        0
    };
    let ghost digits = numeral_digits(s@);
    assert(digits =~= s@.subrange(start as int, n as int));
    if start == n {
        return None;
    }
    let mut acc: u32 = 0;
    let mut i: usize = start;
    while i < n
        invariant
            start <= i <= n,
            start < n,
            n == s@.len(),
            digits == numeral_digits(s@),
            digits == s@.subrange(start as int, n as int),
            all_hex_digits(digits.take(i - start)),
            acc == hex_value(digits.take(i - start)),
            acc <= 0xFFFF,
        decreases n - i,
    {
        let c = s.get_char(i);
        let ghost k = i - start;
        assert(digits[k] == c);
        match hex_digit(c) {
            None => {
                assert(hex_digit_value(digits[k]) < 0);
                assert(!all_hex_digits(digits));
                return None;
            },
            Some(d) => {
                assert(digits.take(k + 1).drop_last() =~= digits.take(k));
                assert(digits.take(k + 1).last() == c);
                assert(hex_value(digits.take(k + 1)) == hex_value(digits.take(k)) * 16 + hex_digit_value(c));
                assert(all_hex_digits(digits.take(k + 1))) by {
                    assert forall|j: int| 0 <= j < k + 1 implies hex_digit_value(#[trigger] digits.take(k + 1)[j]) >= 0 by {
                        if j < k {
                            assert(digits.take(k + 1)[j] == digits.take(k)[j]);
                        }
                    }
                }
                acc = acc * 16 + d;
                if acc > 0xFFFF {
                    proof {
                        if all_hex_digits(digits) {
                            lemma_hex_value_monotone(digits, k + 1);
                        }
                    }
                    return None;
                }
                i = i + 1;
            },
        }
    }
    assert(digits.take(n - start) =~= digits);
    Some(acc as u16)
}

// ── Device selection ───────────────────────────────────────────────────────────

/// Whether two strings are equal.
fn str_equals(a: &str, b: &str) -> (r: bool)
    ensures
        r == (a@ == b@),
{
    let n = a.unicode_len();
    if n != b.unicode_len() {
        return false;
    }
    let mut i: usize = 0;
    while i < n
        invariant
            i <= n,
            n == a@.len(),
            n == b@.len(),
            forall|j: int| 0 <= j < i ==> a@[j] == b@[j],
        decreases n - i,
    {
        if a.get_char(i) != b.get_char(i) {
            return false;
        }
        i = i + 1;
    }
    assert(a@ =~= b@);
    true
}

/// The contents of an optional string, or the empty string.
pub open spec fn opt_chars(s: Option<String>) -> Seq<char> {
    match s {
        Some(x) => x@,
        None => Seq::empty(),
    }
}

/// The device a configuration selects: none (stub IQ) for "stub", "" or an
/// unknown source; the first device; a device by index (0 by default); by
/// serial (none without one); or by hexadecimal vendor and product IDs (none
/// unless both parse).
pub open spec fn resolve_device_source_spec(cfg: DeviceSettings) -> Option<DeviceSource> {
    let src = cfg.source@;
    if src == "first_available"@ {
        Some(DeviceSource::FirstAvailable)
    } else if src == "index"@ {
        Some(DeviceSource::Index(
            match cfg.index {
                Some(i) => i,
                None => 0,
            },
        ))
    } else if src == "serial"@ {
        match cfg.serial {
            Some(s) => Some(DeviceSource::Serial(s)),
            None => None,
        }
    } else if src == "vid_pid"@ {
        match (parse_hex_u16_spec(opt_chars(cfg.vid)), parse_hex_u16_spec(opt_chars(cfg.pid))) {
            (Some(vid), Some(pid)) => Some(DeviceSource::VidPid { vid, pid }),
            _ => None,
        }
    } else {
        None
    }
}

fn opt_str(s: &Option<String>) -> (r: &str)
    ensures
        r@ == opt_chars(*s),
{
    match s {
        Some(x) => x.as_str(),
        None => {
            let e = "";
            proof {
                reveal_strlit("");
            }
            e
        },
    }
}

/// Resolves the configured device source ("stub", "first_available",
/// "index", "serial" or "vid_pid") to a device to open; `None` means stub IQ.
pub fn resolve_device_source(cfg: &DeviceSettings) -> (r: Option<DeviceSource>)
    ensures
        r == resolve_device_source_spec(*cfg),
{
    let src = cfg.source.as_str();
    proof {
        broadcast use vstd::string::group_string_axioms;
        reveal_strlit("stub");
        reveal_strlit("");
        reveal_strlit("first_available");
        reveal_strlit("index");
        reveal_strlit("serial");
        reveal_strlit("vid_pid");
    }
    if str_equals(src, "stub") || str_equals(src, "") {
        assert("stub"@.len() == 4);
        assert(""@.len() == 0);
        assert("first_available"@.len() == 15);
        assert(src@ != "first_available"@ && src@ != "index"@ && src@ != "serial"@ && src@ != "vid_pid"@);
        None
    } else if str_equals(src, "first_available") {
        Some(DeviceSource::FirstAvailable)
    } else if str_equals(src, "index") {
        Some(DeviceSource::Index(
            match cfg.index {
                Some(i) => i,
                None => 0,
            },
        ))
    } else if str_equals(src, "serial") {
        match &cfg.serial {
            Some(s) => Some(DeviceSource::Serial(s.clone())),
            None => None,
        }
    } else if str_equals(src, "vid_pid") {
        let vid = parse_hex_u16(opt_str(&cfg.vid));
        let pid = parse_hex_u16(opt_str(&cfg.pid));
        match (vid, pid) {
            (Some(vid), Some(pid)) => Some(DeviceSource::VidPid { vid, pid }),
            _ => None,
        }
    } else {
        None
    }
}

// ── HTTP request bodies ────────────────────────────────────────────────────────

pub struct TuneRequest {
    /// Target receive frequency in Hz.
    pub freq_hz: u32,
}

/// Demodulation mode named in a mode request.
#[derive(Clone, Copy, Debug, PartialEq, Eq, Structural)]
pub enum ModeValue {
    Wfm,
    Nfm,
    AmDsb,
    AmUsb,
    AmLsb,
}

impl ModeValue {
    /// The pipeline mode a requested mode selects.
    pub fn pipeline_mode(self) -> (m: PipelineMode)
        ensures
            self == ModeValue::Wfm ==> m == PipelineMode::Wfm,
            self == ModeValue::Nfm ==> m == PipelineMode::Nfm,
            self == ModeValue::AmDsb ==> m == PipelineMode::AmDsb,
            self == ModeValue::AmUsb ==> m == PipelineMode::AmUsb,
            self == ModeValue::AmLsb ==> m == PipelineMode::AmLsb,
    {
        match self {
            ModeValue::Wfm => PipelineMode::Wfm,
            ModeValue::Nfm => PipelineMode::Nfm,
            ModeValue::AmDsb => PipelineMode::AmDsb,
            ModeValue::AmUsb => PipelineMode::AmUsb,
            ModeValue::AmLsb => PipelineMode::AmLsb,
        }
    }
}

pub struct ModeRequest {
    pub mode: ModeValue,
}

pub struct StereoRequest {
    pub enabled: bool,
}

} // verus!
