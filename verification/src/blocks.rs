use vstd::prelude::*;

verus! {

// ── Rate planning ──────────────────────────────────────────────────────────────

/// The integer decimation from `rate_in` towards `rate_out`: their quotient,
/// at least 1.
pub open spec fn decimation_spec(rate_in: u32, rate_out: u32) -> usize {
    if rate_in / rate_out >= 1 {
        (rate_in / rate_out) as usize
    } else {
        1
    }
}

/// The decimation factor is the whole number of output samples' worth of
/// input in each output period: when the input rate is at least the output
/// rate, `d` output periods fit in the input rate and `d + 1` do not; a lower
/// input rate is not decimated (`d == 1`).
pub proof fn lemma_decimation_is_quotient(rate_in: u32, rate_out: u32)
    requires
        rate_out > 0,
    ensures
        rate_in >= rate_out ==> decimation_spec(rate_in, rate_out) * rate_out <= rate_in < (decimation_spec(
            rate_in,
            rate_out,
        ) + 1) * rate_out,
        rate_in < rate_out ==> decimation_spec(rate_in, rate_out) == 1,
{
    let q = rate_in / rate_out;
    let r = rate_in % rate_out;
    assert(q * rate_out + r == rate_in && 0 <= r < rate_out) by (nonlinear_arith)
        requires rate_out > 0, q == rate_in / rate_out, r == rate_in % rate_out;
    if rate_in >= rate_out {
        assert(q >= 1) by (nonlinear_arith)
            requires rate_out > 0, rate_in >= rate_out, q == rate_in / rate_out;
        assert((q + 1) * rate_out == q * rate_out + rate_out) by (nonlinear_arith);
    } else {
        assert(q == 0) by (nonlinear_arith)
            requires rate_out > 0, rate_in < rate_out, q == rate_in / rate_out, rate_in >= 0;
    }
}

/// Integer decimation factor from `rate_in` towards `rate_out` (at least 1).
pub fn decimation(rate_in: u32, rate_out: u32) -> (d: usize)
    requires
        rate_out > 0,
    ensures
        d == decimation_spec(rate_in, rate_out),
        d >= 1,
        d <= u32::MAX,
{
    let q = rate_in / rate_out;
    if q >= 1 {
        q as usize
    } else {
        1
    }
}

/// Rate after decimating `rate` by `decimation`.
pub fn decimated_rate(rate: u32, decimation: usize) -> (r: u32)
    requires
        1 <= decimation <= u32::MAX,
    ensures
        r == rate / (decimation as u32),
        r <= rate,
{
    rate / decimation as u32
}

// ── Squelch gate ───────────────────────────────────────────────────────────────

/// Squelch gate with hang time: audio passes while the signal is above the
/// threshold and for `hang_samples` output frames after it drops below.
pub struct SquelchGate {
    hang_samples: usize,
    hang_remaining: usize,
}

impl SquelchGate {
    pub closed spec fn hang(&self) -> usize {
        self.hang_samples
    }

    pub closed spec fn remaining(&self) -> usize {
        self.hang_remaining
    }

    /// A gate with no hang time.
    pub fn new() -> (g: Self)
        ensures
            g.hang() == 0,
            g.remaining() == 0,
    {
        Self { hang_samples: 0, hang_remaining: 0 }
    }

    /// Sets the hang time, in output frames.
    pub fn set_hang(&mut self, hang_samples: usize)
        ensures
            final(self).hang() == hang_samples,
            final(self).remaining() == old(self).remaining(),
    {
        self.hang_samples = hang_samples;
    }

    /// Gate decision for one block. A block above the threshold passes and
    /// restarts the hang time; a block below it passes only while hang time
    /// remains.
    pub fn gate(&mut self, below_threshold: bool) -> (pass: bool)
        ensures
            pass == (!below_threshold || old(self).remaining() > 0),
            final(self).hang() == old(self).hang(),
            final(self).remaining() == (if below_threshold {
                old(self).remaining()
            } else {
                old(self).hang()
            }),
    {
        if below_threshold {
            if self.hang_remaining == 0 {
                return false;
            }
        } else {
            self.hang_remaining = self.hang_samples;
        }
        true
    }

    /// Drains the hang counter by the number of frames just produced.
    pub fn consume(&mut self, frames: usize)
        ensures
            final(self).hang() == old(self).hang(),
            final(self).remaining() == (if old(self).remaining() > frames {
                old(self).remaining() - frames
            } else {
                0
            }),
    {
        self.hang_remaining = self.hang_remaining.saturating_sub(frames);
    }
}

/// Hang time left, starting from `remaining`, after below-threshold blocks
/// that produced the given numbers of output frames: each block drains it as
/// `consume` does.
pub open spec fn hang_after(remaining: int, frames: Seq<usize>) -> int
    decreases frames.len(),
{
    if frames.len() == 0 {
        remaining
    } else {
        let r = hang_after(remaining, frames.drop_last());
        if r > frames.last() {
            r - frames.last()
        } else {
            0
        }
    }
}

/// Once the level falls below the threshold, audio keeps passing until the
/// hang time's worth of frames has been produced, however the frames are cut
/// into blocks: the hang left is the hang time minus the frames produced, or
/// none once they reach it.
pub proof fn lemma_squelch_hang_time(hang: usize, frames: Seq<usize>)
    ensures
        hang_after(hang as int, frames) == (if crate::manager::blocks_total(frames) < hang {
            hang - crate::manager::blocks_total(frames)
        } else {
            0
        }),
    decreases frames.len(),
{
    if frames.len() > 0 {
        lemma_squelch_hang_time(hang, frames.drop_last());
        crate::manager::lemma_blocks_total_nonneg(frames.drop_last());
    }
}

/// Continuity of a tap change: a history holding the last `n` samples of an
/// input stream, cut down to `m` samples by `resize`, holds the last `m`
/// samples of that stream, the same history a filter with the new tap count
/// would hold after the same input (`extend` from a fresh history of `m`
/// samples keeps the last `m` samples of the zeros followed by the stream).
pub proof fn lemma_resize_keeps_continuity<T>(stream: Seq<T>, n: int, m: int, zero: T)
    requires
        0 <= m <= n <= stream.len(),
    ensures
        ({
            let kept = stream.subrange(stream.len() - n, stream.len() as int);
            let fresh = Seq::new(m as nat, |i: int| zero) + stream;
            &&& kept.subrange(n - m, n) == stream.subrange(stream.len() - m, stream.len() as int)
            &&& fresh.subrange(fresh.len() - m, fresh.len() as int) == stream.subrange(
                stream.len() - m,
                stream.len() as int,
            )
        }),
{
    let kept = stream.subrange(stream.len() - n, stream.len() as int);
    let fresh = Seq::new(m as nat, |i: int| zero) + stream;
    assert(kept.subrange(n - m, n) =~= stream.subrange(stream.len() - m, stream.len() as int));
    assert(fresh.subrange(fresh.len() - m, fresh.len() as int) =~= stream.subrange(
        stream.len() - m,
        stream.len() as int,
    ));
}

// ── Stereo switch ──────────────────────────────────────────────────────────────

/// A stereo on/off request: enabling is rejected while no pilot tone is
/// detected. Returns the new stereo setting and whether the request was accepted.
pub fn stereo_request(enabled: bool, pilot_detected: bool, current: bool) -> (r: (bool, bool))
    ensures
        r.1 == (!enabled || pilot_detected),
        r.0 == (if r.1 { enabled } else { current }),
{
    if enabled && !pilot_detected {
        return (current, false);
    }
    (enabled, true)
}

// ── Overlap-save history ───────────────────────────────────────────────────────

/// History of a block FIR stage: the last N-1 input samples (N taps), prepended
/// to each block so a stateless kernel produces one output per input sample.
pub struct OverlapHistory<T> {
    history: Vec<T>,
}

impl<T: Copy> OverlapHistory<T> {
    pub closed spec fn view(&self) -> Seq<T> {
        self.history@
    }

    /// History of `overlap` copies of `zero`.
    pub fn new(overlap: usize, zero: T) -> (h: Self)
        ensures
            h.view() == Seq::new(overlap as nat, |i: int| zero),
    {
        let mut history: Vec<T> = Vec::with_capacity(overlap);
        let mut i: usize = 0;
        while i < overlap
            invariant
                i <= overlap,
                history@ == Seq::new(i as nat, |j: int| zero),
            decreases overlap - i,
        {
            history.push(zero);
            i = i + 1;
            assert(history@ =~= Seq::new(i as nat, |j: int| zero));
        }
        Self { history }
    }

    /// History length for a filter of `taps` taps.
    pub fn overlap_for(taps: usize) -> (n: usize)
        ensures
            n == (if taps > 0 { taps - 1 } else { 0 }),
    {
        taps.saturating_sub(1)
    }

    pub fn len(&self) -> (n: usize)
        ensures
            n == self.view().len(),
    {
        self.history.len()
    }

    /// Changes the history length for a new tap count while keeping
    /// continuity: the newest samples are kept, and a longer history is
    /// padded with `zero` before them (the oldest end), as if the filter had
    /// seen silence before its input.
    pub fn resize(&mut self, overlap: usize, zero: T)
        ensures
            overlap <= old(self).view().len() ==> final(self).view() == old(self).view().subrange(
                old(self).view().len() - overlap,
                old(self).view().len() as int,
            ),
            overlap > old(self).view().len() ==> final(self).view() == Seq::new(
                (overlap - old(self).view().len()) as nat,
                |i: int| zero,
            ) + old(self).view(),
    {
        let len = self.history.len();
        let mut next: Vec<T> = Vec::with_capacity(overlap);
        if overlap <= len {
            let start = len - overlap;
            let mut k: usize = start;
            while k < len
                invariant
                    start <= k <= len,
                    len == self.history@.len(),
                    next@ == self.history@.subrange(start as int, k as int),
                decreases len - k,
            {
                next.push(self.history[k]);
                k = k + 1;
                assert(next@ =~= self.history@.subrange(start as int, k as int));
            }
        } else {
            let pad = overlap - len;
            let mut k: usize = 0;
            while k < pad
                invariant
                    k <= pad,
                    next@ == Seq::new(k as nat, |i: int| zero),
                decreases pad - k,
            {
                next.push(zero);
                k = k + 1;
                assert(next@ =~= Seq::new(k as nat, |i: int| zero));
            }
            let mut m: usize = 0;
            while m < len
                invariant
                    m <= len,
                    len == self.history@.len(),
                    pad == overlap - len,
                    next@ == Seq::new(pad as nat, |i: int| zero) + self.history@.take(m as int),
                decreases len - m,
            {
                next.push(self.history[m]);
                m = m + 1;
                assert(next@ =~= Seq::new(pad as nat, |i: int| zero) + self.history@.take(m as int));
            }
            assert(self.history@.take(len as int) =~= self.history@);
        }
        self.history = next;
    }

    /// Returns the history followed by `input` (the extended block fed to the
    /// kernel) and keeps its last `len()` samples as the new history.
    pub fn extend(&mut self, input: &[T]) -> (ext: Vec<T>)
        ensures
            ext@ == old(self).view() + input@,
            final(self).view() == ext@.subrange(
                ext@.len() - old(self).view().len(),
                ext@.len() as int,
            ),
    {
        let h = self.history.len();
        let mut ext: Vec<T> = Vec::new();
        let mut i: usize = 0;
        while i < h
            invariant
                i <= h,
                h == self.history@.len(),
                ext@ == self.history@.take(i as int),
            decreases h - i,
        {
            ext.push(self.history[i]);
            i = i + 1;
            assert(ext@ =~= self.history@.take(i as int));
        }
        let mut j: usize = 0;
        assert(self.history@.take(h as int) =~= self.history@);
        while j < input.len()
            invariant
                j <= input@.len(),
                h == self.history@.len(),
                ext@ == self.history@ + input@.take(j as int),
            decreases input@.len() - j,
        {
            ext.push(input[j]);
            j = j + 1;
            assert(ext@ =~= self.history@ + input@.take(j as int));
        }
        assert(input@.take(input@.len() as int) =~= input@);
        let ghost hist0 = self.history@;
        let start = ext.len() - h;
        let mut k: usize = 0;
        while k < h
            invariant
                k <= h,
                h == self.history@.len(),
                h == hist0.len(),
                ext@ == hist0 + input@,
                start == ext@.len() - h,
                start + h <= usize::MAX,
                forall|m: int| 0 <= m < k ==> #[trigger] self.history@[m] == ext@[start + m],
            decreases h - k,
        {
            self.history.set(k, ext[start + k]);
            k = k + 1;
        }
        assert forall|m: int| 0 <= m < h implies #[trigger] self.history@[m] == ext@.subrange(
            ext@.len() - h,
            ext@.len() as int,
        )[m] by {
            assert(self.history@[m] == ext@[start + m]);
        }
        assert(self.history@ =~= ext@.subrange(ext@.len() - h, ext@.len() as int));
        ext
    }
}

} // verus!
