use vstd::prelude::*;

verus! {

/// Number of points in a display snapshot.
pub const WAVEFORM_LEN: usize = 512;

/// Stride through a block of `len` samples that spreads the snapshot over it.
pub open spec fn snapshot_step(len: int) -> int {
    if len / 512 >= 1 {
        len / 512
    } else {
        1
    }
}

/// Index of the sample shown at point `i` of the snapshot of a block of `len` samples.
pub open spec fn snapshot_index(i: int, len: int) -> int {
    if i * snapshot_step(len) <= len - 1 {
        i * snapshot_step(len)
    } else {
        len - 1
    }
}

/// The 512-point snapshot of a non-empty block.
pub open spec fn snapshot_of<T>(samples: Seq<T>) -> Seq<T> {
    Seq::new(512, |i: int| samples[snapshot_index(i, samples.len() as int)])
}

proof fn lemma_snapshot_index_in_range(i: int, len: int)
    requires
        0 <= i < 512,
        len >= 1,
    ensures
        0 <= i * snapshot_step(len),
        i * snapshot_step(len) <= len || i * snapshot_step(len) <= 511,
        0 <= snapshot_index(i, len) < len,
{
    let step = snapshot_step(len);
    if len / 512 >= 1 {
        assert(i * step <= 512 * (len / 512)) by (nonlinear_arith)
            requires 0 <= i < 512, step == len / 512, step >= 1;
        assert(512 * (len / 512) <= len) by (nonlinear_arith)
            requires len >= 1;
        assert(0 <= i * step) by (nonlinear_arith)
            requires 0 <= i, step >= 1;
    } else {
        assert(i * step == i);
    }
}

/// A snapshot spreads its 512 points evenly over the block: for a block of at
/// least 512 samples, point `i` shows sample `i * floor(len / 512)`, so past the
/// last point lie fewer than one stride plus 512 samples; a shorter block is
/// shown sample by sample, its last sample repeated.
pub proof fn lemma_snapshot_spans_block<T>(samples: Seq<T>)
    requires
        samples.len() >= 1,
    ensures
        snapshot_of(samples).len() == 512,
        samples.len() >= 512 ==> forall|i: int|
            0 <= i < 512 ==> #[trigger] snapshot_of(samples)[i] == samples[i * (samples.len() / 512)],
        samples.len() >= 512 ==> samples.len() - 511 * (samples.len() / 512) <= (samples.len() / 512) + 511,
        samples.len() < 512 ==> forall|i: int|
            0 <= i < 512 ==> #[trigger] snapshot_of(samples)[i] == samples[if i < samples.len() {
                i
            } else {
                samples.len() - 1
            }],
{
    let len = samples.len() as int;
    let q = len / 512;
    if len >= 512 {
        assert(q >= 1 && 512 * q <= len && len < 512 * q + 512) by (nonlinear_arith)
            requires len >= 512, q == len / 512;
        assert forall|i: int| 0 <= i < 512 implies #[trigger] snapshot_of(samples)[i] == samples[i * q] by {
            assert(i * q <= 511 * q) by (nonlinear_arith)
                requires 0 <= i < 512, q >= 1;
            assert(snapshot_step(len) == q);
        }
    } else {
        assert(q == 0) by (nonlinear_arith)
            requires 0 <= len < 512, q == len / 512;
        assert forall|i: int| 0 <= i < 512 implies #[trigger] snapshot_of(samples)[i] == samples[if i < len {
            i
        } else {
            len - 1
        }] by {
            assert(snapshot_step(len) == 1);
            assert(i * 1 == i);
        }
    }
}

/// Overwrites `slots` with the snapshot of `samples`.
fn snapshot_into<T: Copy>(slots: &mut Vec<T>, samples: &[T])
    requires
        old(slots)@.len() == 512,
        samples@.len() >= 1,
    ensures
        final(slots)@ == snapshot_of(samples@),
{
    let len = samples.len();
    let step = if len / 512 >= 1 {
        len / 512
    } else {
        1
    };
    let mut i: usize = 0;
    while i < 512
        invariant
            i <= 512,
            len == samples@.len(),
            len >= 1,
            step == snapshot_step(len as int),
            slots@.len() == 512,
            forall|j: int| 0 <= j < i ==> slots@[j] == #[trigger] snapshot_of(samples@)[j],
        decreases 512 - i,
    {
        proof {
            lemma_snapshot_index_in_range(i as int, len as int);
        }
        let prod = i * step;
        let idx = if prod < len - 1 {
            prod
        } else {
            len - 1
        };
        slots.set(i, samples[idx]);
        i = i + 1;
    }
    assert(slots@ =~= snapshot_of(samples@));
}

/// A copy of `v`.
fn copy_of<T: Copy>(v: &Vec<T>) -> (r: Vec<T>)
    ensures
        r@ == v@,
{
    let mut r: Vec<T> = Vec::with_capacity(v.len());
    let mut i: usize = 0;
    while i < v.len()
        invariant
            i <= v@.len(),
            r@ == v@.take(i as int),
        decreases v@.len() - i,
    {
        r.push(v[i]);
        i = i + 1;
        assert(r@ =~= v@.take(i as int));
    }
    assert(v@.take(v@.len() as int) =~= v@);
    r
}

/// Captures 512-sample display snapshots for two signal paths, each updated
/// opportunistically from data already in flight:
///   - IQ: raw RF samples, pre-demod (the display shows their envelope)
///   - Audio: post-demod PCM samples
pub struct WaveformStage<I, A> {
    iq_waveform: Vec<I>,
    iq_ready: bool,
    audio_waveform: Vec<A>,
    audio_ready: bool,
}

impl<I: Copy, A: Copy> WaveformStage<I, A> {
    pub closed spec fn iq(&self) -> Seq<I> {
        self.iq_waveform@
    }

    pub closed spec fn audio(&self) -> Seq<A> {
        self.audio_waveform@
    }

    pub closed spec fn iq_pending(&self) -> bool {
        self.iq_ready
    }

    pub closed spec fn audio_pending(&self) -> bool {
        self.audio_ready
    }

    /// Snapshots holding `iq_zero` and `audio_zero`, none pending.
    pub fn new(iq_zero: I, audio_zero: A) -> (w: Self)
        ensures
            w.iq() == Seq::new(512, |i: int| iq_zero),
            w.audio() == Seq::new(512, |i: int| audio_zero),
            w.wf(),
            !w.iq_pending(),
            !w.audio_pending(),
    {
        let mut iq_waveform: Vec<I> = Vec::with_capacity(512);
        let mut audio_waveform: Vec<A> = Vec::with_capacity(512);
        let mut i: usize = 0;
        while i < 512
            invariant
                i <= 512,
                iq_waveform@ == Seq::new(i as nat, |j: int| iq_zero),
                audio_waveform@ == Seq::new(i as nat, |j: int| audio_zero),
            decreases 512 - i,
        {
            iq_waveform.push(iq_zero);
            audio_waveform.push(audio_zero);
            i = i + 1;
            assert(iq_waveform@ =~= Seq::new(i as nat, |j: int| iq_zero));
            assert(audio_waveform@ =~= Seq::new(i as nat, |j: int| audio_zero));
        }
        Self { iq_waveform, iq_ready: false, audio_waveform, audio_ready: false }
    }

    pub closed spec fn wf(&self) -> bool {
        self.iq_waveform@.len() == 512 && self.audio_waveform@.len() == 512
    }

    /// Update the IQ snapshot from raw IQ samples (the block passed to the demod).
    pub fn update_iq(&mut self, iq: &[I])
        requires
            old(self).wf(),
        ensures
            final(self).wf(),
            iq@.len() == 0 ==> final(self).iq() == old(self).iq() && final(self).iq_pending()
                == old(self).iq_pending(),
            iq@.len() > 0 ==> final(self).iq() == snapshot_of(iq@) && final(self).iq_pending(),
            final(self).audio() == old(self).audio(),
            final(self).audio_pending() == old(self).audio_pending(),
    {
        if iq.len() == 0 {
            return;
        }
        snapshot_into(&mut self.iq_waveform, iq);
        self.iq_ready = true;
    }

    /// Update the audio snapshot from demod PCM output, striding through
    /// whatever PCM layout the active pipeline produces.
    pub fn update_audio(&mut self, pcm: &[A])
        requires
            old(self).wf(),
        ensures
            final(self).wf(),
            pcm@.len() == 0 ==> final(self).audio() == old(self).audio()
                && final(self).audio_pending() == old(self).audio_pending(),
            pcm@.len() > 0 ==> final(self).audio() == snapshot_of(pcm@) && final(self).audio_pending(),
            final(self).iq() == old(self).iq(),
            final(self).iq_pending() == old(self).iq_pending(),
    {
        if pcm.len() == 0 {
            return;
        }
        snapshot_into(&mut self.audio_waveform, pcm);
        self.audio_ready = true;
    }

    /// Returns the IQ snapshot and clears the ready flag; `None` if it was not
    /// updated since the last call.
    pub fn take_iq_waveform(&mut self) -> (r: Option<Vec<I>>)
        ensures
            old(self).iq_pending() <==> r is Some,
            r is Some ==> r->0@ == old(self).iq(),
            !final(self).iq_pending(),
            final(self).iq() == old(self).iq(),
            final(self).wf() == old(self).wf(),
            final(self).audio() == old(self).audio(),
            final(self).audio_pending() == old(self).audio_pending(),
    {
        if self.iq_ready {
            self.iq_ready = false;
            Some(copy_of(&self.iq_waveform))
        } else {
            None
        }
    }

    /// Returns the audio snapshot and clears the ready flag; `None` if it was
    /// not updated since the last call.
    pub fn take_audio_waveform(&mut self) -> (r: Option<Vec<A>>)
        ensures
            old(self).audio_pending() <==> r is Some,
            r is Some ==> r->0@ == old(self).audio(),
            !final(self).audio_pending(),
            final(self).audio() == old(self).audio(),
            final(self).wf() == old(self).wf(),
            final(self).iq() == old(self).iq(),
            final(self).iq_pending() == old(self).iq_pending(),
    {
        if self.audio_ready {
            self.audio_ready = false;
            Some(copy_of(&self.audio_waveform))
        } else {
            None
        }
    }
}

} // verus!
