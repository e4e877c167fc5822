use vstd::prelude::*;

verus! {

/// Output samples discarded after a hardware retune while the PLL and AGC settle.
pub const RETUNE_DISCARD_SAMPLES: usize = 204_800;

/// PCM elements over which a mode switch blends the outgoing and incoming
/// demodulators (~1024 stereo frames).
pub const MODE_CROSSFADE_LEN: usize = 2048;

/// Transition state of the pipeline manager; `D` is the demodulator type.
pub enum PipelineState<D> {
    Stable,
    /// Hardware just retuned; discard this many samples while PLL/AGC settle.
    Retuning { samples_remaining: usize },
    /// Two demodulators running simultaneously; outputs blended over
    /// `crossfade_len` PCM elements. `outgoing` is the one being replaced.
    CrossfadingMode { outgoing: D, progress: usize, crossfade_len: usize },
}

/// The state left after a block of `block_len` samples while `samples_remaining`
/// are still to be discarded: the block is discarded (up to what remains), and
/// the pipeline is stable again once nothing remains.
pub open spec fn after_discard<D>(samples_remaining: usize, block_len: usize) -> PipelineState<D> {
    if samples_remaining > block_len {
        PipelineState::Retuning { samples_remaining: (samples_remaining - block_len) as usize }
    } else {
        PipelineState::Stable
    }
}

/// Total length of a run of blocks.
pub open spec fn blocks_total(blocks: Seq<usize>) -> int
    decreases blocks.len(),
{
    if blocks.len() == 0 {
        0
    } else {
        blocks_total(blocks.drop_last()) + blocks.last()
    }
}

/// The state after processing a run of blocks from `s`: each block is
/// discarded while retuning; other states are left alone by plain blocks.
pub open spec fn state_after_blocks<D>(s: PipelineState<D>, blocks: Seq<usize>) -> PipelineState<D>
    decreases blocks.len(),
{
    if blocks.len() == 0 {
        s
    } else {
        match state_after_blocks(s, blocks.drop_last()) {
            PipelineState::Retuning { samples_remaining } => after_discard(samples_remaining, blocks.last()),
            other => other,
        }
    }
}

/// After a retune, exactly the settling count of samples is discarded however
/// the input is cut into blocks: the pipeline is stable again once the blocks
/// seen add up to it, and until then still owes the difference.
pub proof fn lemma_retune_discards_exact_count<D>(samples_remaining: usize, blocks: Seq<usize>)
    requires
        samples_remaining > 0,
    ensures
        state_after_blocks(PipelineState::<D>::Retuning { samples_remaining }, blocks) == (if blocks_total(
            blocks,
        ) >= samples_remaining {
            PipelineState::<D>::Stable
        } else {
            PipelineState::<D>::Retuning { samples_remaining: (samples_remaining - blocks_total(blocks)) as usize }
        }),
    decreases blocks.len(),
{
    if blocks.len() > 0 {
        lemma_retune_discards_exact_count::<D>(samples_remaining, blocks.drop_last());
        lemma_blocks_total_nonneg(blocks.drop_last());
    }
}

pub(crate) proof fn lemma_blocks_total_nonneg(blocks: Seq<usize>)
    ensures
        blocks_total(blocks) >= 0,
    decreases blocks.len(),
{
    if blocks.len() > 0 {
        lemma_blocks_total_nonneg(blocks.drop_last());
    }
}

/// The state after blending `blended` more PCM elements of a crossfade that
/// had reached `progress` of `crossfade_len`: stable once the length is
/// reached, otherwise still crossfading with the progress advanced.
pub open spec fn after_blend<D>(outgoing: D, progress: usize, crossfade_len: usize, blended: usize) -> PipelineState<D> {
    if progress + blended >= crossfade_len {
        PipelineState::Stable
    } else {
        PipelineState::CrossfadingMode { outgoing, progress: (progress + blended) as usize, crossfade_len }
    }
}

/// The state after a run of blocks during a crossfade, each blending the
/// given number of PCM elements.
pub open spec fn crossfade_after_blocks<D>(s: PipelineState<D>, blended: Seq<usize>) -> PipelineState<D>
    decreases blended.len(),
{
    if blended.len() == 0 {
        s
    } else {
        match crossfade_after_blocks(s, blended.drop_last()) {
            PipelineState::CrossfadingMode { outgoing, progress, crossfade_len } => after_blend(
                outgoing,
                progress,
                crossfade_len,
                blended.last(),
            ),
            other => other,
        }
    }
}

/// A mode crossfade ends exactly when the blended output adds up to its
/// length, however the output is cut into blocks; until then it keeps the
/// outgoing demodulator and the summed progress.
pub proof fn lemma_crossfade_completes_after_len<D>(
    outgoing: D,
    progress: usize,
    crossfade_len: usize,
    blended: Seq<usize>,
)
    requires
        progress < crossfade_len,
        progress + blocks_total(blended) <= usize::MAX,
    ensures
        crossfade_after_blocks(
            PipelineState::CrossfadingMode { outgoing, progress, crossfade_len },
            blended,
        ) == (if progress + blocks_total(blended) >= crossfade_len {
            PipelineState::<D>::Stable
        } else {
            PipelineState::CrossfadingMode {
                outgoing,
                progress: (progress + blocks_total(blended)) as usize,
                crossfade_len,
            }
        }),
    decreases blended.len(),
{
    if blended.len() > 0 {
        lemma_blocks_total_nonneg(blended.drop_last());
        lemma_crossfade_completes_after_len(outgoing, progress, crossfade_len, blended.drop_last());
    }
}

impl<D> PipelineState<D> {
    /// The state after a hardware retune: always `Retuning` with the full
    /// settling count. The flag reports whether a crossfade was in progress,
    /// in which case the incoming demodulator's AGC must be unfrozen.
    pub fn retuned(self) -> (r: (Self, bool))
        ensures
            r.0 == (PipelineState::<D>::Retuning { samples_remaining: RETUNE_DISCARD_SAMPLES }),
            r.1 == (self is CrossfadingMode),
    {
        let was_crossfading = match self {
            PipelineState::CrossfadingMode { .. } => true,
            _ => false,
        };
        (PipelineState::Retuning { samples_remaining: 204_800 }, was_crossfading)
    }

    /// The state that starts a mode switch: a crossfade from `outgoing` over
    /// `MODE_CROSSFADE_LEN` PCM elements, from the beginning.
    pub fn begin_crossfade(outgoing: D) -> (s: Self)
        ensures
            s == (PipelineState::CrossfadingMode { outgoing, progress: 0, crossfade_len: MODE_CROSSFADE_LEN }),
    {
        PipelineState::CrossfadingMode { outgoing, progress: 0, crossfade_len: 2048 }
    }

    /// Discards a block of `block_len` samples while retuning.
    pub fn discard_block(samples_remaining: usize, block_len: usize) -> (s: Self)
        ensures
            s == after_discard::<D>(samples_remaining, block_len),
    {
        let to_discard = if samples_remaining < block_len {
            samples_remaining
        } else {
            block_len
        };
        let samples_remaining = samples_remaining - to_discard;
        if samples_remaining > 0 {
            PipelineState::Retuning { samples_remaining }
        } else {
            PipelineState::Stable
        }
    }

    /// Advances a crossfade by `blended` PCM elements. Returns the next state
    /// and whether the crossfade completed (the incoming AGC is then unfrozen
    /// and the outgoing demodulator dropped).
    pub fn advance_crossfade(outgoing: D, progress: usize, crossfade_len: usize, blended: usize) -> (r: (
        Self,
        bool,
    ))
        requires
            progress + blended <= usize::MAX,
        ensures
            r.1 == (progress + blended >= crossfade_len),
            r.0 == after_blend(outgoing, progress, crossfade_len, blended),
    {
        let progress = progress + blended;
        if progress >= crossfade_len {
            (PipelineState::Stable, true)
        } else {
            (PipelineState::CrossfadingMode { outgoing, progress, crossfade_len }, false)
        }
    }
}

} // verus!
