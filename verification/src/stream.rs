use vstd::prelude::*;

verus! {

/// Capacity of the IQ ring buffer, in samples (1M samples).
pub const RING_BUFFER_SIZE: usize = 1024 * 1024;

/// Samples discarded after a hardware retune: ~100 ms at 2.048 MSPS, while the
/// tuner PLL and AGC re-settle.
pub const RETUNE_SETTLING_SAMPLES: usize = 204_800;

/// The most samples the ring can hold: one slot stays free to tell full from empty.
pub open spec fn ring_capacity() -> int {
    RING_BUFFER_SIZE - 1
}

/// The last `ring_capacity()` elements of `q` (all of `q` when it fits).
pub open spec fn keep_newest<T>(q: Seq<T>) -> Seq<T> {
    if q.len() > ring_capacity() {
        q.subrange(q.len() - ring_capacity(), q.len() as int)
    } else {
        q
    }
}

/// How many samples are dropped when `q` is forced into the ring.
pub open spec fn overflow_count<T>(q: Seq<T>) -> nat {
    if q.len() > ring_capacity() {
        (q.len() - ring_capacity()) as nat
    } else {
        0
    }
}

/// The read size a stream uses: the hardware's transfer size, or a smaller
/// requested one; a request above the hardware's capacity is clamped to it.
pub open spec fn resolve_read_size(hardware_read_size: usize, override_size: Option<usize>) -> usize {
    match override_size {
        None => hardware_read_size,
        Some(req) => if req <= hardware_read_size {
            req
        } else {
            hardware_read_size
        },
    }
}

pub open spec fn min_nat(a: int, b: int) -> int {
    if a <= b {
        a
    } else {
        b
    }
}

/// Ring buffer of IQ samples that absorbs the uneven cadence of USB bulk
/// transfers and hands samples out in arrival order. When full, the oldest
/// samples are overwritten. After a retune, the next samples to arrive are
/// discarded while the hardware settles.
pub struct IqStream<T> {
    ring: Vec<T>,
    write_pos: usize,
    read_pos: usize,
    overflows: u64,
    read_size: usize,
    /// Samples remaining to discard after a hardware retune.
    settling_samples: usize,
}

/// Physical slot of the `i`-th queued sample.
pub open spec fn slot(read_pos: int, i: int) -> int {
    if read_pos + i < RING_BUFFER_SIZE {
        read_pos + i
    } else {
        read_pos + i - RING_BUFFER_SIZE
    }
}

/// Number of queued samples between the two positions.
pub open spec fn queued(write_pos: int, read_pos: int) -> int {
    if write_pos >= read_pos {
        write_pos - read_pos
    } else {
        RING_BUFFER_SIZE - read_pos + write_pos
    }
}

impl<T> View for IqStream<T> {
    type V = Seq<T>;

    /// The queued samples, oldest first.
    closed spec fn view(&self) -> Seq<T> {
        Seq::new(
            queued(self.write_pos as int, self.read_pos as int) as nat,
            |i: int| self.ring@[slot(self.read_pos as int, i)],
        )
    }
}

proof fn lemma_next_pos(p: usize)
    requires
        p < RING_BUFFER_SIZE,
    ensures
        (p + 1) % (RING_BUFFER_SIZE as int) == slot(p as int, 1),
{
    lemma_advance_pos(p, 1);
}

proof fn lemma_advance_pos(p: usize, k: usize)
    requires
        p < RING_BUFFER_SIZE,
        k < RING_BUFFER_SIZE,
    ensures
        (p + k) % (RING_BUFFER_SIZE as int) == slot(p as int, k as int),
{
    let x = p + k;
    let m = RING_BUFFER_SIZE as int;
    if x < m {
        vstd::arithmetic::div_mod::lemma_fundamental_div_mod_converse(x as int, m, 0, x as int);
    } else {
        vstd::arithmetic::div_mod::lemma_fundamental_div_mod_converse(x as int, m, 1, x - m);
    }
}

proof fn lemma_slot_shift(w: int, r: int, k: int)
    requires
        0 <= w < RING_BUFFER_SIZE,
        0 <= r < RING_BUFFER_SIZE,
        0 <= k <= queued(w, r),
    ensures
        0 <= slot(r, k) < RING_BUFFER_SIZE,
        queued(w, slot(r, k)) == queued(w, r) - k,
        forall|i: int| 0 <= i < queued(w, r) - k ==> #[trigger] slot(slot(r, k), i) == slot(r, k + i),
{
}

proof fn lemma_keep_newest_push<T>(q: Seq<T>, x: T)
    ensures
        keep_newest(q).len() <= ring_capacity(),
        keep_newest(q).len() == ring_capacity() ==> keep_newest(q.push(x)) =~= keep_newest(q).drop_first().push(x)
            && overflow_count(q.push(x)) == overflow_count(q) + 1,
        keep_newest(q).len() < ring_capacity() ==> keep_newest(q.push(x)) =~= keep_newest(q).push(x)
            && overflow_count(q.push(x)) == overflow_count(q),
{
}

/// Below capacity nothing is lost: with no settling pending, the queue after a
/// fill is the old queue followed by the new samples in arrival order, and no
/// overflow is counted.
pub proof fn lemma_fill_below_capacity_keeps_all<T>(q: Seq<T>, samples: Seq<T>)
    requires
        q.len() + samples.len() <= ring_capacity(),
    ensures
        keep_newest(q + samples) == q + samples,
        overflow_count(q + samples) == 0,
{
}

/// The ring keeps the newest samples in arrival order: whatever stays queued
/// after a fill is a suffix of the old queue followed by the new samples, and
/// never exceeds the ring's capacity.
pub proof fn lemma_fill_keeps_newest_in_order<T>(q: Seq<T>, samples: Seq<T>, settling: nat)
    ensures
        ({
            let all = q + samples;
            let kept = keep_newest(all);
            let rest = kept.skip(min_nat(settling as int, kept.len() as int));
            &&& rest.len() <= ring_capacity()
            &&& rest == all.skip(all.len() - rest.len())
        }),
{
    let all = q + samples;
    let kept = keep_newest(all);
    let rest = kept.skip(min_nat(settling as int, kept.len() as int));
    assert(rest =~= all.skip(all.len() - rest.len()));
}

/// Every sample handed to a fill is accounted for exactly once: it stays
/// queued, is overwritten because the ring was full, or is discarded while the
/// hardware settles.
pub proof fn lemma_fill_accounts_for_every_sample<T>(q: Seq<T>, samples: Seq<T>, settling: nat)
    ensures
        ({
            let kept = keep_newest(q + samples);
            let skipped = min_nat(settling as int, kept.len() as int);
            kept.skip(skipped).len() + overflow_count(q + samples) + skipped == q.len() + samples.len()
        }),
{
}

/// After a retune the first samples to arrive are discarded, up to the settling
/// count, and the ones after them are kept: filling an empty stream that is
/// still settling queues exactly the samples past the settling count, and the
/// count drops by the number discarded.
pub proof fn lemma_settling_discards_first_arrivals<T>(samples: Seq<T>, settling: nat)
    requires
        samples.len() <= ring_capacity(),
    ensures
        ({
            let kept = keep_newest(Seq::<T>::empty() + samples);
            let skipped = min_nat(settling as int, kept.len() as int);
            &&& kept.skip(skipped) == samples.skip(min_nat(settling as int, samples.len() as int))
            &&& settling - skipped == (if settling > samples.len() {
                settling - samples.len()
            } else {
                0
            })
        }),
{
    assert(Seq::<T>::empty() + samples =~= samples);
}

/// The queue and the settling count after one fill of `samples` into a queue
/// `q` with `settling` samples still to discard.
pub open spec fn fill_result<T>(q: Seq<T>, settling: nat, samples: Seq<T>) -> (Seq<T>, nat) {
    let kept = keep_newest(q + samples);
    let skipped = min_nat(settling as int, kept.len() as int);
    (kept.skip(skipped), (settling - skipped) as nat)
}

/// The queue and the settling count after a run of fills, one per block.
pub open spec fn fills_result<T>(q: Seq<T>, settling: nat, blocks: Seq<Seq<T>>) -> (Seq<T>, nat)
    decreases blocks.len(),
{
    if blocks.len() == 0 {
        (q, settling)
    } else {
        let prev = fills_result(q, settling, blocks.drop_last());
        fill_result(prev.0, prev.1, blocks.last())
    }
}

/// The samples of a run of blocks, in arrival order.
pub open spec fn concat_blocks<T>(blocks: Seq<Seq<T>>) -> Seq<T>
    decreases blocks.len(),
{
    if blocks.len() == 0 {
        Seq::empty()
    } else {
        concat_blocks(blocks.drop_last()) + blocks.last()
    }
}

/// Settling holds across fills: after a retune of an empty stream, however
/// the arriving samples are split into fills (without a drain in between, and
/// fewer in all than the ring holds), the first `settling` samples are
/// discarded and the later ones stay queued in arrival order; the settling
/// count drops by the number discarded.
pub proof fn lemma_settling_across_fills<T>(settling: nat, blocks: Seq<Seq<T>>)
    requires
        concat_blocks(blocks).len() <= ring_capacity(),
    ensures
        fills_result(Seq::<T>::empty(), settling, blocks) == ({
            let all = concat_blocks(blocks);
            let skipped = min_nat(settling as int, all.len() as int);
            (all.skip(skipped), (settling - skipped) as nat)
        }),
    decreases blocks.len(),
{
    if blocks.len() > 0 {
        let init = blocks.drop_last();
        let b = blocks.last();
        assert(concat_blocks(blocks) == concat_blocks(init) + b);
        lemma_settling_across_fills::<T>(settling, init);
        let before = concat_blocks(init);
        let all = concat_blocks(blocks);
        let prev = fills_result(Seq::<T>::empty(), settling, init);
        assert(keep_newest(prev.0 + b) == prev.0 + b);
        if settling >= before.len() {
            assert(prev.0 =~= Seq::<T>::empty());
            assert(prev.0 + b =~= b);
            assert(b.skip(min_nat(prev.1 as int, b.len() as int)) =~= all.skip(
                min_nat(settling as int, all.len() as int),
            ));
        } else {
            assert(prev.1 == 0);
            assert(prev.0 + b =~= all.skip(settling as int));
            assert((prev.0 + b).skip(0) =~= prev.0 + b);
        }
    } else {
        assert(Seq::<T>::empty().skip(0) =~= Seq::<T>::empty());
    }
}

impl<T: Copy> IqStream<T> {
    pub closed spec fn wf(&self) -> bool {
        &&& self.ring@.len() == RING_BUFFER_SIZE
        &&& self.write_pos < RING_BUFFER_SIZE
        &&& self.read_pos < RING_BUFFER_SIZE
    }

    pub closed spec fn settling(&self) -> usize {
        self.settling_samples
    }

    pub closed spec fn overflow_total(&self) -> u64 {
        self.overflows
    }

    pub closed spec fn read_size_spec(&self) -> usize {
        self.read_size
    }

    /// A stream with an empty ring whose slots hold `zero`; `override_size`
    /// requests a smaller read size than the hardware's transfer size.
    pub fn new(zero: T, hardware_read_size: usize, override_size: Option<usize>) -> (s: Self)
        ensures
            s.wf(),
            s@ == Seq::<T>::empty(),
            s.read_size_spec() == resolve_read_size(hardware_read_size, override_size),
            s.overflow_total() == 0,
            s.settling() == 0,
    {
        let read_size = match override_size {
            None => hardware_read_size,
            Some(req) => if req <= hardware_read_size {
                req
            } else {
                hardware_read_size
            },
        };
        let s = Self {
            ring: vec![zero; RING_BUFFER_SIZE],
            write_pos: 0,
            read_pos: 0,
            overflows: 0,
            read_size,
            settling_samples: 0,
        };
        assert(s@ =~= Seq::<T>::empty());
        s
    }

    /// Number of samples ready to be drained.
    pub fn available(&self) -> (n: usize)
        requires
            self.wf(),
        ensures
            n == self@.len(),
    {
        if self.write_pos >= self.read_pos {
            self.write_pos - self.read_pos
        } else {
            RING_BUFFER_SIZE - self.read_pos + self.write_pos
        }
    }

    /// Number of samples lost so far because the ring was full.
    pub fn overflows(&self) -> (n: u64)
        ensures
            n == self.overflow_total(),
    {
        self.overflows
    }

    /// Number of samples asked of the hardware per transfer.
    pub fn read_size(&self) -> (n: usize)
        ensures
            n == self.read_size_spec(),
    {
        self.read_size
    }

    /// Number of incoming samples still to be discarded after a retune.
    pub fn settling_samples(&self) -> (n: usize)
        ensures
            n == self.settling(),
    {
        self.settling_samples
    }

    /// Signal that the hardware has just been retuned: the next
    /// `RETUNE_SETTLING_SAMPLES` samples to arrive are discarded.
    pub fn mark_retuned(&mut self)
        ensures
            final(self)@ == old(self)@,
            final(self).wf() == old(self).wf(),
            final(self).settling() == RETUNE_SETTLING_SAMPLES,
            final(self).overflow_total() == old(self).overflow_total(),
            final(self).read_size_spec() == old(self).read_size_spec(),
    {
        self.settling_samples = 204_800;
    }

    /// Discards every queued sample.
    pub fn flush(&mut self)
        requires
            old(self).wf(),
        ensures
            final(self)@ == Seq::<T>::empty(),
            final(self).wf(),
            final(self).settling() == old(self).settling(),
            final(self).overflow_total() == old(self).overflow_total(),
            final(self).read_size_spec() == old(self).read_size_spec(),
    {
        self.read_pos = self.write_pos;
        assert(self@ =~= Seq::<T>::empty());
    }

    /// Appends one sample, overwriting the oldest one when the ring is full.
    fn push_sample(&mut self, sample: T)
        requires
            old(self).wf(),
            old(self).overflows < u64::MAX,
        ensures
            final(self).wf(),
            old(self)@.len() == ring_capacity() ==> final(self)@ == old(self)@.drop_first().push(sample)
                && final(self).overflows == old(self).overflows + 1,
            old(self)@.len() < ring_capacity() ==> final(self)@ == old(self)@.push(sample)
                && final(self).overflows == old(self).overflows,
            final(self).settling_samples == old(self).settling_samples,
            final(self).read_size == old(self).read_size,
    {
        let ghost w0 = self.write_pos as int;
        let ghost r0 = self.read_pos as int;
        let ghost len0 = queued(w0, r0);
        proof {
            lemma_next_pos(self.write_pos);
            lemma_next_pos(self.read_pos);
        }
        let next = (self.write_pos + 1) % RING_BUFFER_SIZE;
        if next == self.read_pos {
            self.overflows += 1;
            self.read_pos = (self.read_pos + 1) % RING_BUFFER_SIZE;
        }
        self.ring.set(self.write_pos, sample);
        self.write_pos = next;
        proof {
            assert(w0 == slot(r0, len0));
            if len0 == ring_capacity() {
                assert(self@ =~= old(self)@.drop_first().push(sample));
            } else {
                assert(self@ =~= old(self)@.push(sample));
            }
        }
    }

    /// Moves incoming samples into the ring (overwriting the oldest ones when
    /// it is full), then discards samples still owed to post-retune settling.
    /// Returns the number of samples received.
    pub fn fill(&mut self, samples: &[T]) -> (n: usize)
        requires
            old(self).wf(),
            old(self).overflow_total() + samples@.len() <= u64::MAX,
        ensures
            final(self).wf(),
            n == samples@.len(),
            final(self)@ == fill_result(old(self)@, old(self).settling() as nat, samples@).0,
            final(self).settling() == fill_result(old(self)@, old(self).settling() as nat, samples@).1,
            final(self).overflow_total() == old(self).overflow_total() + overflow_count(old(self)@ + samples@),
            final(self).read_size_spec() == old(self).read_size_spec(),
    {
        let samples_written = samples.len();
        let mut i: usize = 0;
        assert(old(self)@ + samples@.take(0) =~= old(self)@);
        assert(keep_newest(old(self)@) == old(self)@);
        assert(old(self)@.len() <= ring_capacity());
        while i < samples_written
            invariant
                old(self)@.len() <= ring_capacity(),
                i <= samples_written,
                samples_written == samples@.len(),
                self.wf(),
                self@ == keep_newest(old(self)@ + samples@.take(i as int)),
                self.overflows == old(self).overflows + overflow_count(old(self)@ + samples@.take(i as int)),
                old(self).overflows + samples@.len() <= u64::MAX,
                self.settling_samples == old(self).settling_samples,
                self.read_size == old(self).read_size,
            decreases samples_written - i,
        {
            let ghost q = old(self)@ + samples@.take(i as int);
            proof {
                lemma_keep_newest_push(q, samples@[i as int]);
                assert(q.push(samples@[i as int]) =~= old(self)@ + samples@.take(i + 1));
                assert(overflow_count(q) <= i);
            }
            self.push_sample(samples[i]);
            i = i + 1;
        }
        assert(samples@.take(samples_written as int) =~= samples@);
        // Discard post-retune settling samples as they arrive.
        if self.settling_samples > 0 {
            let avail = self.available();
            let to_skip = if self.settling_samples < avail {
                self.settling_samples
            } else {
                avail
            };
            let ghost before = self@;
            proof {
                lemma_advance_pos(self.read_pos, to_skip);
            }
            self.read_pos = (self.read_pos + to_skip) % RING_BUFFER_SIZE;
            self.settling_samples -= to_skip;
            assert(self@ =~= before.skip(to_skip as int));
        } else {
            assert(self@.skip(0) =~= self@);
        }
        samples_written
    }

    /// Removes and returns up to `count` of the oldest queued samples.
    pub fn drain(&mut self, count: usize) -> (out: Vec<T>)
        requires
            old(self).wf(),
        ensures
            final(self).wf(),
            out@ == old(self)@.take(min_nat(count as int, old(self)@.len() as int)),
            final(self)@ == old(self)@.skip(min_nat(count as int, old(self)@.len() as int)),
            final(self).settling() == old(self).settling(),
            final(self).overflow_total() == old(self).overflow_total(),
            final(self).read_size_spec() == old(self).read_size_spec(),
    {
        let available = self.available();
        let to_read = if count < available {
            count
        } else {
            available
        };
        let mut out: Vec<T> = Vec::with_capacity(to_read);
        let mut j: usize = 0;
        assert(old(self)@.skip(0) =~= old(self)@);
        while j < to_read
            invariant
                j <= to_read,
                to_read <= old(self)@.len(),
                self.wf(),
                out@ == old(self)@.take(j as int),
                self@ == old(self)@.skip(j as int),
                self.write_pos == old(self).write_pos,
                self.ring == old(self).ring,
                self.settling_samples == old(self).settling_samples,
                self.overflows == old(self).overflows,
                self.read_size == old(self).read_size,
            decreases to_read - j,
        {
            let ghost before = self@;
            let ghost r0 = self.read_pos as int;
            assert(before.len() > 0);
            assert(slot(r0, 0) == r0);
            assert(before[0] == self.ring@[r0]);
            out.push(self.ring[self.read_pos]);
            proof {
                lemma_next_pos(self.read_pos);
                lemma_slot_shift(self.write_pos as int, r0, 1);
            }
            self.read_pos = (self.read_pos + 1) % RING_BUFFER_SIZE;
            assert(self@ =~= before.drop_first());
            j = j + 1;
            assert(out@ =~= old(self)@.take(j as int));
            assert(self@ =~= old(self)@.skip(j as int));
        }
        out
    }
}

} // verus!
