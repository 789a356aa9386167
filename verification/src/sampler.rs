//! Windowed throughput sampling. A sampler owns the accumulation state
//! for exactly one byte stream: bytes of arriving chunks are added to
//! the current window, and whenever the elapsed time since the window
//! opened reaches the configured minimum interval, one `RateSample` is
//! emitted and the window restarts at that instant. Bytes of a window
//! that never fills stay in the sampler and are never emitted, so every
//! byte belongs to exactly one emitted sample or to the unflushed tail.

use vstd::prelude::*;

verus! {

/// One emitted throughput observation: how many bytes arrived over how
/// many elapsed nanoseconds.
#[derive(Clone, Copy, Debug, PartialEq, Eq, Structural)]
pub struct RateSample {
    pub bytes: u64,
    pub elapsed_ns: u64,
}

/// Ideal instantaneous rate of a sample, in whole bytes per second:
/// the byte count scaled to a full second of its elapsed time.
pub open spec fn rate_of(bytes: u64, elapsed_ns: u64) -> int
    recommends
        elapsed_ns > 0,
{
    (bytes * 1_000_000_000) / (elapsed_ns as int)
}

impl RateSample {
    /// The sample's rate in whole bytes per second, saturating at
    /// `u64::MAX` when the window was far shorter than a second.
    pub fn rate_bytes_per_sec(&self) -> (r: u64)
        requires
            self.elapsed_ns > 0,
        ensures
            ({
                let ideal = rate_of(self.bytes, self.elapsed_ns);
                if ideal > u64::MAX as int {
                    r == u64::MAX
                } else {
                    r == ideal
                }
            }),
    {
        proof {
            assert((self.bytes as int) * 1_000_000_000 <= (u64::MAX as int) * 1_000_000_000)
                by (nonlinear_arith)
                requires
                    self.bytes <= u64::MAX,
            ;
        }
        let scaled: u128 = (self.bytes as u128) * 1_000_000_000;
        let q: u128 = scaled / (self.elapsed_ns as u128);
        if q > u64::MAX as u128 {
            u64::MAX
        } else {
            q as u64
        }
    }
}

/// One chunk arrival: its size in bytes and the clock reading, in
/// nanoseconds, at which it was observed.
#[derive(Clone, Copy, Debug, PartialEq, Eq, Structural)]
pub struct Chunk {
    pub len: u64,
    pub at_ns: u64,
}

/// Window state for one stream: bytes accumulated since the current
/// window opened, the instant it opened, and the minimum elapsed time a
/// window must span before a sample is emitted.
#[derive(Clone, Copy, Debug, PartialEq, Eq, Structural)]
pub struct ThroughputSampler {
    pub accumulated_bytes: u64,
    pub window_start_ns: u64,
    pub min_update_interval_ns: u64,
}

/// Functional model of one chunk arrival: the chunk's bytes join the
/// window; if the elapsed time has reached the minimum interval, the
/// whole window is emitted and a fresh window opens at `now_ns`.
pub open spec fn step(s: ThroughputSampler, chunk_len: u64, now_ns: u64) -> (ThroughputSampler,
    Option<RateSample>) {
    let total: u64 = (s.accumulated_bytes + chunk_len) as u64;
    let elapsed: u64 = (now_ns - s.window_start_ns) as u64;
    if elapsed >= s.min_update_interval_ns {
        (
            ThroughputSampler {
                accumulated_bytes: 0,
                window_start_ns: now_ns,
                min_update_interval_ns: s.min_update_interval_ns,
            },
            Some(RateSample { bytes: total, elapsed_ns: elapsed }),
        )
    } else {
        (
            ThroughputSampler {
                accumulated_bytes: total,
                window_start_ns: s.window_start_ns,
                min_update_interval_ns: s.min_update_interval_ns,
            },
            None,
        )
    }
}

/// Functional model of a whole stream: chunks are folded through `step`
/// in arrival order and the emitted samples are collected in order.
pub open spec fn run(s: ThroughputSampler, chunks: Seq<Chunk>) -> (ThroughputSampler, Seq<
    RateSample,
>)
    decreases chunks.len(),
{
    if chunks.len() == 0 {
        (s, Seq::empty())
    } else {
        let first = step(s, chunks[0].len, chunks[0].at_ns);
        let rest = run(first.0, chunks.drop_first());
        match first.1 {
            Some(sample) => (rest.0, seq![sample] + rest.1),
            None => (rest.0, rest.1),
        }
    }
}

/// Total size of a chunk sequence.
pub open spec fn total_chunk_bytes(chunks: Seq<Chunk>) -> int
    decreases chunks.len(),
{
    if chunks.len() == 0 {
        0
    } else {
        chunks[0].len + total_chunk_bytes(chunks.drop_first())
    }
}

/// Total bytes reported across a sequence of samples.
pub open spec fn total_sample_bytes(samples: Seq<RateSample>) -> int
    decreases samples.len(),
{
    if samples.len() == 0 {
        0
    } else {
        samples[0].bytes + total_sample_bytes(samples.drop_first())
    }
}

/// A chunk sequence a sampler can meaningfully consume: arrival times
/// never precede the open window and never run backwards, and the total
/// byte count cannot overflow the accumulator.
pub open spec fn chunks_wf(s: ThroughputSampler, chunks: Seq<Chunk>) -> bool {
    &&& (chunks.len() > 0 ==> s.window_start_ns <= chunks[0].at_ns)
    &&& (forall|i: int|
        0 <= i < chunks.len() - 1 ==> #[trigger] chunks[i].at_ns <= chunks[i + 1].at_ns)
    &&& s.accumulated_bytes + total_chunk_bytes(chunks) <= u64::MAX
}

/// Consuming one chunk of a well-formed stream leaves a well-formed
/// remainder, and the consumed chunk itself met the sampler's clock and
/// accumulator bounds.
pub proof fn lemma_wf_step(s: ThroughputSampler, chunks: Seq<Chunk>)
    requires
        chunks_wf(s, chunks),
        chunks.len() > 0,
    ensures
        s.window_start_ns <= chunks[0].at_ns,
        s.accumulated_bytes + chunks[0].len <= u64::MAX,
        total_chunk_bytes(chunks.drop_first()) >= 0,
        chunks_wf(step(s, chunks[0].len, chunks[0].at_ns).0, chunks.drop_first()),
{
    lemma_total_chunk_bytes_nonneg(chunks.drop_first());
    let s1 = step(s, chunks[0].len, chunks[0].at_ns).0;
    let rest = chunks.drop_first();
    assert forall|i: int| 0 <= i < rest.len() - 1 implies #[trigger] rest[i].at_ns <= rest[i
        + 1].at_ns by {
        assert(chunks[i + 1].at_ns <= chunks[i + 2].at_ns);
    }
    if rest.len() > 0 {
        assert(chunks[0].at_ns <= chunks[1].at_ns);
        assert(s1.window_start_ns <= rest[0].at_ns);
    }
}

/// A chunk sequence never holds a negative number of bytes.
pub proof fn lemma_total_chunk_bytes_nonneg(chunks: Seq<Chunk>)
    ensures
        total_chunk_bytes(chunks) >= 0,
    decreases chunks.len(),
{
    if chunks.len() > 0 {
        lemma_total_chunk_bytes_nonneg(chunks.drop_first());
    }
}

/// Byte conservation over a whole stream: the bytes reported by the
/// emitted samples plus the bytes left in the final unflushed window
/// account exactly for every byte that arrived. In particular the sum
/// of emitted sample sizes never exceeds the stream's total size, and
/// the difference is exactly the trailing partial window.
pub proof fn lemma_run_conserves_bytes(s: ThroughputSampler, chunks: Seq<Chunk>)
    requires
        chunks_wf(s, chunks),
    ensures
        total_sample_bytes(run(s, chunks).1) + run(s, chunks).0.accumulated_bytes
            == s.accumulated_bytes + total_chunk_bytes(chunks),
    decreases chunks.len(),
{
    if chunks.len() > 0 {
        lemma_wf_step(s, chunks);
        let first = step(s, chunks[0].len, chunks[0].at_ns);
        let rest = chunks.drop_first();
        lemma_run_conserves_bytes(first.0, rest);
        match first.1 {
            Some(sample) => {
                let tail = run(first.0, rest).1;
                assert((seq![sample] + tail).drop_first() =~= tail);
                assert(total_sample_bytes(seq![sample] + tail) == sample.bytes
                    + total_sample_bytes(tail));
            },
            None => {},
        }
    }
}

/// No emitted sample spans less than the minimum update interval: a
/// window is only flushed once its elapsed time has reached it, and the
/// interval never changes over a run.
pub proof fn lemma_run_no_short_windows(s: ThroughputSampler, chunks: Seq<Chunk>)
    ensures
        run(s, chunks).0.min_update_interval_ns == s.min_update_interval_ns,
        forall|i: int|
            0 <= i < run(s, chunks).1.len() ==> (#[trigger] run(s, chunks).1[i]).elapsed_ns
                >= s.min_update_interval_ns,
    decreases chunks.len(),
{
    if chunks.len() > 0 {
        let first = step(s, chunks[0].len, chunks[0].at_ns);
        let rest = chunks.drop_first();
        lemma_run_no_short_windows(first.0, rest);
        let tail = run(first.0, rest).1;
        match first.1 {
            Some(sample) => {
                assert forall|i: int| 0 <= i < run(s, chunks).1.len() implies (#[trigger] run(
                    s,
                    chunks,
                ).1[i]).elapsed_ns >= s.min_update_interval_ns by {
                    if i > 0 {
                        assert(run(s, chunks).1[i] == tail[i - 1]);
                    }
                }
            },
            None => {},
        }
    }
}

/// Appending one chunk to a stream runs the stream first and then takes
/// one more step from its final state.
pub proof fn lemma_run_snoc(s: ThroughputSampler, chunks: Seq<Chunk>, c: Chunk)
    ensures
        run(s, chunks.push(c)).0 == step(run(s, chunks).0, c.len, c.at_ns).0,
        run(s, chunks.push(c)).1 =~= (match step(run(s, chunks).0, c.len, c.at_ns).1 {
            Some(sample) => run(s, chunks).1.push(sample),
            None => run(s, chunks).1,
        }),
    decreases chunks.len(),
{
    if chunks.len() == 0 {
        assert(chunks.push(c)[0] == c);
        assert(chunks.push(c).drop_first() =~= Seq::<Chunk>::empty());
        assert(chunks =~= Seq::<Chunk>::empty());
        let first = step(s, c.len, c.at_ns);
        assert(run(s, chunks).0 == s);
        assert(run(s, chunks).1 == Seq::<RateSample>::empty());
        assert(run(first.0, chunks.push(c).drop_first()).0 == first.0);
        assert(run(first.0, chunks.push(c).drop_first()).1 == Seq::<RateSample>::empty());
        match first.1 {
            Some(sample) => {
                assert(run(s, chunks.push(c)).1 == seq![sample] + Seq::<RateSample>::empty());
                assert(seq![sample] + Seq::<RateSample>::empty() =~= run(s, chunks).1.push(
                    sample,
                ));
            },
            None => {},
        }
    } else {
        assert(chunks.push(c)[0] == chunks[0]);
        assert(chunks.push(c).drop_first() =~= chunks.drop_first().push(c));
        let first = step(s, chunks[0].len, chunks[0].at_ns);
        lemma_run_snoc(first.0, chunks.drop_first(), c);
        let mid = run(first.0, chunks.drop_first());
        assert(run(s, chunks).0 == mid.0);
        assert(run(s, chunks.push(c)).0 == run(first.0, chunks.drop_first().push(c)).0);
        match first.1 {
            Some(sample) => {
                match step(mid.0, c.len, c.at_ns).1 {
                    Some(last) => {
                        assert(seq![sample] + mid.1.push(last) =~= (seq![sample] + mid.1).push(
                            last,
                        ));
                    },
                    None => {},
                }
            },
            None => {},
        }
    }
}

impl ThroughputSampler {
    /// Opens a sampler whose first window starts at `start_ns` and
    /// which emits one sample each time a window's elapsed time reaches
    /// `min_update_interval_ns`.
    pub fn new(start_ns: u64, min_update_interval_ns: u64) -> (r: ThroughputSampler)
        ensures
            r.accumulated_bytes == 0,
            r.window_start_ns == start_ns,
            r.min_update_interval_ns == min_update_interval_ns,
    {
        ThroughputSampler { accumulated_bytes: 0, window_start_ns: start_ns, min_update_interval_ns }
    }

    /// Feeds one arriving chunk to the sampler. The chunk's bytes join
    /// the current window; when the elapsed time since the window
    /// opened has reached the minimum interval, the whole window —
    /// current chunk included — is emitted as one sample and the window
    /// restarts at `now_ns`. Otherwise nothing is emitted and every
    /// byte stays accumulated for the next call.
    pub fn on_chunk(&mut self, chunk_len: u64, now_ns: u64) -> (r: Option<RateSample>)
        requires
            old(self).window_start_ns <= now_ns,
            old(self).accumulated_bytes + chunk_len <= u64::MAX,
        ensures
            *final(self) == step(*old(self), chunk_len, now_ns).0,
            r == step(*old(self), chunk_len, now_ns).1,
            r is Some ==> r.unwrap().elapsed_ns >= old(self).min_update_interval_ns,
            r is Some ==> r.unwrap().bytes == old(self).accumulated_bytes + chunk_len
                && final(self).accumulated_bytes == 0,
            r is None ==> final(self).accumulated_bytes == old(self).accumulated_bytes + chunk_len,
            final(self).min_update_interval_ns == old(self).min_update_interval_ns,
    {
        let total: u64 = self.accumulated_bytes + chunk_len;
        let elapsed: u64 = now_ns - self.window_start_ns;
        if elapsed >= self.min_update_interval_ns {
            self.accumulated_bytes = 0;
            self.window_start_ns = now_ns;
            Some(RateSample { bytes: total, elapsed_ns: elapsed })
        } else {
            self.accumulated_bytes = total;
            None
        }
    }

    /// Feeds a whole recorded stream of chunks, in arrival order, and
    /// collects every emitted sample in emission order. The final
    /// sampler state holds the bytes of the trailing window that never
    /// filled; they appear in no sample.
    pub fn process_chunks(&mut self, chunks: &Vec<Chunk>) -> (samples: Vec<RateSample>)
        requires
            chunks_wf(*old(self), chunks@),
        ensures
            *final(self) == run(*old(self), chunks@).0,
            samples@ == run(*old(self), chunks@).1,
    {
        let ghost start = *self;
        let mut samples: Vec<RateSample> = Vec::new();
        proof {
            assert(chunks@.take(0) =~= Seq::<Chunk>::empty());
            assert(chunks@.skip(0) =~= chunks@);
        }
        let n = chunks.len();
        let mut i: usize = 0;
        while i < n
            invariant
                n == chunks@.len(),
                0 <= i <= n,
                *self == run(start, chunks@.take(i as int)).0,
                samples@ == run(start, chunks@.take(i as int)).1,
                chunks_wf(*self, chunks@.skip(i as int)),
            decreases n - i,
        {
            let c = chunks[i];
            proof {
                lemma_wf_step(*self, chunks@.skip(i as int));
                assert(chunks@.skip(i as int)[0] == c);
                lemma_run_snoc(start, chunks@.take(i as int), c);
                assert(chunks@.take(i as int).push(c) =~= chunks@.take(i + 1));
                assert(chunks@.skip(i as int).drop_first() =~= chunks@.skip(i + 1));
            }
            let emitted = self.on_chunk(c.len, c.at_ns);
            match emitted {
                Some(sample) => samples.push(sample),
                None => {},
            }
            i += 1;
        }
        proof {
            assert(chunks@.take(n as int) =~= chunks@);
        }
        samples
    }
}

} // verus!
