use dslreports::Chunk;
use dslreports::RateSample;
use dslreports::ThroughputSampler;

#[test]
fn uniform_stream_emits_two_full_windows_and_drops_the_tail() {
    // 5,000,000 bytes arrive uniformly over 2.5 s: 50 chunks of
    // 100,000 bytes, one every 50 ms, against a 1 s minimum interval.
    let mut sampler = ThroughputSampler::new(0, 1_000_000_000);
    let mut chunks: Vec<Chunk> = Vec::new();
    for i in 0..50u64 {
        chunks.push(Chunk { len: 100_000, at_ns: (i + 1) * 50_000_000 });
    }
    let samples = sampler.process_chunks(&chunks);
    assert_eq!(
        samples,
        vec![
            RateSample { bytes: 2_000_000, elapsed_ns: 1_000_000_000 },
            RateSample { bytes: 2_000_000, elapsed_ns: 1_000_000_000 },
        ]
    );
    // Every byte is accounted for: two emitted windows plus the
    // trailing partial window that was never flushed.
    let emitted: u64 = samples.iter().map(|s| s.bytes).sum();
    assert_eq!(emitted, 4_000_000);
    assert_eq!(sampler.accumulated_bytes, 1_000_000);
    assert_eq!(emitted + sampler.accumulated_bytes, 5_000_000);
}

#[test]
fn no_sample_before_the_minimum_interval() {
    let mut sampler = ThroughputSampler::new(0, 1_000_000_000);
    assert_eq!(sampler.on_chunk(4_096, 250_000_000), None);
    assert_eq!(sampler.on_chunk(4_096, 999_999_999), None);
    let emitted = sampler.on_chunk(4_096, 1_000_000_000);
    assert_eq!(emitted, Some(RateSample { bytes: 12_288, elapsed_ns: 1_000_000_000 }));
}

#[test]
fn emitted_window_includes_the_triggering_chunk_and_resets() {
    let mut sampler = ThroughputSampler::new(100, 50);
    assert_eq!(sampler.on_chunk(10, 120), None);
    let emitted = sampler.on_chunk(5, 160);
    assert_eq!(emitted, Some(RateSample { bytes: 15, elapsed_ns: 60 }));
    assert_eq!(sampler.accumulated_bytes, 0);
    assert_eq!(sampler.window_start_ns, 160);
    // The next window is measured from the emission instant.
    assert_eq!(sampler.on_chunk(7, 200), None);
    assert_eq!(sampler.accumulated_bytes, 7);
}

#[test]
fn exact_multiple_stream_leaves_nothing_undelivered() {
    let mut sampler = ThroughputSampler::new(0, 100);
    let chunks = vec![
        Chunk { len: 500, at_ns: 100 },
        Chunk { len: 500, at_ns: 200 },
    ];
    let samples = sampler.process_chunks(&chunks);
    assert_eq!(
        samples,
        vec![
            RateSample { bytes: 500, elapsed_ns: 100 },
            RateSample { bytes: 500, elapsed_ns: 100 },
        ]
    );
    assert_eq!(sampler.accumulated_bytes, 0);
}

#[test]
fn stream_ending_before_the_first_window_emits_nothing() {
    let mut sampler = ThroughputSampler::new(0, 1_000_000_000);
    let chunks = vec![
        Chunk { len: 1_000, at_ns: 100_000_000 },
        Chunk { len: 2_000, at_ns: 200_000_000 },
    ];
    let samples = sampler.process_chunks(&chunks);
    assert!(samples.is_empty());
    assert_eq!(sampler.accumulated_bytes, 3_000);
}

#[test]
fn empty_stream_emits_nothing() {
    let mut sampler = ThroughputSampler::new(7, 100);
    let samples = sampler.process_chunks(&Vec::new());
    assert!(samples.is_empty());
    assert_eq!(sampler.accumulated_bytes, 0);
}

#[test]
fn rate_is_bytes_scaled_to_one_second() {
    let sample = RateSample { bytes: 2_000_000, elapsed_ns: 1_000_000_000 };
    assert_eq!(sample.rate_bytes_per_sec(), 2_000_000);
    let half_second = RateSample { bytes: 2_000_000, elapsed_ns: 500_000_000 };
    assert_eq!(half_second.rate_bytes_per_sec(), 4_000_000);
    let slow = RateSample { bytes: 1, elapsed_ns: 3_000_000_000 };
    assert_eq!(slow.rate_bytes_per_sec(), 0);
}

#[test]
fn rate_saturates_instead_of_overflowing() {
    let sample = RateSample { bytes: u64::MAX, elapsed_ns: 1 };
    assert_eq!(sample.rate_bytes_per_sec(), u64::MAX);
}
