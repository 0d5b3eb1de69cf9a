use aus_vs_hound::kind::BenchKind;
use aus_vs_hound::schedule::kind_schedule;
use aus_vs_hound::schedule::{bench_schedule, BenchStep};
use aus_vs_hound::samples::{
    byte_sum, chunk_spans, chunk_writes, interleave, read_chunk_frames, wav_data_span,
};

#[test]
fn interleave_repeats_each_frame_per_channel() {
    assert_eq!(interleave(&vec![1i16, 2, 3], 2), vec![1, 1, 2, 2, 3, 3]);
    assert_eq!(interleave(&vec![7u8], 3), vec![7, 7, 7]);
    assert_eq!(interleave(&vec![1i32, 2], 1), vec![1, 2]);
    assert!(interleave(&vec![1i32, 2], 0).is_empty());
    assert!(interleave(&Vec::<i8>::new(), 2).is_empty());
}

fn chunk(tag: &[u8; 4], body: &[u8]) -> Vec<u8> {
    let mut c = tag.to_vec();
    c.extend_from_slice(&(body.len() as u32).to_le_bytes());
    c.extend_from_slice(body);
    if body.len() % 2 == 1 {
        c.push(0);
    }
    c
}

fn wav(chunks: &[Vec<u8>]) -> Vec<u8> {
    let body: Vec<u8> = chunks.concat();
    let mut w = b"RIFF".to_vec();
    w.extend_from_slice(&((body.len() + 4) as u32).to_le_bytes());
    w.extend_from_slice(b"WAVE");
    w.extend_from_slice(&body);
    w
}

#[test]
fn data_span_of_canonical_header() {
    let w = wav(&[chunk(b"fmt ", &[0u8; 16]), chunk(b"data", &[7u8; 40])]);
    assert_eq!(wav_data_span(&w), Some((44, 84)));
}

#[test]
fn data_span_ignores_trailing_chunks() {
    let w = wav(&[chunk(b"fmt ", &[0u8; 16]), chunk(b"data", &[7u8; 40]), chunk(b"LIST", &[1u8; 8])]);
    assert_eq!(w.len(), 100);
    assert_eq!(wav_data_span(&w), Some((44, 84)));
    assert_eq!(byte_sum(&w, 44, 84), 280);
}

#[test]
fn data_span_skips_chunks_before_data() {
    let w = wav(&[chunk(b"fmt ", &[0u8; 16]), chunk(b"LIST", &[1u8; 5]), chunk(b"data", &[2u8; 6])]);
    // The odd LIST body is followed by a pad byte: 12 + 24 + 8 + 6 = 50, then 8 of header.
    assert_eq!(wav_data_span(&w), Some((58, 64)));
}

#[test]
fn data_span_is_cut_at_end_of_file() {
    let mut w = wav(&[chunk(b"fmt ", &[0u8; 16]), chunk(b"data", &[3u8; 10])]);
    w.truncate(50);
    assert_eq!(wav_data_span(&w), Some((44, 50)));
}

#[test]
fn data_span_absent() {
    assert_eq!(wav_data_span(&wav(&[chunk(b"fmt ", &[0u8; 16])])), None);
    assert_eq!(wav_data_span(b"RIFX\0\0\0\0WAVEdata\0\0\0\0"), None);
    assert_eq!(wav_data_span(b"RIFF"), None);
    let mut w = wav(&[chunk(b"fmt ", &[0u8; 16])]);
    w.extend_from_slice(b"LIST\xff\x00\x00\x00");
    assert_eq!(wav_data_span(&w), None);
}

#[test]
fn streamed_read_chunks() {
    assert_eq!(read_chunk_frames(4096), Ok(4096));
    assert_eq!(read_chunk_frames(1), Ok(1));
    assert_eq!(read_chunk_frames(0), Err("chunk_size must be > 0".to_string()));
}

#[test]
fn byte_sums() {
    assert_eq!(byte_sum(&[1, 2, 3, 255], 1, 4), 260);
    assert_eq!(byte_sum(&[1, 2, 3, 255], 0, 4), 261);
    assert_eq!(byte_sum(&[1, 2, 3, 255], 1, 3), 5);
    assert_eq!(byte_sum(&[9, 9], 2, 2), 0);
}

#[test]
fn chunk_spans_cover_all_frames() {
    assert_eq!(chunk_spans(10, 4), vec![(0, 4), (4, 8), (8, 10)]);
    assert_eq!(chunk_spans(8, 4), vec![(0, 4), (4, 8)]);
    assert_eq!(chunk_spans(3, 10), vec![(0, 3)]);
    assert!(chunk_spans(0, 0).is_empty());
}

#[test]
fn chunk_writes_reach_the_total() {
    assert_eq!(chunk_writes(10, 4), 3);
    assert_eq!(chunk_writes(8, 4), 2);
    assert_eq!(chunk_writes(0, 4), 0);
    assert_eq!(chunk_writes(441000, 4096), 108);
}

#[test]
fn huge_chunks_make_one_span_or_write() {
    assert_eq!(chunk_spans(441000, usize::MAX), vec![(0, 441000)]);
    assert_eq!(chunk_spans(usize::MAX, usize::MAX), vec![(0, usize::MAX)]);
    assert_eq!(chunk_spans(usize::MAX, usize::MAX - 1), vec![(0, usize::MAX - 1), (usize::MAX - 1, usize::MAX)]);
    assert_eq!(chunk_writes(441000, usize::MAX), 1);
    assert_eq!(chunk_writes(usize::MAX, usize::MAX), 1);
    assert_eq!(chunk_writes(usize::MAX - 1, usize::MAX / 2), 2);
}


#[test]
fn schedule_runs_warmups_warm_then_drops_before_each_timed_iteration() {
    assert_eq!(
        bench_schedule(2, 3, true),
        vec![BenchStep::Warmup, BenchStep::Warmup, BenchStep::DropCache, BenchStep::Measure, BenchStep::DropCache, BenchStep::Measure, BenchStep::DropCache, BenchStep::Measure]
    );
    assert_eq!(bench_schedule(1, 2, false), vec![BenchStep::Warmup, BenchStep::Measure, BenchStep::Measure]);
    assert!(bench_schedule(0, 0, true).is_empty());
}


#[test]
fn only_reads_drop_the_page_cache() {
    assert_eq!(
        kind_schedule(BenchKind::StreamedRead, 1, 1, true),
        vec![BenchStep::Warmup, BenchStep::DropCache, BenchStep::Measure]
    );
    assert_eq!(
        kind_schedule(BenchKind::Read, 0, 2, true),
        vec![BenchStep::DropCache, BenchStep::Measure, BenchStep::DropCache, BenchStep::Measure]
    );
    assert_eq!(kind_schedule(BenchKind::Write, 1, 1, true), vec![BenchStep::Warmup, BenchStep::Measure]);
    assert_eq!(kind_schedule(BenchKind::StreamedWrite, 0, 1, true), vec![BenchStep::Measure]);
    assert_eq!(kind_schedule(BenchKind::Read, 0, 1, false), vec![BenchStep::Measure]);
}
