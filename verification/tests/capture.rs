//! The microphone's stream: frames, samples, levels, chunks and files.

use intentionality::gain::{enabled, FRAME_BYTES, FRAME_SAMPLES};
use intentionality::level::{Meter, Summary, FRAMES_PER_WINDOW};
use intentionality::record::{
    decode, encode, record_args, wav, Chunk, Chunker, Framer, BYTES_PER_SECOND, CHUNK_BYTES,
    SAMPLE_RATE,
};

#[test]
fn a_frame_is_twenty_milliseconds() {
    assert_eq!(FRAME_SAMPLES, 320);
    assert_eq!(FRAME_BYTES, 640);
    assert_eq!(FRAME_SAMPLES as u32 * 50, SAMPLE_RATE);
}

#[test]
fn a_wav_header_is_44_bytes_and_declares_the_payload() {
    let pcm = vec![0u8; 320];
    let out = wav(&pcm);
    assert_eq!(out.len(), 44 + 320);
    assert_eq!(&out[0..4], b"RIFF");
    assert_eq!(&out[8..12], b"WAVE");
    assert_eq!(&out[36..40], b"data");
    // RIFF size counts everything after the first 8 bytes.
    assert_eq!(u32::from_le_bytes(out[4..8].try_into().unwrap()), 36 + 320);
    assert_eq!(u32::from_le_bytes(out[40..44].try_into().unwrap()), 320);
}

#[test]
fn the_header_describes_16khz_mono_s16() {
    let out = wav(&[]);
    assert_eq!(u16::from_le_bytes(out[20..22].try_into().unwrap()), 1); // PCM
    assert_eq!(u16::from_le_bytes(out[22..24].try_into().unwrap()), 1); // mono
    assert_eq!(u32::from_le_bytes(out[24..28].try_into().unwrap()), 16_000);
    assert_eq!(u32::from_le_bytes(out[28..32].try_into().unwrap()), 32_000); // byte rate
    assert_eq!(u16::from_le_bytes(out[32..34].try_into().unwrap()), 2); // block align
    assert_eq!(u16::from_le_bytes(out[34..36].try_into().unwrap()), 16); // bits
}

#[test]
fn a_chunk_is_two_minutes_of_audio() {
    assert_eq!(BYTES_PER_SECOND, 32_000);
    assert_eq!(CHUNK_BYTES, 3_840_000);
    assert_eq!(CHUNK_BYTES as u32 / BYTES_PER_SECOND, 120);
}

/// The read loop without a microphone: the same bytes in reads of the given
/// sizes, their frames decoded, metered and written again.
fn drain(pcm: &[u8], reads: &[usize]) -> (Vec<u8>, usize) {
    let mut framer = Framer::new();
    let mut meter = Meter::new();
    let mut chunker = Chunker::new();
    let mut levels = 0;
    let mut process = |frame: &[u8], chunker: &mut Chunker| {
        let samples = decode(frame);
        if meter.push(&samples, &samples).is_some() {
            levels += 1;
        }
        chunker.add(&encode(&samples));
    };
    let mut at = 0;
    let mut sizes = reads.iter().cycle();
    while at < pcm.len() {
        let n = (*sizes.next().unwrap()).min(pcm.len() - at);
        for frame in framer.feed(&pcm[at..at + n]) {
            process(&frame, &mut chunker);
        }
        at += n;
    }
    if let Some(frame) = framer.finish() {
        process(&frame, &mut chunker);
    }
    (chunker.pending, levels)
}

/// Sixteen frames of a quiet tone, plus a stray odd byte at the end.
fn sample_pcm() -> Vec<u8> {
    let mut pcm = Vec::new();
    for i in 0..(FRAME_BYTES / 2 * 16) {
        let v = ((i as f32 * 0.05).sin() * 600.0) as i16;
        pcm.extend_from_slice(&v.to_le_bytes());
    }
    pcm.push(0x7f); // half a sample: must be dropped, not misread
    pcm
}

#[test]
fn framing_is_identical_across_arbitrary_read_boundaries() {
    let pcm = sample_pcm();
    let (reference, _) = drain(&pcm, &[FRAME_BYTES]);
    for reads in [
        vec![1usize],
        vec![3],
        vec![7, 1, 4095],
        vec![639],
        vec![641],
        vec![FRAME_BYTES * 5 + 1],
        vec![32 * 1024],
    ] {
        let (got, _) = drain(&pcm, &reads);
        assert_eq!(got, reference, "read pattern {reads:?} changed the output");
    }
}

#[test]
fn processing_preserves_byte_count_and_drops_only_a_half_sample() {
    let pcm = sample_pcm();
    let (got, _) = drain(&pcm, &[7, 1, 4095]);
    // The bytes come back exactly, minus the odd one that was never a whole
    // sample.
    assert_eq!(got.len(), pcm.len() - 1);
    assert_eq!(got, pcm[..pcm.len() - 1]);
}

#[test]
fn a_partial_final_frame_is_still_processed() {
    // Two and a half frames: the half must not be silently dropped.
    let mut pcm = vec![0u8; FRAME_BYTES * 2 + FRAME_BYTES / 2];
    for (i, b) in pcm.iter_mut().enumerate() {
        *b = (i % 251) as u8;
    }
    let (got, _) = drain(&pcm, &[FRAME_BYTES]);
    assert_eq!(got.len(), pcm.len());
    assert_eq!(got, pcm);
}

#[test]
fn levels_arrive_once_per_five_frames() {
    let pcm = sample_pcm();
    let (_, levels) = drain(&pcm, &[FRAME_BYTES]);
    assert_eq!(levels, 16 / FRAMES_PER_WINDOW);
}

#[test]
fn a_window_is_five_frames_and_one_hundred_milliseconds() {
    let mut meter = Meter::new();
    let frame = vec![3276i16; FRAME_SAMPLES];
    for _ in 0..FRAMES_PER_WINDOW - 1 {
        assert!(meter.push(&frame, &frame).is_none());
    }
    assert!(meter.push(&frame, &frame).is_some());
    assert_eq!(FRAMES_PER_WINDOW * FRAME_SAMPLES, 1_600); // 100 ms at 16 kHz
}

#[test]
fn flush_emits_a_partial_window_once() {
    let mut meter = Meter::new();
    let frame = vec![3276i16; FRAME_SAMPLES];
    assert!(meter.push(&frame, &frame).is_none());
    assert!(meter.flush().is_some());
    assert!(meter.flush().is_none());
}

#[test]
fn what_is_heard_and_what_is_sent_are_measured_apart() {
    let mut meter = Meter::new();
    let quiet = vec![-3i16, 4];
    let loud = vec![i16::MIN, 100];
    let mut got = None;
    for _ in 0..FRAMES_PER_WINDOW {
        got = meter.push(&quiet, &loud);
    }
    let w = got.unwrap();
    assert_eq!((w.samples, w.frames), (10, 5));
    assert_eq!(w.input_sq, 125);
    assert_eq!(w.output_sq, 5 * (32768 * 32768 + 10_000));
    assert_eq!(w.output_peak, 32768);
}

#[test]
fn a_summary_finds_the_median_gain() {
    let mut s = Summary::new();
    assert!(s.is_empty());
    assert_eq!(s.median_bin(), 0);
    for half_db in [0, 12, 24, 24, 60] {
        s.add(half_db);
    }
    assert!(!s.is_empty());
    assert_eq!(s.median_bin(), 24);
    s.add(500);
    assert_eq!(s.gain_hist[80], 1);
}

#[test]
fn chunks_are_cut_whole_and_a_short_tail_is_dropped() {
    let mut c = Chunker::new();
    assert!(c.cut().is_none());
    c.add(&vec![1u8; CHUNK_BYTES + 5]);
    let chunk = Chunk { pcm: c.cut().unwrap(), levels: Summary::new() };
    assert_eq!(chunk.pcm.len(), CHUNK_BYTES);
    assert!(chunk.levels.is_empty());
    assert!(c.cut().is_none());
    assert_eq!(c.pending.len(), 5);
    assert!(c.finish().is_none());
    let mut c = Chunker::new();
    c.add(&vec![1u8; BYTES_PER_SECOND as usize]);
    assert_eq!(c.finish().unwrap().len(), 32_000);
}

#[test]
fn samples_are_read_like_the_machine_reads_them() {
    for x in [0i16, 1, -1, 255, 256, -256, i16::MAX, i16::MIN] {
        assert_eq!(encode(&[x]), x.to_le_bytes());
        assert_eq!(decode(&x.to_le_bytes()), [x]);
    }
    assert_eq!(decode(&[1, 0, 9]), [1]);
}

#[test]
fn the_source_is_an_argument_of_its_own() {
    assert_eq!(
        record_args(None),
        ["--rate", "16000", "--channels", "1", "--format", "s16", "--raw", "-"]
    );
    assert_eq!(record_args(Some("mic; rm"))[7..], ["--target", "mic; rm", "-"]);
}

#[test]
fn the_gain_is_turned_off_by_four_words() {
    assert!(enabled(None));
    assert!(enabled(Some("on")));
    assert!(enabled(Some("")));
    for word in ["off", " OFF ", "0", "False", "no"] {
        assert!(!enabled(Some(word)), "{word}");
    }
}

#[test]
fn chunks_do_not_depend_on_when_they_are_cut() {
    let all: Vec<u8> = (0..CHUNK_BYTES * 2 + 7).map(|i| (i % 253) as u8).collect();
    let mut late = Chunker::new();
    late.add(&all);
    let mut at_the_end = Vec::new();
    while let Some(c) = late.cut() {
        at_the_end.push(c);
    }
    let mut early = Chunker::new();
    let mut as_it_goes = Vec::new();
    for piece in all.chunks(1_000_003) {
        early.add(piece);
        while let Some(c) = early.cut() {
            as_it_goes.push(c);
        }
    }
    assert_eq!(at_the_end.len(), 2);
    assert_eq!(at_the_end, as_it_goes);
    assert_eq!(late.pending, early.pending);
    let mut back = at_the_end.concat();
    back.extend(late.pending);
    assert_eq!(back, all);
}

/// All the chunks of a recording, and what was left behind them.
fn chunks(pcm: &[u8], reads: &[usize]) -> Vec<Vec<u8>> {
    let (mut framer, mut chunker) = (Framer::new(), Chunker::new());
    let mut sent = Vec::new();
    let mut at = 0;
    let mut sizes = reads.iter().cycle();
    while at < pcm.len() {
        let n = (*sizes.next().unwrap()).min(pcm.len() - at);
        for frame in framer.feed(&pcm[at..at + n]) {
            chunker.add(&encode(&decode(&frame)));
        }
        while let Some(chunk) = chunker.cut() {
            sent.push(chunk);
        }
        at += n;
    }
    if let Some(frame) = framer.finish() {
        chunker.add(&encode(&decode(&frame)));
    }
    sent.extend(chunker.finish());
    sent
}

#[test]
fn what_was_read_is_sent_whatever_the_reads() {
    let second = BYTES_PER_SECOND as usize;
    let stream = |n: usize| (0..n).map(|i| (i % 251) as u8).collect::<Vec<u8>>();
    for (n, lost) in [(CHUNK_BYTES + second + 1, 1), (CHUNK_BYTES + second - 2, second - 2)] {
        let pcm = stream(n);
        let whole = chunks(&pcm, &[n]);
        assert_eq!(whole.concat(), pcm[..n - lost]);
        assert_eq!(whole[0].len(), CHUNK_BYTES);
        for reads in [vec![4097usize], vec![639, 641, 3], vec![CHUNK_BYTES]] {
            assert!(chunks(&pcm, &reads) == whole, "{reads:?}");
        }
    }
}
