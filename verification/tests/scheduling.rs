use tts_stream::delivery::{chunk_event, payload_fits, pcm_bytes};
use tts_stream::pool::TTSWorkerPool;
use tts_stream::scheduler::{chunk_is_blank, Action, Outcome, Scheduler};
use tts_stream::session::get_colored_request_id_with_relative;
use tts_stream::task::plan_tasks;
use tts_stream::types::{AudioFormat, Fault, TauriSpeechError, Voice};

fn strings(items: &[&str]) -> Vec<String> {
    items.iter().map(|s| s.to_string()).collect()
}

fn expect_dispatch(action: Action, expected: usize, synthesize: bool) {
    match action {
        Action::Dispatch { index, synthesize: s } => {
            assert_eq!(index, expected);
            assert_eq!(s, synthesize);
        }
        _ => panic!("expected a dispatch of chunk {}", expected),
    }
}

fn expect_deliver(action: Action, expected: usize, bytes: &[u8]) {
    match action {
        Action::Deliver { index, payload } => {
            assert_eq!(index, expected);
            assert_eq!(payload, bytes);
        }
        _ => panic!("expected the delivery of chunk {}", expected),
    }
}

#[test]
fn slow_first_chunk_still_comes_first() {
    let chunks = strings(&["zero", "one", "two"]);
    let mut scheduler = Scheduler::new(&chunks, 2);
    expect_dispatch(scheduler.step(), 0, true);
    expect_dispatch(scheduler.step(), 1, true);
    assert_eq!(scheduler.in_flight(), 2);
    assert!(matches!(scheduler.step(), Action::Wait));
    assert!(scheduler.resolve(1, Outcome::Audio(vec![1, 1])));
    assert!(matches!(scheduler.step(), Action::Wait));
    assert_eq!(scheduler.next_to_send(), 0);
    assert!(scheduler.resolve(0, Outcome::Audio(vec![0])));
    expect_deliver(scheduler.step(), 0, &[0]);
    expect_dispatch(scheduler.step(), 2, true);
    assert!(scheduler.resolve(2, Outcome::Audio(vec![2, 2, 2])));
    expect_deliver(scheduler.step(), 1, &[1, 1]);
    expect_deliver(scheduler.step(), 2, &[2, 2, 2]);
    assert!(scheduler.is_finished());
    assert!(matches!(scheduler.step(), Action::Finish));
    assert!(matches!(scheduler.step(), Action::Finish));
}

#[test]
fn last_chunk_finishing_first_is_held_back() {
    let chunks = strings(&["zero", "one", "two"]);
    let mut scheduler = Scheduler::new(&chunks, 3);
    expect_dispatch(scheduler.step(), 0, true);
    expect_dispatch(scheduler.step(), 1, true);
    expect_dispatch(scheduler.step(), 2, true);
    assert!(scheduler.resolve(2, Outcome::Audio(vec![2])));
    assert!(matches!(scheduler.step(), Action::Wait));
    assert!(scheduler.resolve(1, Outcome::Audio(vec![1])));
    assert!(matches!(scheduler.step(), Action::Wait));
    assert!(scheduler.resolve(0, Outcome::Audio(vec![0])));
    expect_deliver(scheduler.step(), 0, &[0]);
    expect_deliver(scheduler.step(), 1, &[1]);
    expect_deliver(scheduler.step(), 2, &[2]);
    assert!(matches!(scheduler.step(), Action::Finish));
}

#[test]
fn failed_chunk_is_skipped_and_the_stream_goes_on() {
    let chunks = strings(&["zero", "one", "two"]);
    let mut scheduler = Scheduler::new(&chunks, 2);
    expect_dispatch(scheduler.step(), 0, true);
    expect_dispatch(scheduler.step(), 1, true);
    assert!(scheduler.resolve(1, Outcome::Failed));
    assert!(scheduler.resolve(0, Outcome::Audio(vec![7])));
    expect_deliver(scheduler.step(), 0, &[7]);
    expect_dispatch(scheduler.step(), 2, true);
    assert!(scheduler.resolve(2, Outcome::Audio(vec![9])));
    match scheduler.step() {
        Action::Skip { index } => assert_eq!(index, 1),
        _ => panic!("expected chunk 1 to be skipped"),
    }
    assert_eq!(scheduler.next_to_send(), 2);
    expect_deliver(scheduler.step(), 2, &[9]);
    assert!(matches!(scheduler.step(), Action::Finish));
}

#[test]
fn window_never_exceeds_the_pool() {
    let chunks: Vec<String> = (0..20).map(|i| format!("chunk {}", i)).collect();
    for pool_size in [1usize, 2, 3, 7, 50] {
        let mut scheduler = Scheduler::new(&chunks, pool_size);
        let mut awaited: Vec<usize> = Vec::new();
        let mut passed: Vec<usize> = Vec::new();
        let mut turn = 0usize;
        loop {
            assert!(scheduler.in_flight() <= pool_size);
            assert!(awaited.len() <= pool_size);
            match scheduler.step() {
                Action::Dispatch { index, synthesize } => {
                    assert!(synthesize);
                    awaited.push(index);
                }
                Action::Deliver { index, payload } => {
                    assert_eq!(payload, vec![index as u8]);
                    passed.push(index);
                }
                Action::Skip { index } => passed.push(index),
                Action::Wait => {
                    turn += 1;
                    let pick = (turn * 7) % awaited.len();
                    let index = awaited.remove(pick);
                    let outcome =
                        if index % 5 == 3 { Outcome::Failed } else { Outcome::Audio(vec![index as u8]) };
                    assert!(scheduler.resolve(index, outcome));
                }
                Action::Finish => break,
            }
        }
        assert_eq!(passed, (0..20).collect::<Vec<usize>>());
        assert!(awaited.is_empty());
        assert_eq!(scheduler.in_flight(), 0);
        assert_eq!(scheduler.next_to_send(), 20);
    }
}

#[test]
fn blank_chunk_is_not_synthesized() {
    let chunks = strings(&["zero", "  ", ""]);
    let mut scheduler = Scheduler::new(&chunks, 3);
    expect_dispatch(scheduler.step(), 0, true);
    expect_dispatch(scheduler.step(), 1, false);
    expect_dispatch(scheduler.step(), 2, false);
    assert!(!scheduler.resolve(1, Outcome::Audio(vec![1])));
    assert!(matches!(scheduler.step(), Action::Wait));
    assert!(scheduler.resolve(0, Outcome::Audio(vec![5])));
    expect_deliver(scheduler.step(), 0, &[5]);
    expect_deliver(scheduler.step(), 1, &[]);
    expect_deliver(scheduler.step(), 2, &[]);
    assert!(matches!(scheduler.step(), Action::Finish));
    assert!(chunk_is_blank(""));
    assert!(chunk_is_blank(" \t\u{a0}\n"));
    assert!(!chunk_is_blank(" a "));
}

#[test]
fn resolution_counts_once_and_only_in_the_window() {
    let chunks = strings(&["zero", "one", "two"]);
    let mut scheduler = Scheduler::new(&chunks, 1);
    assert!(!scheduler.resolve(0, Outcome::Failed));
    expect_dispatch(scheduler.step(), 0, true);
    assert!(!scheduler.resolve(1, Outcome::Failed));
    assert!(!scheduler.resolve(usize::MAX, Outcome::Failed));
    assert!(scheduler.resolve(0, Outcome::Audio(vec![1])));
    assert!(!scheduler.resolve(0, Outcome::Failed));
    expect_deliver(scheduler.step(), 0, &[1]);
    assert!(!scheduler.resolve(0, Outcome::Failed));
    assert!(!scheduler.is_finished());
}

#[test]
fn statistics_count_what_was_handed_on() {
    let chunks = strings(&["zero", "one", " ", "three"]);
    let mut scheduler = Scheduler::new(&chunks, 4);
    for index in 0..4 {
        expect_dispatch(scheduler.step(), index, index != 2);
    }
    let stats = scheduler.stats();
    assert_eq!((stats.chunks, stats.passed, stats.bytes), (4, 0, 0));
    assert_eq!((stats.samples, stats.millis), (0, 0));
    assert!(scheduler.resolve(0, Outcome::Audio(vec![0u8; 48000])));
    assert!(scheduler.resolve(1, Outcome::Failed));
    assert!(scheduler.resolve(3, Outcome::Audio(vec![0u8; 4801])));
    assert_eq!(scheduler.stats().bytes, 0);
    expect_deliver(scheduler.step(), 0, &vec![0u8; 48000]);
    let stats = scheduler.stats();
    assert_eq!((stats.chunks, stats.passed, stats.bytes), (4, 1, 48000));
    assert_eq!((stats.samples, stats.millis), (24000, 1000));
    assert!(matches!(scheduler.step(), Action::Skip { index: 1 }));
    expect_deliver(scheduler.step(), 2, &[]);
    expect_deliver(scheduler.step(), 3, &vec![0u8; 4801]);
    assert!(matches!(scheduler.step(), Action::Finish));
    let stats = scheduler.stats();
    assert_eq!((stats.chunks, stats.passed, stats.bytes), (4, 4, 52801));
    assert_eq!((stats.samples, stats.millis), (26400, 1100));
}

#[test]
fn no_chunks_finish_at_once() {
    let mut scheduler = Scheduler::new(&Vec::new(), 4);
    assert!(scheduler.is_finished());
    assert!(matches!(scheduler.step(), Action::Finish));
    assert_eq!(scheduler.in_flight(), 0);
    assert_eq!(scheduler.next_to_send(), 0);
}

#[test]
fn workers_take_turns() {
    let pool = TTSWorkerPool::new(vec!["first", "second"]);
    assert_eq!(pool.instance_count(), 2);
    let (worker, label) = pool.get_instance(0);
    assert_eq!((*worker, label.as_str()), ("first", "00"));
    let (worker, label) = pool.get_instance(1);
    assert_eq!((*worker, label.as_str()), ("second", "01"));
    let (worker, label) = pool.get_instance(5);
    assert_eq!((*worker, label.as_str()), ("second", "01"));
    let (worker, _) = pool.get_instance(usize::MAX - 1);
    assert_eq!(*worker, "first");
}

#[test]
fn worker_labels_are_two_hex_digits() {
    let pool = TTSWorkerPool::new((0..300usize).collect::<Vec<usize>>());
    assert_eq!(pool.instance_count(), 300);
    for (id, expected) in [(9, "09"), (10, "0a"), (15, "0f"), (16, "10"), (171, "ab"), (255, "ff"), (256, "100"), (299, "12b")] {
        let (worker, label) = pool.get_instance(id);
        assert_eq!(*worker, id);
        assert_eq!(label, expected);
        assert_eq!(label, format!("{:02x}", id));
    }
}

#[test]
fn request_tag_holds_the_elapsed_milliseconds() {
    assert_eq!(get_colored_request_id_with_relative("abc", 1234), "abc[1234ms]");
    assert_eq!(get_colored_request_id_with_relative("abc", 0), "abc[0ms]");
    assert_eq!(get_colored_request_id_with_relative("", 10), "[10ms]");
    assert_eq!(
        get_colored_request_id_with_relative("r", u128::MAX),
        format!("r[{}ms]", u128::MAX)
    );
}

#[test]
fn samples_are_written_low_byte_first() {
    assert_eq!(
        pcm_bytes(&vec![1, -1, 256, -32768, 32767, 0, -2]),
        vec![1, 0, 255, 255, 0, 1, 0, 128, 255, 127, 0, 0, 254, 255]
    );
    assert_eq!(pcm_bytes(&Vec::new()), Vec::<u8>::new());
    for sample in [i16::MIN, -12345, -1, 0, 1, 12345, i16::MAX] {
        assert_eq!(pcm_bytes(&vec![sample]), sample.to_le_bytes().to_vec());
    }
}

#[test]
fn chunk_event_carries_base64() {
    let event = chunk_event("req-1", 3, &b"hello".to_vec());
    assert_eq!(event.request_id, "req-1");
    assert_eq!(event.index, 3);
    assert_eq!(event.chunk, "aGVsbG8=");
    assert_eq!(chunk_event("r", 0, &Vec::new()).chunk, "");
    assert_eq!(chunk_event("r", 0, &vec![0xfb, 0xff]).chunk, "+/8=");
    assert!(payload_fits(0));
    assert!(payload_fits(1 << 20));
    assert!(!payload_fits(usize::MAX));
}

#[test]
fn tasks_follow_the_chunks() {
    let chunks = strings(&["zero", "one", "two"]);
    let tasks = plan_tasks(&chunks, "af_heart", Some(12));
    assert_eq!(tasks.len(), 3);
    for (i, task) in tasks.iter().enumerate() {
        assert_eq!(task.id, i);
        assert_eq!(task.chunk, chunks[i]);
        assert_eq!(task.voice, "af_heart");
    }
    assert_eq!(tasks[0].initial_silence, Some(12));
    assert_eq!(tasks[1].initial_silence, None);
    assert_eq!(tasks[2].initial_silence, None);
    assert!(plan_tasks(&Vec::new(), "v", Some(1)).is_empty());
    assert_eq!(plan_tasks(&chunks, "v", None)[0].initial_silence, None);
}

#[test]
fn default_voice_and_formats() {
    assert_eq!(Voice::default().as_str(), "af_heart");
    assert_eq!(Voice::new("bm_george".to_string()).as_str(), "bm_george");
    assert_eq!(AudioFormat::Wav.effective(), AudioFormat::Wav);
    assert_eq!(AudioFormat::Pcm.effective(), AudioFormat::Pcm);
    for format in [AudioFormat::Mp3, AudioFormat::Opus, AudioFormat::Aac, AudioFormat::Flac] {
        assert_eq!(format.effective(), AudioFormat::Mp3);
    }
    let names = ["mp3", "wav", "opus", "aac", "flac", "pcm"];
    let formats = [
        AudioFormat::Mp3,
        AudioFormat::Wav,
        AudioFormat::Opus,
        AudioFormat::Aac,
        AudioFormat::Flac,
        AudioFormat::Pcm,
    ];
    for (format, name) in formats.iter().zip(names) {
        assert_eq!(format.label(), name);
        assert_eq!(format.label(), format!("{:?}", format).to_lowercase());
    }
}

#[test]
fn internal_errors_name_their_source() {
    let cases = [
        (Fault::Io, "IO Error: disk"),
        (Fault::TaskChannel, "Task channel send error: disk"),
        (Fault::Json, "JSON serialization error: disk"),
        (Fault::Generic, "Generic error: disk"),
    ];
    for (fault, expected) in cases {
        let error = TauriSpeechError::internal(fault, "disk");
        assert!(matches!(error, TauriSpeechError::InternalError(_)));
        assert_eq!(error.message(), expected);
    }
    assert_eq!(TauriSpeechError::InvalidInput("x".to_string()).message(), "x");
    assert_eq!(TauriSpeechError::TTSGenerationError("y".to_string()).message(), "y");
    assert_eq!(TauriSpeechError::EventEmissionError("z".to_string()).message(), "z");
}
