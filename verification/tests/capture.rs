//! Capturing, live text and transcripts.

use notetaker::audio_capture::{
    pick_device, take_frames, CaptureDevices, DeviceChoice, LoopbackSource, TARGET_SR,
};
use notetaker::live::{
    window_offset_ns, LiveBuffer, LiveCursor, LiveRun, LIVE_OVERLAP_SECONDS, LIVE_SPAN_SECONDS,
    LIVE_WINDOW_SECONDS,
};
use notetaker::monitor::{starts_monitoring, MeterWindow, METER_FRAMES};
use notetaker::transcribe::{
    collect_segments, split_channels, strip_artifacts, Mode, RawSegment, TranscribedSegment,
};

fn piece(start_ns: i64, end_ns: i64, text: &str) -> TranscribedSegment {
    TranscribedSegment { start_ns, end_ns, text: text.to_string(), confidence: None, channel: None }
}

const S: i64 = 1_000_000_000;

#[test]
fn the_default_devices_are_those_of_the_system() {
    let d = CaptureDevices::default();
    assert!(d.mic_name.is_none());
    assert!(matches!(d.loopback, LoopbackSource::Device { name: None }));
    assert!(matches!(LoopbackSource::default(), LoopbackSource::Device { name: None }));
    assert_eq!(TARGET_SR, 16_000);
}

#[test]
fn a_device_is_picked_by_its_name() {
    let listed = vec![Some("a".to_string()), None, Some("b".to_string()), Some("b".to_string())];
    assert_eq!(pick_device(&listed, &Some("b".to_string())), DeviceChoice::Listed(2));
    assert_eq!(pick_device(&listed, &Some("c".to_string())), DeviceChoice::Fallback);
    assert_eq!(pick_device(&listed, &None), DeviceChoice::Default);
}

#[test]
fn channels_are_interleaved_and_the_rest_is_kept() {
    let mut mic = vec![1, 2, 3];
    let mut loopback = vec![10, 20];
    assert_eq!(take_frames(&mut mic, &mut loopback), [1, 10, 2, 20]);
    assert_eq!(mic, [3]);
    assert!(loopback.is_empty());
    assert!(take_frames(&mut mic, &mut loopback).is_empty());
    loopback.push(30);
    assert_eq!(take_frames(&mut mic, &mut loopback), [3, 30]);
}

#[test]
fn a_capture_loses_nothing() {
    let (mut mic, mut loopback) = (Vec::new(), Vec::new());
    let mut written = Vec::new();
    let (mut left, mut right) = (0, 100);
    for (from_mic, from_loopback) in [(3, 0), (0, 5), (4, 1), (0, 0), (2, 9)] {
        mic.extend(left..left + from_mic);
        loopback.extend(right..right + from_loopback);
        left += from_mic;
        right += from_loopback;
        written.extend(take_frames(&mut mic, &mut loopback));
    }
    let expected: Vec<i32> = (0..9).flat_map(|i| [i, 100 + i]).collect();
    assert_eq!(written, expected);
    assert!(mic.is_empty());
    assert_eq!(loopback, (109..115).collect::<Vec<i32>>());
}

#[test]
fn interleaved_channels_are_read_back() {
    let mut mic = vec![0.5f32, -1.0];
    let mut loopback = vec![0.25f32, 1.0];
    let frames = take_frames(&mut mic, &mut loopback);
    let (left, right) = split_channels(&frames);
    assert_eq!(left, [0.5, -1.0]);
    assert_eq!(right, [0.25, 1.0]);
    assert_eq!(split_channels(&vec![1, 2, 3]), (vec![1], vec![2]));
}

#[test]
fn the_live_buffer_gives_what_came_last() {
    let mut b: LiveBuffer<f32> = LiveBuffer::new(2);
    assert_eq!(b.sample_rate(), 2);
    b.push(&[1.0, 2.0, 3.0]);
    b.push(&[4.0, 5.0]);
    assert_eq!(b.len_samples(), 5);
    assert_eq!(b.take_recent(2), [2.0, 3.0, 4.0, 5.0]);
    assert_eq!(b.take_recent(100), [1.0, 2.0, 3.0, 4.0, 5.0]);
    assert!(b.take_recent(0).is_empty());
}

#[test]
fn windows_overlap_by_two_seconds() {
    assert_eq!((LIVE_WINDOW_SECONDS, LIVE_OVERLAP_SECONDS, LIVE_SPAN_SECONDS), (8, 2, 10));
    assert_eq!(window_offset_ns(8 * 16_000, 16_000), 0);
    assert_eq!(window_offset_ns(16 * 16_000, 16_000), 6 * S);
    assert_eq!(window_offset_ns(24 * 16_000, 16_000), 14 * S);
}

#[test]
fn live_text_is_shown_once() {
    let mut c = LiveCursor::new();
    let first = c.advance(vec![piece(0, 3 * S, "a"), piece(3 * S, 7 * S, "b")], 0);
    assert_eq!(first.len(), 2);
    let second = c.advance(vec![piece(0, S, "b"), piece(S, 4 * S, "c")], 6 * S);
    assert_eq!(second.len(), 1);
    assert_eq!(second[0].text, "c");
    assert_eq!((second[0].start_ns, second[0].end_ns), (7 * S, 10 * S));
    assert!(c.advance(vec![piece(0, 4 * S, "c")], 6 * S).is_empty());
}

#[test]
fn a_live_run_goes_on_after_a_failure_and_ends_when_stopped() {
    let mut buffer: LiveBuffer<i32> = LiveBuffer::new(2);
    let mut run = LiveRun::new();
    assert_eq!(run.window(&buffer), None);
    buffer.push(&(0..16).collect::<Vec<i32>>());
    assert_eq!(run.window(&buffer), Some((0..16).collect()));
    assert!(run.transcribed(None).is_empty());
    assert_eq!(run.window(&buffer).map(|w| w.len()), Some(16));
    let shown = run.transcribed(Some(vec![piece(0, 3 * S, "a"), piece(3 * S, 7 * S, "b")]));
    assert_eq!(shown.len(), 2);
    assert!(run.transcribed(Some(vec![piece(0, 99 * S, "no window")])).is_empty());
    buffer.push(&(16..32).collect::<Vec<i32>>());
    assert_eq!(run.window(&buffer), Some((12..32).collect()));
    let shown = run.transcribed(Some(vec![piece(0, S, "b"), piece(S, 4 * S, "c")]));
    assert_eq!(shown.len(), 1);
    assert_eq!((shown[0].start_ns, shown[0].end_ns), (7 * S, 10 * S));
    assert!(run.window(&buffer).is_some());
    run.stop();
    assert!(run.transcribed(Some(vec![piece(0, 9 * S, "late")])).is_empty());
    assert_eq!(run.window(&buffer), None);
    assert_eq!(LiveRun::new().window(&LiveBuffer::<i32>::new(0)), None);
}

#[test]
fn remarks_are_stripped_from_transcripts() {
    assert_eq!(strip_artifacts(" [BLANK_AUDIO] hello (laughs) there "), "hello  there");
    assert_eq!(strip_artifacts("a [b (c) d] e"), "a  e");
    assert_eq!(strip_artifacts("a ] b )"), "a ] b )");
    assert_eq!(strip_artifacts("[never closed"), "");
    assert_eq!(strip_artifacts("  plain  "), "plain");
    assert_eq!(strip_artifacts(&strip_artifacts("x (y) z")), strip_artifacts("x (y) z"));
}

#[test]
fn pieces_without_words_are_dropped() {
    let raw = vec![
        RawSegment { text: " Hello.".to_string(), start_cs: 0, end_cs: 150 },
        RawSegment { text: "[MUSIC]".to_string(), start_cs: 150, end_cs: 300 },
        RawSegment { text: "Bye (waves)".to_string(), start_cs: 300, end_cs: 425 },
    ];
    let v = collect_segments(&raw);
    assert_eq!(v.len(), 2);
    assert_eq!((v[0].text.as_str(), v[0].start_ns, v[0].end_ns), ("Hello.", 0, 1_500_000_000));
    assert_eq!(
        (v[1].text.as_str(), v[1].start_ns, v[1].end_ns),
        ("Bye", 3_000_000_000, 4_250_000_000)
    );
    assert!(v[0].confidence.is_none() && v[0].channel.is_none());
    assert_ne!(Mode::Live, Mode::Finalize);
}

#[test]
fn levels_are_shown_when_there_are_frames_enough() {
    let mut w = MeterWindow::new();
    assert_eq!(w.feed(2399, 1), None);
    assert_eq!(w.feed(1, 1), Some(METER_FRAMES));
    assert_eq!(w.feed(4797, 2), None);
    assert_eq!(w.feed(3, 2), Some(2401));
    assert_eq!(w.feed(0, 2), None);
}

#[test]
fn levels_are_not_monitored_twice() {
    assert!(starts_monitoring(false, false));
    assert!(!starts_monitoring(true, false));
    assert!(!starts_monitoring(false, true));
    assert!(!starts_monitoring(true, true));
}
