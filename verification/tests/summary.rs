//! Summaries.

use notetaker::store::{SegmentRow, Statement};
use notetaker::summarize::{
    chunk_prompt, final_prompt, format_segments_for_prompt, generate_url, group_into_chunks,
    participant_names, rolling_prompt, SummaryRun, MAX_CHUNK_NS, ROLLING_CHUNK_NS,
};

const S: i64 = 1_000_000_000;

fn row(start: i64, end: i64, speaker: Option<&str>, text: &str) -> SegmentRow {
    SegmentRow {
        id: start,
        speaker_id: None,
        speaker_name: speaker.map(|s| s.to_string()),
        start_ns: start * S,
        end_ns: end * S,
        text: text.to_string(),
        confidence: None,
    }
}

fn cuts(rows: &Vec<SegmentRow>) -> Vec<(i64, i64, usize, usize)> {
    group_into_chunks(rows).iter().map(|c| (c.start_ns / S, c.end_ns / S, c.from, c.to)).collect()
}

#[test]
fn chunks_are_cut_at_pauses() {
    assert_eq!(
        cuts(&vec![row(0, 10, None, "a"), row(12, 20, None, "b")]),
        [(0, 10, 0, 1), (12, 20, 1, 2)]
    );
    let rows = vec![
        row(0, 100, None, "a"),
        row(150, 299, None, "b"),
        row(299, 300, None, "c"),
        row(301, 302, None, "d"),
        row(304, 310, None, "e"),
    ];
    assert_eq!(cuts(&rows), [(0, 100, 0, 1), (150, 302, 1, 4), (304, 310, 4, 5)]);
    assert!(group_into_chunks(&vec![]).is_empty());
    assert_eq!(cuts(&vec![row(5, 6, None, "x")]), [(5, 6, 0, 1)]);
}

#[test]
fn chunks_are_cut_when_there_is_no_pause() {
    let rows: Vec<SegmentRow> = (0..10).map(|i| row(100 * i, 100 * (i + 1), None, "x")).collect();
    assert_eq!(cuts(&rows), [(0, 500, 0, 5), (500, 1000, 5, 10)]);
    assert_eq!((ROLLING_CHUNK_NS, MAX_CHUNK_NS), (300 * S, 450 * S));
}

#[test]
fn lines_name_their_speakers() {
    let rows = vec![row(0, 1, Some("Ada"), "  hi "), row(1, 2, None, "there")];
    assert_eq!(format_segments_for_prompt(&rows), "Ada: hi\nUnknown: there\n");
    assert_eq!(format_segments_for_prompt(&[]), "");
}

#[test]
fn prompts_hold_what_they_are_about() {
    assert_eq!(
        chunk_prompt("L"),
        "You are summarising part of a meeting transcript. Output 3-6 bullet points covering the \
         key decisions, action items, and topics discussed.\n\nTranscript:\nL\n\nSummary (bullets, \
         no preamble):"
    );
    assert_eq!(
        rolling_prompt("P", "N"),
        "You maintain a running summary of a meeting. Update the running summary by integrating \
         new bullets. Stay concise; don't repeat.\n\nCurrent running summary:\nP\n\nNew bullets to \
         integrate:\nN\n\nUpdated running summary:"
    );
    assert_eq!(
        final_prompt("B", &vec!["A".to_string(), "C".to_string()]),
        "Below are bullet-point summaries of consecutive segments of a meeting with participants: \
         A, C. Produce a clean final summary with these sections in Markdown: Overview, Decisions, \
         Action items (with owner where stated), Open questions.\n\nSegment bullets:\nB\n\nFinal \
         summary:"
    );
}

#[test]
fn participants_are_named_once() {
    let rows = vec![
        row(0, 1, Some("Bo"), "x"),
        row(1, 2, None, "x"),
        row(2, 3, Some("Al"), "x"),
        row(3, 4, Some("Bo"), "x"),
    ];
    assert_eq!(participant_names(&rows), ["Al", "Bo"]);
}

#[test]
fn the_address_has_one_slash() {
    assert_eq!(generate_url("http://a:1"), "http://a:1/api/generate");
    assert_eq!(generate_url("http://a:1//"), "http://a:1/api/generate");
    assert_eq!(generate_url(""), "/api/generate");
}

#[test]
fn a_summary_takes_two_questions_a_chunk_and_one_more() {
    let now = || "now".to_string();
    let mut run = SummaryRun::new(
        3,
        "m".to_string(),
        vec![row(0, 10, Some("Ada"), "hello"), row(400, 410, Some("Bob"), "bye")],
    );
    assert_eq!(run.question(), Some(chunk_prompt("Ada: hello\n")));
    assert!(matches!(
        run.reply(" b1 ", now()),
        Statement::InsertSummaryChunk { recording_id: 3, start_ns: 0, end_ns, text, generated_at }
            if end_ns == 10 * S && text == "b1" && generated_at == "now"
    ));
    assert_eq!(run.question(), Some(rolling_prompt("", "b1")));
    assert!(matches!(
        run.reply("r1\n", now()),
        Statement::PutRollingSummary { recording_id: 3, text, through_ns, updated_at }
            if text == "r1" && through_ns == 10 * S && updated_at == "now"
    ));
    assert_eq!(run.question(), Some(chunk_prompt("Bob: bye\n")));
    run.reply("b2", now());
    assert_eq!(run.question(), Some(rolling_prompt("r1", "b2")));
    run.reply("r2", now());
    assert_eq!(
        run.question(),
        Some(final_prompt("b1\n\nb2", &vec!["Ada".to_string(), "Bob".to_string()]))
    );
    assert!(matches!(
        run.reply(" done ", now()),
        Statement::PutSummary { recording_id: 3, text, model, generated_at }
            if text == "done" && model == "m" && generated_at == "now"
    ));
    assert_eq!(run.question(), None);
    assert_eq!(SummaryRun::new(3, "m".to_string(), vec![]).question(), None);
}
