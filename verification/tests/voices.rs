//! Telling voices apart, naming them, and finding the user's own.

use notetaker::diarize::{
    decode_embedding, embedding_range, embedding_ranges, encode_embedding, provider_name,
    ClusterEmbedding, DiarSegment, DiarizationResult,
};
use notetaker::grouping::{distinct_keys, group_rows, positions_of};
use notetaker::order::stable_sort;
use notetaker::pipeline::{
    best_cluster, clear_transcript, cluster_rows, enroll_self, group_ranges, insert_segments,
    loudest_cluster, mic_ranges, stored_id, tells_own_voice, upsert_clusters, MicRange, NextStage,
    SpokenRow, Stage,
};
use notetaker::speakers::{
    attach_cluster, confirm, pick_snippets, rank_suggestions, unnamed_clusters, ConfirmError,
    Decision, DecisionFacts, Snippet, Suggestion, VoiceFacts, INFINITY, SIM_PREFILL, SIM_SUGGEST,
};
use notetaker::store::{Source, SpeakerRef, Statement, Status};
use notetaker::transcribe::TranscribedSegment;

const S: i64 = 1_000_000_000;

fn heard(start: i64, end: i64, cluster_id: i32) -> DiarSegment {
    DiarSegment { start_ns: start * S, end_ns: end * S, cluster_id }
}

fn said(start: i64, end: i64, text: &str) -> TranscribedSegment {
    TranscribedSegment {
        start_ns: start * S,
        end_ns: end * S,
        text: text.to_string(),
        confidence: None,
        channel: None,
    }
}

fn snippet(start: i64, end: i64, text: &str) -> Snippet {
    Snippet { start_ns: start * S, end_ns: end * S, text: text.to_string(), audio_b64: None }
}

fn candidate(speaker_id: i64, similarity: f32) -> Suggestion {
    Suggestion { speaker_id, name: format!("s{speaker_id}"), similarity: similarity.to_bits() }
}

#[test]
fn thresholds_are_bit_patterns_of_numbers() {
    assert_eq!(SIM_PREFILL, 0.75f32.to_bits());
    assert_eq!(SIM_SUGGEST, 0.55f32.to_bits());
    assert_eq!(INFINITY, f32::INFINITY.to_bits());
    assert_eq!(notetaker::pipeline::INFINITY_BITS, f64::INFINITY.to_bits());
}

#[test]
fn embeddings_are_stored_and_read_back() {
    let v: Vec<u32> = [1.0f32, -0.5, 3.25e9].iter().map(|x| x.to_bits()).collect();
    let bytes = encode_embedding(&v);
    let mut expected = Vec::new();
    for x in [1.0f32, -0.5, 3.25e9] {
        expected.extend_from_slice(&x.to_le_bytes());
    }
    assert_eq!(bytes, expected);
    assert_eq!(decode_embedding(&bytes), v);
    assert_eq!(decode_embedding(&[1, 0, 0, 0, 9, 9, 9]), [1]);
    assert!(decode_embedding(&[]).is_empty());
}

#[test]
fn embeddings_are_taken_from_a_quarter_of_a_second_at_least() {
    assert_eq!(embedding_range(0, 4000, 16_000), Some((0, 4000)));
    assert_eq!(embedding_range(0, 3999, 16_000), None);
    assert_eq!(embedding_range(10_000, 99_000, 16_000), Some((10_000, 16_000)));
    assert_eq!(embedding_range(20_000, 99_000, 16_000), None);
    let ranges = embedding_ranges(&vec![heard(0, 1, 3), heard(2, 2, 4), heard(1, 9, 5)], 40_000);
    let shown: Vec<(i32, usize, usize)> =
        ranges.iter().map(|r| (r.cluster_id, r.start, r.end)).collect();
    assert_eq!(shown, [(3, 0, 16_000), (5, 16_000, 40_000)]);
    assert_eq!(provider_name(0), "cuda");
    assert_eq!(provider_name(-1), "cpu");
}

#[test]
fn segments_sort_by_their_start() {
    let mut v = vec![heard(3, 4, 1), heard(1, 2, 2), heard(3, 9, 3), heard(0, 1, 4)];
    stable_sort(&mut v);
    let ids: Vec<i32> = v.iter().map(|s| s.cluster_id).collect();
    assert_eq!(ids, [4, 2, 1, 3]);
}

#[test]
fn rows_are_grouped_by_their_keys() {
    let keys = vec![5, -1, 5, 7, -1];
    assert_eq!(distinct_keys(&keys), [-1, 5, 7]);
    assert_eq!(positions_of(&keys, 5), [0, 2]);
    let groups = group_rows(&keys);
    let shown: Vec<(i64, Vec<usize>)> = groups.into_iter().map(|g| (g.key, g.rows)).collect();
    assert_eq!(shown, [(-1, vec![1, 4]), (5, vec![0, 2]), (7, vec![3])]);
}

#[test]
fn the_cluster_heard_longest_is_the_best() {
    let d = vec![heard(0, 2, 1), heard(2, 6, 2), heard(6, 10, 3), heard(6, 10, 4)];
    assert_eq!(best_cluster(&d, 0, 3 * S), Some(1));
    assert_eq!(best_cluster(&d, 0, 5 * S), Some(2));
    assert_eq!(best_cluster(&d, 4 * S, 9 * S), Some(3));
    assert_eq!(best_cluster(&d, 10 * S, 12 * S), None);
    assert_eq!(best_cluster(&d, 3 * S, 3 * S), None);
    assert_eq!(best_cluster(&d, 0, 4 * S), Some(1));
    assert_eq!(best_cluster(&[], 0, S), None);
}

fn found() -> DiarizationResult {
    DiarizationResult {
        segments: vec![heard(0, 2, 9), heard(2, 4, 1), heard(4, 6, 9), heard(6, 8, 2)],
        embeddings: vec![
            ClusterEmbedding { cluster_id: 1, embedding: vec![1] },
            ClusterEmbedding { cluster_id: 5, embedding: vec![2] },
        ],
    }
}

#[test]
fn every_cluster_heard_is_stored() {
    let rows = cluster_rows(&found());
    let shown: Vec<(i32, usize, bool)> =
        rows.iter().map(|r| (r.local_id, r.embedding.len(), r.required)).collect();
    assert_eq!(shown, [(1, 4, true), (5, 4, true), (9, 0, false), (2, 0, false)]);
    let upserts = upsert_clusters(7, &rows);
    assert_eq!(upserts.len(), 4);
    assert!(matches!(
        &upserts[2],
        Statement::UpsertCluster { recording_id: 7, local_id: 9, embedding } if embedding.is_empty()
    ));
    assert_eq!(stored_id(&rows[0], Some(3)), Some(3));
    assert_eq!(stored_id(&rows[0], None), None);
    assert_eq!(stored_id(&rows[2], None), Some(0));
}

#[test]
fn a_transcript_replaces_what_was_there() {
    let clear = clear_transcript(7);
    assert!(matches!(clear[0], Statement::ClearSegments { recording_id: 7 }));
    assert!(matches!(clear[1], Statement::ClearClusters { recording_id: 7 }));
    let diar = found();
    let rows = cluster_rows(&diar);
    let transcript = vec![said(0, 2, "a"), said(2, 4, "b"), said(20, 21, "c")];
    let plan = insert_segments(7, &rows, &vec![100, 101, 102, 103], &diar.segments, &transcript);
    let clusters: Vec<Option<i64>> = plan
        .iter()
        .map(|s| match s {
            Statement::InsertSegment { recording_id: 7, cluster_id, speaker_id: None, .. } => *cluster_id,
            other => panic!("{other:?}"),
        })
        .collect();
    assert_eq!(clusters, [Some(102), Some(100), None]);
    assert!(matches!(
        &plan[1],
        Statement::InsertSegment { start_ns: 2_000_000_000, end_ns: 4_000_000_000, text, .. } if text == "b"
    ));
}

#[test]
fn own_voice_is_told_in_calls() {
    assert!(tells_own_voice(&Some(Source::Call.channel_layout().to_string())));
    assert!(!tells_own_voice(&Some(Source::Device.channel_layout().to_string())));
    assert!(!tells_own_voice(&None));
}

#[test]
fn microphone_ranges_are_in_bounds() {
    let rows = vec![
        SpokenRow { cluster_id: 4, start_ns: 0, end_ns: S },
        SpokenRow { cluster_id: 2, start_ns: S, end_ns: 5 * S },
        SpokenRow { cluster_id: 4, start_ns: 3 * S, end_ns: 4 * S },
        SpokenRow { cluster_id: 4, start_ns: S, end_ns: S },
    ];
    let ranges = mic_ranges(&rows, 32_000);
    assert_eq!(
        ranges,
        [
            MicRange { cluster_id: 4, start: 0, end: 16_000 },
            MicRange { cluster_id: 2, start: 16_000, end: 32_000 },
        ]
    );
    let groups = group_ranges(&ranges);
    assert_eq!(groups.len(), 2);
    assert_eq!((groups[0].key, groups[1].key), (2, 4));
    assert_eq!(groups[1].rows, [0]);
}

#[test]
fn the_loudest_cluster_is_the_users() {
    let groups = group_rows(&vec![1, 2, 3]);
    let bits = |v: [f64; 3]| v.iter().map(|x| x.to_bits()).collect::<Vec<u64>>();
    assert_eq!(loudest_cluster(&groups, &bits([0.1, 0.5, 0.2])), Some(2));
    assert_eq!(loudest_cluster(&groups, &bits([0.5, 0.5, 0.2])), Some(2));
    assert_eq!(loudest_cluster(&groups, &bits([0.0, 0.0, 0.0])), Some(3));
    assert_eq!(loudest_cluster(&vec![], &vec![]), None);
    assert_eq!(loudest_cluster(&group_rows(&vec![8]), &vec![f64::NAN.to_bits()]), Some(8));
}

#[test]
fn the_user_is_enrolled_once() {
    let first = enroll_self(4, None, Some(vec![1, 2]), "now".to_string());
    assert_eq!(first.len(), 3);
    assert!(matches!(
        &first[0],
        Statement::InsertSpeaker { name, embedding, created_at, is_self: true }
            if name == "You" && embedding == &[1, 2] && created_at == "now"
    ));
    assert!(matches!(
        first[1],
        Statement::LabelCluster { cluster_id: 4, speaker: SpeakerRef::JustInserted }
    ));
    let again = enroll_self(4, Some(8), None, "now".to_string());
    assert_eq!(again.len(), 2);
    assert!(matches!(
        again[1],
        Statement::LabelSegments { cluster_id: 4, speaker: SpeakerRef::Id(8) }
    ));
    let unknown = enroll_self(4, None, None, "now".to_string());
    assert!(matches!(&unknown[0], Statement::InsertSpeaker { embedding, .. } if embedding.is_empty()));
}

#[test]
fn the_work_goes_on_without_a_summary() {
    let run = |outcomes: [bool; 4]| {
        let mut stage = Stage::ResolvingModels;
        for ok in outcomes {
            match stage.after(ok) {
                NextStage::Enter(next) => stage = next,
                NextStage::Abort | NextStage::Finished => return (stage.as_str(), false),
            }
        }
        (stage.as_str(), stage.after(true) == NextStage::Finished)
    };
    assert_eq!(run([true, true, true, true]), ("complete", true));
    assert_eq!(run([true, true, false, false]), ("complete", true));
    assert_eq!(run([false, true, true, true]), ("resolving-models", false));
    assert_eq!(run([true, false, true, true]), ("transcribing", false));
    assert_eq!(Stage::Naming.as_str(), "naming");
    assert_eq!(Stage::Summarizing.as_str(), "summarizing");
    assert!(Stage::Summarizing.failure_is_reported() && !Stage::Naming.failure_is_reported());
    assert!(matches!(
        Stage::Complete.statement(3),
        Some(Statement::SetStatus { recording_id: 3, status: Status::AwaitingNaming })
    ));
    assert!(Stage::Naming.statement(3).is_none());
}

#[test]
fn the_most_alike_speakers_are_suggested() {
    let v = rank_suggestions(vec![
        candidate(1, 0.6),
        candidate(2, 0.54),
        candidate(3, 0.9),
        candidate(4, -0.9),
        candidate(5, f32::NAN),
        candidate(6, 0.55),
        candidate(7, 0.6),
        candidate(8, 0.7),
        candidate(9, 0.8),
    ]);
    let ids: Vec<i64> = v.iter().map(|s| s.speaker_id).collect();
    assert_eq!(ids, [3, 9, 8, 1, 7]);
}

#[test]
fn snippets_are_spread_evenly() {
    let all: Vec<Snippet> =
        (0..12).rev().map(|i| snippet(10 * i, 10 * i + 5, "  long enough to be shown ")).collect();
    let v = pick_snippets(all);
    let starts: Vec<i64> = v.iter().map(|s| s.start_ns / S).collect();
    assert_eq!(starts, [0, 20, 40, 70, 90]);
    assert_eq!(v[0].text, "long enough to be shown");
}

#[test]
fn snippets_are_of_a_fitting_length() {
    let v = pick_snippets(vec![
        snippet(0, 1, "long enough to be shown"),
        snippet(1, 3, "long enough to be shown"),
        snippet(3, 15, "long enough to be shown"),
        snippet(15, 28, "long enough to be shown"),
        snippet(30, 35, "twelve chars"),
        snippet(40, 45, "thirteen char"),
        snippet(50, 55, "cut\0 at the zero of the text"),
    ]);
    let starts: Vec<i64> = v.iter().map(|s| s.start_ns / S).collect();
    assert_eq!(starts, [1, 3, 40]);
    assert!(pick_snippets(vec![]).is_empty());
}

#[test]
fn voices_without_a_name_are_shown() {
    let v = unnamed_clusters(vec![
        VoiceFacts {
            cluster_id: 3,
            candidates: vec![candidate(1, 0.8)],
            segments: vec![snippet(0, 5, "long enough to be shown")],
        },
        VoiceFacts { cluster_id: 4, candidates: vec![], segments: vec![] },
    ]);
    assert_eq!(v.len(), 2);
    assert_eq!((v[0].cluster_id, v[0].snippets.len(), v[0].suggestions.len()), (3, 1, 1));
    assert_eq!((v[1].cluster_id, v[1].snippets.len(), v[1].suggestions.len()), (4, 0, 0));
}

fn no_facts() -> DecisionFacts {
    DecisionFacts { folded: None, into_speaker: None }
}

#[test]
fn a_new_speaker_gets_the_voice() {
    let plan = confirm(
        3,
        &vec![1, 0, 0, 0, 7],
        Decision::New { name: "Ada".to_string() },
        no_facts(),
        "now".to_string(),
    )
    .expect("a plan");
    assert_eq!(plan.len(), 3);
    assert!(matches!(
        &plan[0],
        Statement::InsertSpeaker { name, embedding, is_self: false, .. }
            if name == "Ada" && embedding == &[1, 0, 0, 0]
    ));
    assert!(matches!(
        plan[2],
        Statement::LabelSegments { cluster_id: 3, speaker: SpeakerRef::JustInserted }
    ));
}

#[test]
fn a_known_speaker_gets_the_folded_voice() {
    let facts = DecisionFacts { folded: Some(vec![2]), into_speaker: None };
    let plan =
        confirm(3, &vec![], Decision::Existing { speaker_id: 6 }, facts, String::new()).expect("a plan");
    assert!(matches!(
        &plan[0],
        Statement::FoldIntoSpeaker { speaker_id: 6, embedding } if embedding == &[2, 0, 0, 0]
    ));
    assert!(matches!(
        plan[1],
        Statement::LabelCluster { cluster_id: 3, speaker: SpeakerRef::Id(6) }
    ));
    let e = confirm(3, &vec![], Decision::Existing { speaker_id: 6 }, no_facts(), String::new());
    assert!(matches!(e, Err(ConfirmError::NoSuchSpeaker)));
}

#[test]
fn voices_are_merged_or_discarded() {
    let facts = DecisionFacts { folded: None, into_speaker: Some(6) };
    let named =
        confirm(3, &vec![], Decision::Merge { into_cluster_id: 4 }, facts, String::new()).expect("a plan");
    assert!(matches!(named[0], Statement::LabelCluster { cluster_id: 3, speaker: SpeakerRef::Id(6) }));
    let unnamed =
        confirm(3, &vec![], Decision::Merge { into_cluster_id: 4 }, no_facts(), String::new()).expect("a plan");
    assert!(matches!(unnamed[0], Statement::MoveSegments { from: 3, into: 4 }));
    assert!(matches!(unnamed[1], Statement::DeleteCluster { cluster_id: 3 }));
    let noise = confirm(3, &vec![], Decision::Noise, no_facts(), String::new()).expect("a plan");
    assert!(matches!(noise[0], Statement::DeleteClusterSegments { cluster_id: 3 }));
    assert!(matches!(noise[1], Statement::DeleteCluster { cluster_id: 3 }));
    let mut plan = vec![];
    attach_cluster(&mut plan, 1, SpeakerRef::Id(2));
    assert_eq!(plan.len(), 2);
}
