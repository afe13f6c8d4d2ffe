//! What statements make of a database.

use notetaker::db::{
    create_call_recording, create_imported_recording, insert_segment, seed_defaults, set_setting,
};
use notetaker::diarize::{ClusterEmbedding, DiarSegment, DiarizationResult};
use notetaker::pipeline::{enroll_self, Finalizing};
use notetaker::speakers::{confirm, Decision, DecisionFacts};
use notetaker::store::{SegmentRow, SpeakerRef, Statement};
use notetaker::summarize::SummaryRun;
use notetaker::transcribe::TranscribedSegment;
use rusqlite::Connection;
use std::path::Path;

const S: i64 = 1_000_000_000;

fn open() -> Connection {
    let conn = Connection::open_in_memory().expect("a database");
    conn.execute_batch(
        "PRAGMA foreign_keys = ON;
         CREATE TABLE recordings (
             id INTEGER PRIMARY KEY, source_filename TEXT, source TEXT NOT NULL,
             channel_layout TEXT, imported_at TEXT NOT NULL, status TEXT NOT NULL,
             audio_deleted INTEGER NOT NULL DEFAULT 0, audio_path TEXT);
         CREATE TABLE speakers (
             id INTEGER PRIMARY KEY, name TEXT, embedding BLOB,
             sample_count INTEGER NOT NULL DEFAULT 1, created_at TEXT NOT NULL,
             is_self INTEGER NOT NULL DEFAULT 0);
         CREATE TABLE clusters (
             id INTEGER PRIMARY KEY,
             recording_id INTEGER NOT NULL REFERENCES recordings(id) ON DELETE CASCADE,
             local_id INTEGER NOT NULL, embedding BLOB,
             speaker_id INTEGER REFERENCES speakers(id), UNIQUE(recording_id, local_id));
         CREATE TABLE segments (
             id INTEGER PRIMARY KEY,
             recording_id INTEGER NOT NULL REFERENCES recordings(id) ON DELETE CASCADE,
             cluster_id INTEGER REFERENCES clusters(id),
             speaker_id INTEGER REFERENCES speakers(id),
             start_ns INTEGER NOT NULL, end_ns INTEGER NOT NULL, text TEXT NOT NULL);
         CREATE TABLE summary_chunks (
             id INTEGER PRIMARY KEY,
             recording_id INTEGER NOT NULL REFERENCES recordings(id) ON DELETE CASCADE,
             start_ns INTEGER NOT NULL, end_ns INTEGER NOT NULL, text TEXT NOT NULL,
             generated_at TEXT NOT NULL);
         CREATE TABLE rolling_summary (
             recording_id INTEGER PRIMARY KEY REFERENCES recordings(id) ON DELETE CASCADE,
             text TEXT NOT NULL, through_ns INTEGER NOT NULL, updated_at TEXT NOT NULL);
         CREATE TABLE summaries (
             recording_id INTEGER PRIMARY KEY REFERENCES recordings(id) ON DELETE CASCADE,
             text TEXT NOT NULL, model TEXT NOT NULL, generated_at TEXT NOT NULL);
         CREATE TABLE settings (key TEXT PRIMARY KEY, value TEXT NOT NULL);",
    )
    .expect("tables");
    conn
}

fn execute(conn: &Connection, statement: &Statement) -> rusqlite::Result<i64> {
    let speaker = |s: &SpeakerRef| match s {
        SpeakerRef::Id(id) => *id,
        SpeakerRef::JustInserted => conn.last_insert_rowid(),
    };
    match statement {
        Statement::InsertRecording { source, source_filename, imported_at, audio_path } => conn
            .execute(
                "INSERT INTO recordings(source_filename, source, channel_layout, imported_at, status, audio_path)
                 VALUES (?1, ?2, ?3, ?4, ?5, ?6)",
                (source_filename, source.as_str(), source.channel_layout(), imported_at, source.initial_status().as_str(), audio_path),
            )?,
        Statement::SetStatus { recording_id, status } => conn.execute(
            "UPDATE recordings SET status = ?1 WHERE id = ?2",
            (status.as_str(), recording_id),
        )?,
        Statement::AdoptCopy { recording_id, audio_path } => conn.execute(
            "UPDATE recordings SET audio_path = ?1, status = 'transcribing' WHERE id = ?2",
            (audio_path, recording_id),
        )?,
        Statement::MarkAudioDeleted { recording_id } => conn
            .execute("UPDATE recordings SET audio_deleted = 1 WHERE id = ?1", (recording_id,))?,
        Statement::InsertSpeaker { name, embedding, created_at, is_self } => conn.execute(
            "INSERT INTO speakers(name, embedding, created_at, is_self) VALUES (?1, ?2, ?3, ?4)",
            (name, embedding, created_at, is_self),
        )?,
        Statement::FoldIntoSpeaker { speaker_id, embedding } => conn.execute(
            "UPDATE speakers SET embedding = ?1, sample_count = sample_count + 1 WHERE id = ?2",
            (embedding, speaker_id),
        )?,
        Statement::LabelCluster { cluster_id, speaker: s } => conn.execute(
            "UPDATE clusters SET speaker_id = ?1 WHERE id = ?2",
            (speaker(s), cluster_id),
        )?,
        Statement::LabelSegments { cluster_id, speaker: s } => conn.execute(
            "UPDATE segments SET speaker_id = ?1 WHERE cluster_id = ?2",
            (speaker(s), cluster_id),
        )?,
        Statement::MoveSegments { from, into } => conn.execute(
            "UPDATE segments SET cluster_id = ?1 WHERE cluster_id = ?2",
            (into, from),
        )?,
        Statement::DeleteClusterSegments { cluster_id } => {
            conn.execute("DELETE FROM segments WHERE cluster_id = ?1", (cluster_id,))?
        }
        Statement::DeleteCluster { cluster_id } => {
            conn.execute("DELETE FROM clusters WHERE id = ?1", (cluster_id,))?
        }
        Statement::ClearSegments { recording_id } => {
            conn.execute("DELETE FROM segments WHERE recording_id = ?1", (recording_id,))?
        }
        Statement::ClearClusters { recording_id } => {
            conn.execute("DELETE FROM clusters WHERE recording_id = ?1", (recording_id,))?
        }
        Statement::UpsertCluster { recording_id, local_id, embedding } => {
            conn.execute(
                "INSERT INTO clusters(recording_id, local_id, embedding) VALUES (?1, ?2, ?3)
                 ON CONFLICT(recording_id, local_id) DO UPDATE SET embedding = excluded.embedding",
                (recording_id, local_id, embedding),
            )?;
            return conn.query_row(
                "SELECT id FROM clusters WHERE recording_id = ?1 AND local_id = ?2",
                (recording_id, local_id),
                |r| r.get(0),
            );
        }
        Statement::InsertSegment {
            recording_id, cluster_id, speaker_id, start_ns, end_ns, text, ..
        } => conn.execute(
            "INSERT INTO segments(recording_id, cluster_id, speaker_id, start_ns, end_ns, text)
             VALUES (?1, ?2, ?3, ?4, ?5, ?6)",
            (recording_id, cluster_id, speaker_id, start_ns, end_ns, text),
        )?,
        Statement::InsertSummaryChunk { recording_id, start_ns, end_ns, text, generated_at } => conn
            .execute(
                "INSERT INTO summary_chunks(recording_id, start_ns, end_ns, text, generated_at)
                 VALUES (?1, ?2, ?3, ?4, ?5)",
                (recording_id, start_ns, end_ns, text, generated_at),
            )?,
        Statement::PutRollingSummary { recording_id, text, through_ns, updated_at } => conn
            .execute(
                "INSERT INTO rolling_summary(recording_id, text, through_ns, updated_at)
                 VALUES (?1, ?2, ?3, ?4)
                 ON CONFLICT(recording_id) DO UPDATE SET text = excluded.text,
                   through_ns = excluded.through_ns, updated_at = excluded.updated_at",
                (recording_id, text, through_ns, updated_at),
            )?,
        Statement::PutSummary { recording_id, text, model, generated_at } => conn.execute(
            "INSERT INTO summaries(recording_id, text, model, generated_at)
             VALUES (?1, ?2, ?3, ?4)
             ON CONFLICT(recording_id) DO UPDATE SET text = excluded.text,
               model = excluded.model, generated_at = excluded.generated_at",
            (recording_id, text, model, generated_at),
        )?,
        Statement::DefaultSetting { key, value } => conn.execute(
            "INSERT OR IGNORE INTO settings(key, value) VALUES (?1, ?2)",
            (key, value),
        )?,
        Statement::PutSetting { key, value } => conn.execute(
            "INSERT INTO settings(key, value) VALUES (?1, ?2)
             ON CONFLICT(key) DO UPDATE SET value = excluded.value",
            (key, value),
        )?,
    };
    Ok(conn.last_insert_rowid())
}

fn execute_all(conn: &Connection, plan: &[Statement]) -> rusqlite::Result<()> {
    for s in plan {
        execute(conn, s)?;
    }
    Ok(())
}

fn said(start: i64, end: i64, text: &str) -> TranscribedSegment {
    TranscribedSegment {
        start_ns: start * S,
        end_ns: end * S,
        text: text.to_string(),
        confidence: None,
        channel: None,
    }
}

fn heard(start: i64, end: i64, cluster_id: i32) -> DiarSegment {
    DiarSegment { start_ns: start * S, end_ns: end * S, cluster_id }
}

fn new_call(conn: &Connection) -> i64 {
    execute(conn, &create_call_recording(Path::new("audio"), "now".to_string())).expect("a row")
}

/// Stores two clusters with one segment each, and returns the ids of the clusters.
fn finalize(conn: &Connection, recording_id: i64) -> Vec<i64> {
    let diar = DiarizationResult {
        segments: vec![heard(0, 5, 0), heard(5, 9, 1)],
        embeddings: vec![ClusterEmbedding { cluster_id: 0, embedding: vec![7] }],
    };
    let (work, statement) = Finalizing::begin(recording_id);
    execute(conn, &statement).expect("a status");
    assert_eq!(status(conn, recording_id), "transcribing");
    let (work, statement) = work.transcribed(vec![said(0, 4, "first"), said(5, 8, "second")]);
    execute(conn, &statement).expect("a status");
    assert_eq!(status(conn, recording_id), "diarizing");
    let (mut work, clear) = work.told_apart(diar);
    execute_all(conn, &clear).expect("cleared");
    let mut ids: Vec<i64> = Vec::new();
    for s in work.statements() {
        assert!(!work.has_all_ids());
        let id = execute(conn, &s).expect("a cluster");
        assert!(work.stored(Some(id)));
        ids.push(id);
    }
    assert!(work.has_all_ids());
    let (inserts, done) = work.finish();
    execute_all(conn, &inserts).expect("segments");
    execute(conn, &done).expect("a status");
    ids
}

fn status(conn: &Connection, recording_id: i64) -> String {
    conn.query_row("SELECT status FROM recordings WHERE id = ?1", (recording_id,), |r| r.get(0))
        .expect("a status")
}

type SegmentFacts = (i64, String, Option<i64>, Option<i64>);

fn segments(conn: &Connection) -> Vec<SegmentFacts> {
    let mut stmt = conn
        .prepare("SELECT recording_id, text, cluster_id, speaker_id FROM segments ORDER BY id")
        .expect("a query");
    let rows = stmt
        .query_map([], |r| Ok((r.get(0)?, r.get(1)?, r.get(2)?, r.get(3)?)))
        .expect("rows");
    rows.map(|r| r.expect("a row")).collect()
}

fn count(conn: &Connection, table: &str) -> i64 {
    conn.query_row(&format!("SELECT COUNT(*) FROM {table}"), [], |r| r.get(0)).expect("a count")
}

fn no_facts() -> DecisionFacts {
    DecisionFacts { folded: None, into_speaker: None }
}

#[test]
fn a_final_transcript_replaces_the_live_one() {
    let conn = open();
    let other = new_call(&conn);
    execute(&conn, &insert_segment(other, None, None, &said(0, 1, "other"))).expect("a row");
    let call = new_call(&conn);
    execute(&conn, &insert_segment(call, None, None, &said(0, 1, "live"))).expect("a row");
    let first = finalize(&conn, call);
    assert_eq!(
        segments(&conn),
        [
            (other, "other".to_string(), None, None),
            (call, "first".to_string(), Some(first[0]), None),
            (call, "second".to_string(), Some(first[1]), None),
        ]
    );
    let again = finalize(&conn, call);
    assert_eq!(count(&conn, "segments"), 3);
    assert_eq!(count(&conn, "clusters"), 2);
    assert_eq!(again.len(), 2);
    assert_eq!(status(&conn, call), "awaiting_naming");
}

#[test]
fn a_failure_keeps_the_transcript() {
    let conn = open();
    let call = new_call(&conn);
    finalize(&conn, call);
    let before = segments(&conn);
    let (work, statement) = Finalizing::begin(call);
    execute(&conn, &statement).expect("a status");
    assert_eq!((segments(&conn), count(&conn, "clusters")), (before.clone(), 2));
    assert_eq!(status(&conn, call), "transcribing");
    let (_, statement) = work.transcribed(vec![said(0, 1, "new")]);
    execute(&conn, &statement).expect("a status");
    assert_eq!((segments(&conn), count(&conn, "clusters")), (before, 2));
    assert_eq!(status(&conn, call), "diarizing");
}

#[test]
fn a_failure_to_store_leaves_no_transcript() {
    let conn = open();
    let call = new_call(&conn);
    finalize(&conn, call);
    let diar = DiarizationResult {
        segments: vec![heard(0, 5, 0), heard(5, 9, 1)],
        embeddings: vec![ClusterEmbedding { cluster_id: 0, embedding: vec![7] }],
    };
    let (work, _) = Finalizing::begin(call);
    let (work, statement) = work.transcribed(vec![said(0, 4, "new")]);
    execute(&conn, &statement).expect("a status");
    let (mut work, clear) = work.told_apart(diar);
    execute_all(&conn, &clear).expect("cleared");
    assert!(!work.stored(None), "the cluster with an embedding is required");
    assert!(work.stored(Some(9)));
    assert!(work.stored(None), "the one without is not");
    assert!(work.has_all_ids());
    assert_eq!((count(&conn, "segments"), count(&conn, "clusters")), (0, 0));
    assert_eq!(status(&conn, call), "diarizing");
}

/// The texts of the chunks, the running summaries and the summaries.
fn summaries(conn: &Connection) -> (Vec<String>, Vec<String>, Vec<String>) {
    let texts = |table: &str| -> Vec<String> {
        let mut stmt =
            conn.prepare(&format!("SELECT text FROM {table} ORDER BY rowid")).expect("a query");
        let rows = stmt.query_map([], |r| r.get(0)).expect("rows");
        rows.map(|r| r.expect("a row")).collect()
    };
    (texts("summary_chunks"), texts("rolling_summary"), texts("summaries"))
}

fn spoken(start: i64, end: i64) -> SegmentRow {
    SegmentRow {
        id: start,
        speaker_id: None,
        speaker_name: None,
        start_ns: start * S,
        end_ns: end * S,
        text: "x".to_string(),
        confidence: None,
    }
}

/// Stores these replies, and returns whether more is asked.
fn summarise(conn: &Connection, recording_id: i64, replies: &[&str]) -> bool {
    let mut run = SummaryRun::new(
        recording_id,
        "m".to_string(),
        vec![spoken(0, 10), spoken(12, 20)],
    );
    for reply in replies {
        assert!(run.question().is_some());
        execute(conn, &run.reply(reply, "now".to_string())).expect("a row");
    }
    run.question().is_some()
}

#[test]
fn a_summary_is_stored_as_far_as_it_came() {
    let strings = |v: &[&str]| -> Vec<String> { v.iter().map(|s| s.to_string()).collect() };
    let conn = open();
    let call = new_call(&conn);
    assert!(summarise(&conn, call, &["b1", "r1", "b2"]));
    assert_eq!(summaries(&conn), (strings(&["b1", "b2"]), strings(&["r1"]), strings(&[])));
    assert!(!summarise(&conn, call, &["B1", "R1", "B2", "R2", "all"]));
    assert_eq!(
        summaries(&conn),
        (strings(&["b1", "b2", "B1", "B2"]), strings(&["R2"]), strings(&["all"]))
    );
    assert!(!summarise(&conn, call, &["", "", "", "", "more"]));
    assert_eq!(summaries(&conn).2, strings(&["more"]));
    let mut run = SummaryRun::new(call + 1, "m".to_string(), vec![spoken(0, 10)]);
    assert!(execute(&conn, &run.reply("b", "now".to_string())).is_err(), "no such recording");
}

#[test]
fn a_new_speaker_is_attached_to_the_cluster() {
    let conn = open();
    let call = new_call(&conn);
    let ids = finalize(&conn, call);
    let plan = confirm(
        ids[0],
        &vec![7, 0, 0, 0],
        Decision::New { name: "Ada".to_string() },
        no_facts(),
        "now".to_string(),
    )
    .expect("a plan");
    execute_all(&conn, &plan).expect("done");
    let (id, name): (i64, String) = conn
        .query_row("SELECT id, name FROM speakers", [], |r| Ok((r.get(0)?, r.get(1)?)))
        .expect("one speaker");
    assert_eq!(name, "Ada");
    let rows = segments(&conn);
    assert_eq!((rows[0].3, rows[1].3), (Some(id), None));
}

#[test]
fn a_known_speaker_gets_one_sample_more() {
    let conn = open();
    let call = new_call(&conn);
    let ids = finalize(&conn, call);
    execute_all(&conn, &enroll_self(ids[0], None, None, "now".to_string())).expect("done");
    let p: i64 = conn.query_row("SELECT id FROM speakers", [], |r| r.get(0)).expect("a speaker");
    let facts = DecisionFacts { folded: Some(vec![3]), into_speaker: None };
    let plan = confirm(ids[1], &vec![], Decision::Existing { speaker_id: p }, facts, String::new())
        .expect("a plan");
    execute_all(&conn, &plan).expect("done");
    let (samples, embedding): (i64, Vec<u8>) = conn
        .query_row("SELECT sample_count, embedding FROM speakers", [], |r| {
            Ok((r.get(0)?, r.get(1)?))
        })
        .expect("one speaker");
    assert_eq!((samples, embedding), (2, vec![3, 0, 0, 0]));
    assert!(segments(&conn).iter().all(|s| s.3 == Some(p)));
}

#[test]
fn merged_segments_move() {
    let conn = open();
    let call = new_call(&conn);
    let ids = finalize(&conn, call);
    let merge = |into_cluster_id: i64| {
        confirm(ids[1], &vec![], Decision::Merge { into_cluster_id }, no_facts(), String::new())
            .expect("a plan")
    };
    assert!(execute_all(&conn, &merge(12345)).is_err());
    assert!(execute_all(&conn, &merge(ids[1])).is_err());
    assert_eq!(count(&conn, "clusters"), 2);
    execute_all(&conn, &merge(ids[0])).expect("done");
    assert_eq!(count(&conn, "clusters"), 1);
    assert!(segments(&conn).iter().all(|s| s.2 == Some(ids[0])));
}

#[test]
fn noise_is_gone() {
    let conn = open();
    let call = new_call(&conn);
    let ids = finalize(&conn, call);
    let plan =
        confirm(ids[0], &vec![], Decision::Noise, no_facts(), String::new()).expect("a plan");
    execute_all(&conn, &plan).expect("done");
    let rows = segments(&conn);
    assert_eq!(rows.len(), 1);
    assert_eq!(rows[0].1, "second");
    assert_eq!(count(&conn, "clusters"), 1);
}

#[test]
fn enrolling_again_changes_nothing() {
    let conn = open();
    let call = new_call(&conn);
    let ids = finalize(&conn, call);
    execute_all(&conn, &enroll_self(ids[0], None, Some(vec![1]), "now".to_string())).expect("done");
    let before = segments(&conn);
    let p: i64 = conn
        .query_row("SELECT id FROM speakers WHERE is_self = 1 AND name = 'You'", [], |r| r.get(0))
        .expect("the user");
    assert_eq!(before[0].3, Some(p));
    execute_all(&conn, &enroll_self(ids[0], Some(p), Some(vec![1]), "later".to_string()))
        .expect("done");
    assert_eq!(segments(&conn), before);
    assert_eq!(count(&conn, "speakers"), 1);
}

#[test]
fn seeding_keeps_what_the_user_has_set() {
    let conn = open();
    execute(&conn, &set_setting("ollama_url".to_string(), "http://box".to_string())).expect("set");
    execute_all(&conn, &seed_defaults()).expect("seeded");
    let read = |key: &str| -> String {
        conn.query_row("SELECT value FROM settings WHERE key = ?1", (key,), |r| r.get(0))
            .expect("a value")
    };
    assert_eq!(read("ollama_url"), "http://box");
    assert_eq!(count(&conn, "settings"), 5);
    execute(&conn, &set_setting("diarize".to_string(), "x".to_string())).expect("set");
    assert_eq!(read("diarize"), "x");
}

#[test]
fn imports_start_in_mono() {
    let conn = open();
    let s = create_imported_recording("a.wav", Path::new("E:/a.wav"), "now".to_string());
    execute(&conn, &s).expect("a row");
    let (layout, status): (String, String) = conn
        .query_row("SELECT channel_layout, status FROM recordings", [], |r| {
            Ok((r.get(0)?, r.get(1)?))
        })
        .expect("a row");
    assert_eq!((layout.as_str(), status.as_str()), ("mono", "transcribing"));
}
