//! Rows and settings as they are first written.

use std::path::{Path, PathBuf};

use vstd::prelude::*;
use vstd::string::*;
use vstd::utf8::encode_utf8;

use crate::digits::{decimal_i64, law_signed_decimals_differ, signed_decimal};
use crate::paths::{
    as_path, as_path_of, buf_parts, is_ordinary, is_plain_name, join, joined_path,
    lemma_decimal_separates_nothing, path_parts, path_text, separates, to_text, within,
};
use crate::store::{
    effect, fresh, run, stmts, SegmentRec, Source, Statement, Status, Stmt, Tables,
};
use crate::text::concat3;
use crate::transcribe::TranscribedSegment;

verus! {

/// The settings as they are before the user changes any: the keys and the values.
pub open spec fn defaults() -> Seq<(Seq<char>, Seq<char>)> {
    seq![
        (
            "transcribe_live"@,
            "{\"model\":\"small.en\",\"backend\":\"cuda\",\"device_index\":0}"@,
        ),
        (
            "transcribe_finalize"@,
            "{\"model\":\"medium.en\",\"backend\":\"cuda\",\"device_index\":0}"@,
        ),
        ("diarize"@, "{\"backend\":\"cuda\",\"device_index\":0}"@),
        ("summarize"@, "{\"model\":\"qwen2.5:7b\",\"backend\":\"cuda\"}"@),
        ("ollama_url"@, "http://localhost:11434"@),
    ]
}

/// The statements that give each setting its value, unless it has one.
pub open spec fn seed_plan(settings: Seq<(Seq<char>, Seq<char>)>) -> Seq<Stmt> {
    Seq::new(
        settings.len(),
        |i: int| Stmt::DefaultSetting { key: settings[i].0, value: settings[i].1 },
    )
}

fn default_setting(key: &str, value: &str) -> (r: Statement)
    ensures
        r@ == (Stmt::DefaultSetting { key: key@, value: value@ }),
{
    Statement::DefaultSetting { key: key.to_owned(), value: value.to_owned() }
}

/// The statements that seed the settings.
pub fn seed_defaults() -> (r: Vec<Statement>)
    ensures
        stmts(r@) == seed_plan(defaults()),
{
    let mut r: Vec<Statement> = Vec::new();
    r.push(
        default_setting(
            "transcribe_live",
            "{\"model\":\"small.en\",\"backend\":\"cuda\",\"device_index\":0}",
        ),
    );
    r.push(
        default_setting(
            "transcribe_finalize",
            "{\"model\":\"medium.en\",\"backend\":\"cuda\",\"device_index\":0}",
        ),
    );
    r.push(default_setting("diarize", "{\"backend\":\"cuda\",\"device_index\":0}"));
    r.push(default_setting("summarize", "{\"model\":\"qwen2.5:7b\",\"backend\":\"cuda\"}"));
    r.push(default_setting("ollama_url", "http://localhost:11434"));
    assert(stmts(r@) =~= seed_plan(defaults()));
    r
}

/// The settings after seeding: each keeps the value that it had, or else gets the first that is
/// given for it.
pub open spec fn seeded(
    before: Map<Seq<char>, Seq<char>>,
    settings: Seq<(Seq<char>, Seq<char>)>,
) -> Map<Seq<char>, Seq<char>>
    decreases settings.len(),
{
    if settings.len() == 0 {
        before
    } else {
        let front = seeded(before, settings.drop_last());
        if front.dom().contains(settings.last().0) {
            front
        } else {
            front.insert(settings.last().0, settings.last().1)
        }
    }
}

/// Seeding changes nothing but the settings, and no setting that has a value; afterwards each
/// seeded setting has one.
pub proof fn law_seeding_keeps_what_is_set(
    t: Tables,
    settings: Seq<(Seq<char>, Seq<char>)>,
    ids: Seq<i64>,
)
    requires
        ids.len() == settings.len(),
    ensures
        run(t, seed_plan(settings), ids) == Some(
            Tables { settings: seeded(t.settings, settings), ..t },
        ),
        forall|k: Seq<char>| #[trigger]
            t.settings.dom().contains(k) ==> seeded(t.settings, settings).dom().contains(k)
                && seeded(t.settings, settings)[k] == t.settings[k],
        forall|i: int|
            0 <= i < settings.len() ==> seeded(t.settings, settings).dom().contains(
                (#[trigger] settings[i]).0,
            ),
    decreases settings.len(),
{
    if settings.len() > 0 {
        let front = settings.drop_last();
        law_seeding_keeps_what_is_set(t, front, ids.drop_last());
        assert(seed_plan(settings).drop_last() =~= seed_plan(front));
        assert forall|i: int| 0 <= i < settings.len() implies seeded(
            t.settings,
            settings,
        ).dom().contains((#[trigger] settings[i]).0) by {
            if i < front.len() {
                assert(front[i] == settings[i]);
            }
        }
    }
}

/// The statement that sets a setting.
pub fn set_setting(key: String, value: String) -> (r: Statement)
    ensures
        r@ == (Stmt::PutSetting { key: key@, value: value@ }),
{
    Statement::PutSetting { key, value }
}

/// A setting that has been set reads as it was set, and no other setting changes.
pub proof fn law_a_setting_is_read_back(t: Tables, key: Seq<char>, value: Seq<char>, id: i64)
    ensures
        effect(t, Stmt::PutSetting { key, value }, id) matches Some(u) && u.settings.dom().contains(
            key,
        ) && u.settings[key] == value && u.settings.remove(key) == t.settings.remove(key),
{
    let u = effect(t, Stmt::PutSetting { key, value }, id).unwrap();
    assert(u.settings.remove(key) =~= t.settings.remove(key));
}

proof fn lemma_audio_is_plain()
    ensures
        is_plain_name("audio"@),
{
    reveal_strlit("audio");
    assert("audio"@.len() == 5);
}

/// The directory that audio is kept in.
pub fn audio_dir(data_dir: &Path) -> (r: PathBuf)
    ensures
        r == joined_path(data_dir, "audio"@),
        is_ordinary(data_dir) ==> buf_parts(r) == path_parts(data_dir).push(encode_utf8("audio"@))
            && is_ordinary(as_path_of(&r)),
{
    proof {
        lemma_audio_is_plain();
    }
    join(data_dir, "audio")
}

/// The name of the file that a call is captured to.
pub open spec fn call_name(recording_id: i64) -> Seq<char> {
    "call_"@ + signed_decimal(recording_id as int) + ".wav"@
}

/// Where a call is captured to.
pub fn call_path(data_dir: &Path, recording_id: i64) -> (r: PathBuf)
    ensures
        r == joined_path(within(data_dir, "audio"@), call_name(recording_id)),
        is_ordinary(data_dir) ==> buf_parts(r) == path_parts(data_dir).push(
            encode_utf8("audio"@),
        ).push(encode_utf8(call_name(recording_id))),
{
    let dir = audio_dir(data_dir);
    let id = decimal_i64(recording_id);
    let name = concat3("call_", id.as_str(), ".wav");
    proof {
        reveal_strlit("call_");
        reveal_strlit(".wav");
        lemma_decimal_separates_nothing(recording_id as int);
        let n = name@;
        let d = signed_decimal(recording_id as int);
        assert(n == call_name(recording_id));
        assert forall|i: int| 0 <= i < n.len() implies !separates(#[trigger] n[i]) by {
            if 5 <= i < 5 + d.len() {
                assert(n[i] == d[i - 5]);
            }
        }
        assert(n[0] == 'c' && n[1] == 'a');
    }
    join(as_path(&dir), name.as_str())
}

/// The statement that adds a call which is about to be captured at the time `now`. Until the
/// capture ends its audio path is the directory for audio.
pub fn create_call_recording(audio_dir: &Path, now: String) -> (r: Statement)
    ensures
        r@ == (Stmt::InsertRecording {
            source: Source::Call,
            source_filename: None,
            imported_at: now@,
            audio_path: path_text(audio_dir),
        }),
{
    Statement::InsertRecording {
        source: Source::Call,
        source_filename: None,
        imported_at: now,
        audio_path: to_text(audio_dir),
    }
}

/// The statement that adds a recording which is about to be imported at the time `now`. Until
/// it has been copied its audio path is that of the source.
pub fn create_imported_recording(filename: &str, audio_path: &Path, now: String) -> (r: Statement)
    ensures
        r@ == (Stmt::InsertRecording {
            source: Source::Device,
            source_filename: Some(filename@),
            imported_at: now@,
            audio_path: path_text(audio_path),
        }),
{
    Statement::InsertRecording {
        source: Source::Device,
        source_filename: Some(filename.to_owned()),
        imported_at: now,
        audio_path: to_text(audio_path),
    }
}

/// The statement that sets the status of a recording.
pub fn update_status(recording_id: i64, status: Status) -> (r: Statement)
    ensures
        r@ == (Stmt::SetStatus { recording_id, status }),
{
    Statement::SetStatus { recording_id, status }
}

/// The statement that notes that the audio of a recording has been deleted.
pub fn mark_audio_deleted(recording_id: i64) -> (r: Statement)
    ensures
        r@ == (Stmt::MarkAudioDeleted { recording_id }),
{
    Statement::MarkAudioDeleted { recording_id }
}

/// The statement that adds a piece of a transcript to a recording, as what a cluster and a
/// speaker said where they are known.
pub fn insert_segment(
    recording_id: i64,
    cluster_id: Option<i64>,
    speaker_id: Option<i64>,
    piece: &TranscribedSegment,
) -> (r: Statement)
    ensures
        r@ == (Stmt::InsertSegment {
            segment: SegmentRec {
                recording_id,
                cluster_id,
                speaker_id,
                start_ns: piece.start_ns,
                end_ns: piece.end_ns,
                text: piece.text@,
                confidence: piece.confidence,
            },
        }),
{
    Statement::InsertSegment {
        recording_id,
        cluster_id,
        speaker_id,
        start_ns: piece.start_ns,
        end_ns: piece.end_ns,
        text: piece.text.clone(),
        confidence: piece.confidence,
    }
}

/// The statement that gives a recording a cluster of this local id, or that cluster another
/// embedding.
pub fn upsert_cluster(recording_id: i64, local_id: i64, embedding: &Vec<u8>) -> (r: Statement)
    ensures
        r@ == (Stmt::UpsertCluster { recording_id, local_id, embedding: embedding@ }),
{
    Statement::UpsertCluster { recording_id, local_id, embedding: embedding.clone() }
}

/// A call starts out being recorded, in stereo; an import starts out to be transcribed, in mono.
/// No row that was there changes.
pub proof fn law_a_new_recording(
    t: Tables,
    source: Source,
    source_filename: Option<Seq<char>>,
    imported_at: Seq<char>,
    audio_path: Seq<char>,
    id: i64,
)
    requires
        fresh(
            t,
            Stmt::InsertRecording { source, source_filename, imported_at, audio_path },
            id,
        ),
    ensures
        ({
            let stmt = Stmt::InsertRecording { source, source_filename, imported_at, audio_path };
            &&& effect(t, stmt, id) matches Some(u)
            &&& u.recordings.remove(id) == t.recordings
            &&& u.recordings.dom().contains(id)
            &&& u.recordings[id].audio_path == audio_path
            &&& u.recordings[id].source_filename == source_filename
            &&& source == Source::Call ==> u.recordings[id].status == Status::Recording
                && u.recordings[id].channel_layout == "stereo_mic_loopback"@
            &&& source == Source::Device ==> u.recordings[id].status == Status::Transcribing
                && u.recordings[id].channel_layout == "mono"@
        }),
{
    let stmt = Stmt::InsertRecording { source, source_filename, imported_at, audio_path };
    let u = effect(t, stmt, id).unwrap();
    assert(u.recordings.remove(id) =~= t.recordings);
}

/// Seeding gives each setting that has no value the first one that is given for it.
pub proof fn law_seeding_gives_the_first_value(
    before: Map<Seq<char>, Seq<char>>,
    settings: Seq<(Seq<char>, Seq<char>)>,
    i: int,
)
    requires
        0 <= i < settings.len(),
        !before.dom().contains(settings[i].0),
        forall|j: int| 0 <= j < i ==> (#[trigger] settings[j]).0 != settings[i].0,
    ensures
        seeded(before, settings).dom().contains(settings[i].0),
        seeded(before, settings)[settings[i].0] == settings[i].1,
    decreases settings.len(),
{
    let front = settings.drop_last();
    if i < front.len() {
        assert(front[i] == settings[i]);
        assert forall|j: int| 0 <= j < i implies (#[trigger] front[j]).0 != front[i].0 by {
            assert(front[j] == settings[j]);
        }
        law_seeding_gives_the_first_value(before, front, i);
    } else {
        lemma_seeded_only_given(before, front, settings[i].0);
    }
}

proof fn lemma_seeded_only_given(
    before: Map<Seq<char>, Seq<char>>,
    settings: Seq<(Seq<char>, Seq<char>)>,
    key: Seq<char>,
)
    requires
        !before.dom().contains(key),
        forall|j: int| 0 <= j < settings.len() ==> (#[trigger] settings[j]).0 != key,
    ensures
        !seeded(before, settings).dom().contains(key),
    decreases settings.len(),
{
    if settings.len() > 0 {
        let front = settings.drop_last();
        assert forall|j: int| 0 <= j < front.len() implies (#[trigger] front[j]).0 != key by {
            assert(front[j] == settings[j]);
        }
        lemma_seeded_only_given(before, front, key);
        assert(settings[settings.len() - 1].0 != key);
    }
}

/// The defaults are five settings under different names, each with its value.
pub proof fn law_defaults_are_complete()
    ensures
        defaults().len() == 5,
        defaults()[0] == (
            "transcribe_live"@,
            "{\"model\":\"small.en\",\"backend\":\"cuda\",\"device_index\":0}"@,
        ),
        defaults()[1] == (
            "transcribe_finalize"@,
            "{\"model\":\"medium.en\",\"backend\":\"cuda\",\"device_index\":0}"@,
        ),
        defaults()[2] == ("diarize"@, "{\"backend\":\"cuda\",\"device_index\":0}"@),
        defaults()[3] == ("summarize"@, "{\"model\":\"qwen2.5:7b\",\"backend\":\"cuda\"}"@),
        defaults()[4] == ("ollama_url"@, "http://localhost:11434"@),
{
}

/// Each call has a file of its own, which is named after its number.
pub proof fn law_calls_have_names_of_their_own(a: i64, b: i64)
    ensures
        "call_"@.is_prefix_of(call_name(a)),
        ".wav"@.is_suffix_of(call_name(a)),
        call_name(a).len() == "call_"@.len() + signed_decimal(a as int).len() + ".wav"@.len(),
        call_name(a).subrange(
            "call_"@.len() as int,
            call_name(a).len() - ".wav"@.len(),
        ) == signed_decimal(a as int),
        call_name(a) == call_name(b) ==> a == b,
{
    let n = call_name(a);
    let m = call_name(b);
    let k = "call_"@.len() as int;
    let e = ".wav"@.len() as int;
    assert("call_"@ =~= n.subrange(0, k));
    assert(".wav"@ =~= n.subrange(n.len() - e, n.len() as int));
    assert(n.subrange(k, n.len() - e) =~= signed_decimal(a as int));
    assert(m.subrange(k, m.len() - e) =~= signed_decimal(b as int));
    law_signed_decimals_differ(a as int, b as int);
}

} // verus!
