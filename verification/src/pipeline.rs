//! What happens to a recording once it is complete: its transcript is made and its voices are
//! told apart, the user's own voice is found, and it is summarised.

use std::path::{Path, PathBuf};

use vstd::math::{max, min};
use vstd::prelude::*;
use vstd::string::*;
use vstd::utf8::encode_utf8;

use crate::db::{insert_segment, update_status, upsert_cluster};
use crate::diarize::{
    decoded, encode_embedding, encoded, law_decoding_undoes_encoding, ClusterEmbedding,
    DiarSegment, DiarizationResult,
};
use crate::grouping::{are_groups, group_rows, Group};
use crate::json::{
    json_members, member, parse_json, read_setting_text, setting_text, string_member,
};
use crate::models::{below, model_file, sherpa_paths, whisper_path};
use crate::paths::{
    as_path, as_path_of, buf_parts, in_one_part, is_ordinary, is_plain_name, join, joined_path,
    path_parts, within,
};
use crate::selection::{ascending, lemma_position_added};
use crate::speakers::{
    attach_cluster, attach_plan, attached, law_attaching_labels_the_cluster_and_its_segments,
    same_id,
};
use crate::store::{
    effect, law_lists_run_one_after_another, lemma_run_push, run, stmts, ClusterRec, RecordingRec,
    SegmentRec, Source, SpeakerRec, SpeakerRef, Statement, Status, Stmt, Tables,
};
use crate::text::{opt_text, same};
use crate::time::{sample_at, sample_of};
use crate::transcribe::{pieces, Piece, TranscribedSegment};

verus! {

/// Which models are used, and where they are and run.
#[derive(Debug)]
pub struct ModelConfig {
    pub whisper_finalize_path: PathBuf,
    pub diarize_segmentation_path: PathBuf,
    pub diarize_embedding_path: PathBuf,
    pub device_index: i32,
    pub ollama_url: String,
    pub ollama_model: String,
}

/// A configuration, and the name of the speech model in it.
#[derive(Debug)]
pub struct ResolvedConfig {
    pub config: ModelConfig,
    pub finalize_model: String,
}

/// Why there is no configuration.
#[derive(Debug)]
pub enum ConfigError {
    /// The setting for the transcript that is kept is missing.
    MissingFinalize,
    /// That setting is not JSON.
    MalformedFinalize(serde_json::Error),
}

/// The text, or the other one where there is none.
pub open spec fn text_or(text: Option<Seq<char>>, other: Seq<char>) -> Seq<char> {
    match text {
        Some(t) => t,
        None => other,
    }
}

/// The string, or the other text where there is none.
pub fn string_or(text: Option<String>, other: &str) -> (r: String)
    ensures
        r@ == text_or(opt_text(text), other@),
{
    match text {
        Some(t) => t,
        None => other.to_owned(),
    }
}

/// The device that models run on: the first GPU for CUDA, and otherwise none.
pub open spec fn device_of(backend: Seq<char>) -> i32 {
    if backend == "cuda"@ {
        0
    } else {
        (-1) as i32
    }
}

/// The index of the device that models run on, which is negative for the CPU.
pub fn device_index(backend: &str) -> (r: i32)
    ensures
        r == device_of(backend@),
{
    if same(backend, "cuda") {
        0
    } else {
        -1
    }
}

proof fn lemma_models_is_plain()
    ensures
        is_plain_name("models"@),
{
    reveal_strlit("models");
    assert("models"@.len() == 6);
}

/// The directory that models are kept in.
pub fn models_dir(data_dir: &Path) -> (r: PathBuf)
    ensures
        r == joined_path(data_dir, "models"@),
        is_ordinary(data_dir) ==> buf_parts(r) == path_parts(data_dir).push(encode_utf8("models"@))
            && is_ordinary(as_path_of(&r)),
{
    proof {
        lemma_models_is_plain();
    }
    join(data_dir, "models")
}

/// Whether `r` is the configuration that these settings make: the speech model and what it runs
/// on, the address and the model for summaries, each with its default where it is not set.
pub open spec fn configures(
    r: ResolvedConfig,
    data_dir: &Path,
    model: Option<Seq<char>>,
    backend: Option<Seq<char>>,
    ollama_url: Option<Seq<char>>,
    ollama_model: Option<Seq<char>>,
) -> bool {
    let models = within(data_dir, "models"@);
    let dir = path_parts(data_dir).push(encode_utf8("models"@));
    let name = text_or(model, "medium.en"@);
    &&& r.finalize_model@ == name
    &&& r.config.whisper_finalize_path == joined_path(
        within(models, "whisper"@),
        model_file(name),
    )
    &&& is_ordinary(data_dir) && in_one_part(name) ==> buf_parts(r.config.whisper_finalize_path)
        == below(dir, seq!["whisper"@, model_file(name)])
    &&& r.config.diarize_segmentation_path == joined_path(
        within(within(models, "sherpa"@), "sherpa-onnx-pyannote-segmentation-3-0"@),
        "model.onnx"@,
    )
    &&& is_ordinary(data_dir) ==> buf_parts(r.config.diarize_segmentation_path) == below(
        dir,
        seq!["sherpa"@, "sherpa-onnx-pyannote-segmentation-3-0"@, "model.onnx"@],
    )
    &&& r.config.diarize_embedding_path == joined_path(
        within(models, "sherpa"@),
        "3dspeaker_speech_eres2net_base_sv_zh-cn_3dspeaker_16k.onnx"@,
    )
    &&& is_ordinary(data_dir) ==> buf_parts(r.config.diarize_embedding_path) == below(
        dir,
        seq!["sherpa"@, "3dspeaker_speech_eres2net_base_sv_zh-cn_3dspeaker_16k.onnx"@],
    )
    &&& r.config.device_index == device_of(text_or(backend, "cpu"@))
    &&& r.config.ollama_url@ == text_or(ollama_url, "http://localhost:11434"@)
    &&& r.config.ollama_model@ == text_or(ollama_model, "qwen2.5:7b"@)
}

/// The configuration that these settings make.
pub fn configure(
    data_dir: &Path,
    model: Option<String>,
    backend: Option<String>,
    ollama_url: Option<String>,
    ollama_model: Option<String>,
) -> (r: ResolvedConfig)
    ensures
        configures(
            r,
            data_dir,
            opt_text(model),
            opt_text(backend),
            opt_text(ollama_url),
            opt_text(ollama_model),
        ),
{
    let finalize_model = string_or(model, "medium.en");
    let backend = string_or(backend, "cpu");
    let dir = models_dir(data_dir);
    let whisper_finalize_path = whisper_path(as_path(&dir), finalize_model.as_str());
    let (diarize_segmentation_path, diarize_embedding_path) = sherpa_paths(as_path(&dir));
    ResolvedConfig {
        config: ModelConfig {
            whisper_finalize_path,
            diarize_segmentation_path,
            diarize_embedding_path,
            device_index: device_index(backend.as_str()),
            ollama_url: string_or(ollama_url, "http://localhost:11434"),
            ollama_model: string_or(ollama_model, "qwen2.5:7b"),
        },
        finalize_model,
    }
}

/// The configuration that the settings make, which are given as they are stored: that for the
/// transcript that is kept, which must be there and be JSON, the address for summaries, and the
/// one for summaries.
pub fn resolve_config(
    data_dir: &Path,
    transcribe_finalize: Option<String>,
    ollama_url: Option<String>,
    summarize: Option<String>,
) -> (r: Result<ResolvedConfig, ConfigError>)
    ensures
        match transcribe_finalize {
            None => r matches Err(ConfigError::MissingFinalize),
            Some(raw) => match json_members(raw@) {
                None => r matches Err(ConfigError::MalformedFinalize(_)),
                Some(members) => r matches Ok(c) && configures(
                    c,
                    data_dir,
                    member(members, "model"@),
                    member(members, "backend"@),
                    opt_text(ollama_url),
                    setting_text(opt_text(summarize), "model"@),
                ),
            },
        },
{
    let raw = match transcribe_finalize {
        Some(raw) => raw,
        None => {
            return Err(ConfigError::MissingFinalize);
        },
    };
    let value = match parse_json(raw.as_str()) {
        Ok(value) => value,
        Err(e) => {
            return Err(ConfigError::MalformedFinalize(e));
        },
    };
    let model = string_member(&value, "model");
    let backend = string_member(&value, "backend");
    let ollama_model = read_setting_text(&summarize, "model");
    Ok(configure(data_dir, model, backend, ollama_url, ollama_model))
}

/// For how long a segment and the stretch from `start` to `end` overlap.
pub open spec fn overlap(d: DiarSegment, start: i64, end: i64) -> int {
    let from = if start > d.start_ns {
        start
    } else {
        d.start_ns
    };
    let to = if end < d.end_ns {
        end
    } else {
        d.end_ns
    };
    if to > from {
        to - from
    } else {
        0
    }
}

/// Whether the segment at `i` is the first of those that overlap the stretch the longest.
pub open spec fn overlaps_longest(
    segments: Seq<DiarSegment>,
    start: i64,
    end: i64,
    i: int,
) -> bool {
    &&& 0 <= i < segments.len()
    &&& overlap(segments[i], start, end) > 0
    &&& forall|j: int|
        0 <= j < segments.len() ==> overlap(#[trigger] segments[j], start, end) <= overlap(
            segments[i],
            start,
            end,
        )
    &&& forall|j: int|
        0 <= j < i ==> overlap(#[trigger] segments[j], start, end) < overlap(
            segments[i],
            start,
            end,
        )
}

/// The cluster whose voice is heard the longest during a stretch: that of the first segment
/// that overlaps it the longest, if any does.
pub open spec fn cluster_during(segments: Seq<DiarSegment>, start: i64, end: i64) -> Option<i32> {
    if exists|i: int| overlaps_longest(segments, start, end, i) {
        Some(segments[choose|i: int| overlaps_longest(segments, start, end, i)].cluster_id)
    } else {
        None
    }
}

/// The cluster whose voice is heard the longest during a stretch.
pub fn best_cluster(diar_segments: &[DiarSegment], start: i64, end: i64) -> (r: Option<i32>)
    ensures
        r == cluster_during(diar_segments@, start, end),
{
    let ghost all = diar_segments@;
    let mut best: Option<usize> = None;
    let mut longest: i128 = 0;
    let mut i: usize = 0;
    while i < diar_segments.len()
        invariant
            i <= diar_segments@.len(),
            all == diar_segments@,
            longest >= 0,
            forall|j: int| 0 <= j < i ==> overlap(#[trigger] all[j], start, end) <= longest,
            match best {
                Some(b) => b < i && longest > 0 && overlap(all[b as int], start, end) == longest
                    && forall|j: int|
                    0 <= j < b ==> overlap(#[trigger] all[j], start, end) < longest,
                None => longest == 0,
            },
        decreases diar_segments@.len() - i,
    {
        let d = diar_segments[i];
        let from: i64 = if start > d.start_ns {
            start
        } else {
            d.start_ns
        };
        let to: i64 = if end < d.end_ns {
            end
        } else {
            d.end_ns
        };
        if to > from {
            let length: i128 = to as i128 - from as i128;
            assert(overlap(all[i as int], start, end) == length);
            if length > longest {
                longest = length;
                best = Some(i);
            }
        }
        i = i + 1;
    }
    match best {
        Some(b) => {
            proof {
                assert(overlaps_longest(all, start, end, b as int));
                let c = choose|i: int| overlaps_longest(all, start, end, i);
                assert(overlaps_longest(all, start, end, c));
                if c < b {
                    assert(overlap(all[c], start, end) < overlap(all[b as int], start, end));
                }
                if b < c {
                    assert(overlap(all[b as int], start, end) < overlap(all[c], start, end));
                }
            }
            Some(diar_segments[b].cluster_id)
        },
        None => None,
    }
}

/// A cluster to be stored.
#[derive(Debug)]
pub struct ClusterRow {
    pub local_id: i32,
    pub embedding: Vec<u8>,
    /// Whether the transcript cannot be stored if this cluster cannot.
    pub required: bool,
}

/// A cluster to be stored, as a mathematical value.
pub struct NewCluster {
    pub local_id: i32,
    pub embedding: Seq<u8>,
    pub required: bool,
}

impl View for ClusterRow {
    type V = NewCluster;

    open spec fn view(&self) -> NewCluster {
        NewCluster {
            local_id: self.local_id,
            embedding: self.embedding@,
            required: self.required,
        }
    }
}

/// The mathematical values of clusters to be stored.
pub open spec fn new_clusters(rows: Seq<ClusterRow>) -> Seq<NewCluster> {
    Seq::new(rows.len(), |i: int| rows[i]@)
}

/// Whether a cluster of this local id is among these.
pub open spec fn has_cluster(rows: Seq<NewCluster>, local_id: i32) -> bool {
    exists|i: int| 0 <= i < rows.len() && (#[trigger] rows[i]).local_id == local_id
}

/// The clusters with an embedding.
pub open spec fn embedded(embeddings: Seq<ClusterEmbedding>) -> Seq<NewCluster> {
    Seq::new(
        embeddings.len(),
        |i: int|
            NewCluster {
                local_id: embeddings[i].cluster_id,
                embedding: encoded(embeddings[i].embedding@),
                required: true,
            },
    )
}

/// These clusters, and behind them, without an embedding, those that are heard in the segments
/// and not among them.
pub open spec fn with_unembedded(known: Seq<NewCluster>, segments: Seq<DiarSegment>) -> Seq<
    NewCluster,
>
    decreases segments.len(),
{
    if segments.len() == 0 {
        known
    } else {
        let front = with_unembedded(known, segments.drop_last());
        if has_cluster(front, segments.last().cluster_id) {
            front
        } else {
            front.push(
                NewCluster {
                    local_id: segments.last().cluster_id,
                    embedding: Seq::<u8>::empty(),
                    required: false,
                },
            )
        }
    }
}

/// The clusters to be stored.
pub open spec fn clusters_found(diar: DiarizationResult) -> Seq<NewCluster> {
    with_unembedded(embedded(diar.embeddings@), diar.segments@)
}

fn any_is(rows: &Vec<ClusterRow>, local_id: i32) -> (r: bool)
    ensures
        r == has_cluster(new_clusters(rows@), local_id),
{
    let mut i: usize = 0;
    while i < rows.len()
        invariant
            i <= rows@.len(),
            forall|k: int| 0 <= k < i ==> (#[trigger] new_clusters(rows@)[k]).local_id != local_id,
        decreases rows@.len() - i,
    {
        if rows[i].local_id == local_id {
            assert(new_clusters(rows@)[i as int].local_id == local_id);
            return true;
        }
        i = i + 1;
    }
    false
}

/// The clusters to be stored: those with an embedding, which are required, and those that are
/// only heard.
pub fn cluster_rows(diar: &DiarizationResult) -> (r: Vec<ClusterRow>)
    ensures
        new_clusters(r@) == clusters_found(*diar),
{
    let mut rows: Vec<ClusterRow> = Vec::new();
    let mut i: usize = 0;
    let ghost with_embedding = embedded(diar.embeddings@);
    assert(new_clusters(rows@) =~= with_embedding.take(0));
    while i < diar.embeddings.len()
        invariant
            i <= diar.embeddings@.len(),
            with_embedding == embedded(diar.embeddings@),
            new_clusters(rows@) == with_embedding.take(i as int),
        decreases diar.embeddings@.len() - i,
    {
        let ghost before = new_clusters(rows@);
        let e = &diar.embeddings[i];
        let row = ClusterRow {
            local_id: e.cluster_id,
            embedding: encode_embedding(e.embedding.as_slice()),
            required: true,
        };
        rows.push(row);
        assert(new_clusters(rows@) =~= before.push(with_embedding[i as int]));
        assert(with_embedding.take(i + 1) =~= before.push(with_embedding[i as int]));
        i = i + 1;
    }
    assert(with_embedding.take(diar.embeddings@.len() as int) =~= with_embedding);
    let mut k: usize = 0;
    while k < diar.segments.len()
        invariant
            k <= diar.segments@.len(),
            new_clusters(rows@) == with_unembedded(
                with_embedding,
                diar.segments@.take(k as int),
            ),
        decreases diar.segments@.len() - k,
    {
        assert(diar.segments@.take(k + 1).drop_last() =~= diar.segments@.take(k as int));
        let ghost before = new_clusters(rows@);
        let local_id: i32 = diar.segments[k].cluster_id;
        if !any_is(&rows, local_id) {
            let row = ClusterRow { local_id, embedding: Vec::new(), required: false };
            rows.push(row);
            assert(row.embedding@ =~= Seq::<u8>::empty());
            assert(new_clusters(rows@) =~= before.push(row@));
        }
        k = k + 1;
    }
    assert(diar.segments@.take(diar.segments@.len() as int) =~= diar.segments@);
    rows
}

/// The id under which a cluster counts as stored: the one that it got, or, where it could not
/// be stored and need not be, one that no row has.
pub fn stored_id(row: &ClusterRow, id: Option<i64>) -> (r: Option<i64>)
    ensures
        r == (match id {
            Some(i) => Some(i),
            None => if row.required {
                None
            } else {
                Some(0i64)
            },
        }),
{
    match id {
        Some(i) => Some(i),
        None => {
            if row.required {
                None
            } else {
                Some(0)
            }
        },
    }
}

/// The statements that delete what a recording has of segments and clusters.
pub open spec fn clear_plan(recording_id: i64) -> Seq<Stmt> {
    seq![Stmt::ClearSegments { recording_id }, Stmt::ClearClusters { recording_id }]
}

/// The statements that delete the rows that live transcription has left of a recording, or an
/// earlier transcript.
pub fn clear_transcript(recording_id: i64) -> (r: Vec<Statement>)
    ensures
        stmts(r@) == clear_plan(recording_id),
{
    let mut r: Vec<Statement> = Vec::new();
    r.push(Statement::ClearSegments { recording_id });
    r.push(Statement::ClearClusters { recording_id });
    assert(stmts(r@) =~= clear_plan(recording_id));
    r
}

/// The statement that stores a cluster.
pub open spec fn upsert_stmt(recording_id: i64, row: NewCluster) -> Stmt {
    Stmt::UpsertCluster {
        recording_id,
        local_id: row.local_id as i64,
        embedding: row.embedding,
    }
}

/// The statements that store clusters.
pub open spec fn upsert_plan(recording_id: i64, rows: Seq<NewCluster>) -> Seq<Stmt> {
    Seq::new(rows.len(), |i: int| upsert_stmt(recording_id, rows[i]))
}

/// The statements that store clusters, in order.
pub fn upsert_clusters(recording_id: i64, rows: &Vec<ClusterRow>) -> (r: Vec<Statement>)
    ensures
        stmts(r@) == upsert_plan(recording_id, new_clusters(rows@)),
{
    let ghost plan = upsert_plan(recording_id, new_clusters(rows@));
    let mut r: Vec<Statement> = Vec::new();
    let mut i: usize = 0;
    assert(stmts(r@) =~= plan.take(0));
    while i < rows.len()
        invariant
            i <= rows@.len(),
            plan == upsert_plan(recording_id, new_clusters(rows@)),
            stmts(r@) == plan.take(i as int),
        decreases rows@.len() - i,
    {
        let ghost before = stmts(r@);
        r.push(upsert_cluster(recording_id, rows[i].local_id as i64, &rows[i].embedding));
        assert(stmts(r@) =~= before.push(plan[i as int]));
        assert(plan.take(i + 1) =~= before.push(plan[i as int]));
        i = i + 1;
    }
    assert(plan.take(rows@.len() as int) =~= plan);
    r
}

/// The id under which the cluster of a local id has been stored, where the ids of the stored
/// clusters are `ids`.
pub open spec fn id_of(rows: Seq<NewCluster>, ids: Seq<i64>, local_id: i32) -> Option<i64>
    decreases rows.len(),
{
    if rows.len() == 0 {
        None
    } else if rows.last().local_id == local_id {
        Some(ids[rows.len() - 1])
    } else {
        id_of(rows.drop_last(), ids, local_id)
    }
}

fn find_id(rows: &Vec<ClusterRow>, ids: &Vec<i64>, local_id: i32) -> (r: Option<i64>)
    requires
        ids@.len() == rows@.len(),
    ensures
        r == id_of(new_clusters(rows@), ids@, local_id),
{
    let ghost all = new_clusters(rows@);
    let mut n: usize = rows.len();
    assert(all.take(n as int) =~= all);
    while n > 0
        invariant
            n <= rows@.len() == ids@.len(),
            all == new_clusters(rows@),
            id_of(all, ids@, local_id) == id_of(all.take(n as int), ids@, local_id),
        decreases n,
    {
        assert(all.take(n as int).drop_last() =~= all.take(n - 1));
        assert(all.take(n as int).last() == rows@[n - 1]@);
        if rows[n - 1].local_id == local_id {
            return Some(ids[n - 1]);
        }
        n = n - 1;
    }
    None
}

/// The row of a piece of a transcript: it belongs to the cluster that is heard the longest
/// during it.
pub open spec fn segment_rec(
    recording_id: i64,
    rows: Seq<NewCluster>,
    ids: Seq<i64>,
    heard: Seq<DiarSegment>,
    piece: Piece,
) -> SegmentRec {
    SegmentRec {
        recording_id,
        cluster_id: match cluster_during(heard, piece.start_ns, piece.end_ns) {
            Some(c) => id_of(rows, ids, c),
            None => None,
        },
        speaker_id: None,
        start_ns: piece.start_ns,
        end_ns: piece.end_ns,
        text: piece.text,
        confidence: piece.confidence,
    }
}

/// The rows of the pieces of a transcript.
pub open spec fn segment_recs(
    recording_id: i64,
    rows: Seq<NewCluster>,
    ids: Seq<i64>,
    heard: Seq<DiarSegment>,
    transcript: Seq<Piece>,
) -> Seq<SegmentRec> {
    Seq::new(
        transcript.len(),
        |i: int| segment_rec(recording_id, rows, ids, heard, transcript[i]),
    )
}

/// The statements that add rows of segments.
pub open spec fn insert_plan(recs: Seq<SegmentRec>) -> Seq<Stmt> {
    Seq::new(recs.len(), |i: int| Stmt::InsertSegment { segment: recs[i] })
}

/// The statements that store a transcript, where the clusters `rows` have been stored under
/// `ids`, and the voices are heard as in `heard`.
pub fn insert_segments(
    recording_id: i64,
    rows: &Vec<ClusterRow>,
    ids: &Vec<i64>,
    heard: &Vec<DiarSegment>,
    transcript: &Vec<TranscribedSegment>,
) -> (r: Vec<Statement>)
    requires
        ids@.len() == rows@.len(),
    ensures
        stmts(r@) == insert_plan(
            segment_recs(
                recording_id,
                new_clusters(rows@),
                ids@,
                heard@,
                pieces(transcript@),
            ),
        ),
{
    let ghost recs = segment_recs(
        recording_id,
        new_clusters(rows@),
        ids@,
        heard@,
        pieces(transcript@),
    );
    let ghost plan = insert_plan(recs);
    let mut r: Vec<Statement> = Vec::new();
    let mut i: usize = 0;
    assert(stmts(r@) =~= plan.take(0));
    while i < transcript.len()
        invariant
            i <= transcript@.len() == plan.len(),
            ids@.len() == rows@.len(),
            recs == segment_recs(
                recording_id,
                new_clusters(rows@),
                ids@,
                heard@,
                pieces(transcript@),
            ),
            plan == insert_plan(recs),
            stmts(r@) == plan.take(i as int),
        decreases transcript@.len() - i,
    {
        let ghost before = stmts(r@);
        let piece = &transcript[i];
        assert(pieces(transcript@)[i as int] == piece@);
        let cluster_id: Option<i64> = match best_cluster(
            heard.as_slice(),
            piece.start_ns,
            piece.end_ns,
        ) {
            Some(c) => find_id(rows, ids, c),
            None => None,
        };
        r.push(insert_segment(recording_id, cluster_id, None, piece));
        assert(stmts(r@) =~= before.push(plan[i as int]));
        assert(plan.take(i + 1) =~= before.push(plan[i as int]));
        i = i + 1;
    }
    assert(plan.take(transcript@.len() as int) =~= plan);
    r
}

/// Whether ids are all different, and none of them is taken.
pub open spec fn unused(ids: Seq<i64>, taken: Set<i64>) -> bool {
    &&& ids.no_duplicates()
    &&& forall|i: int| 0 <= i < ids.len() ==> !taken.contains(#[trigger] ids[i])
}

/// The clusters with these added to a recording.
pub open spec fn with_clusters(
    clusters: Map<i64, ClusterRec>,
    recording_id: i64,
    rows: Seq<NewCluster>,
    ids: Seq<i64>,
) -> Map<i64, ClusterRec>
    decreases rows.len(),
{
    if rows.len() == 0 {
        clusters
    } else {
        with_clusters(clusters, recording_id, rows.drop_last(), ids.drop_last()).insert(
            ids.last(),
            ClusterRec {
                recording_id,
                local_id: rows.last().local_id as i64,
                embedding: rows.last().embedding,
                speaker_id: None,
            },
        )
    }
}

/// The segments with these added.
pub open spec fn with_segments(
    segments: Map<i64, SegmentRec>,
    recs: Seq<SegmentRec>,
    ids: Seq<i64>,
) -> Map<i64, SegmentRec>
    decreases recs.len(),
{
    if recs.len() == 0 {
        segments
    } else {
        with_segments(segments, recs.drop_last(), ids.drop_last()).insert(ids.last(), recs.last())
    }
}

/// Adding segments changes none that were there, and adds each one.
pub proof fn law_adding_segments_keeps_the_others(
    segments: Map<i64, SegmentRec>,
    recs: Seq<SegmentRec>,
    ids: Seq<i64>,
)
    requires
        ids.len() == recs.len(),
        unused(ids, segments.dom()),
    ensures
        forall|s: i64| #[trigger]
            with_segments(segments, recs, ids).dom().contains(s) <==> segments.dom().contains(s)
                || ids.contains(s),
        forall|s: i64| #[trigger]
            segments.dom().contains(s) ==> with_segments(segments, recs, ids)[s] == segments[s],
        forall|i: int|
            0 <= i < ids.len() ==> with_segments(segments, recs, ids)[#[trigger] ids[i]] == recs[i],
    decreases recs.len(),
{
    if recs.len() > 0 {
        let f = ids.drop_last();
        assert(unused(f, segments.dom())) by {
            assert forall|i: int| 0 <= i < f.len() implies !segments.dom().contains(
                #[trigger] f[i],
            ) by {
                assert(f[i] == ids[i]);
            }
        }
        law_adding_segments_keeps_the_others(segments, recs.drop_last(), f);
        let before = with_segments(segments, recs.drop_last(), f);
        let all = with_segments(segments, recs, ids);
        assert forall|s: i64| #[trigger] all.dom().contains(s) <==> segments.dom().contains(s)
            || ids.contains(s) by {
            assert(before.dom().contains(s) <==> segments.dom().contains(s) || f.contains(s));
            if f.contains(s) {
                let k = choose|k: int| 0 <= k < f.len() && f[k] == s;
                assert(ids[k] == s);
            }
            if ids.contains(s) && s != ids.last() {
                let k = choose|k: int| 0 <= k < ids.len() && ids[k] == s;
                assert(f[k] == s);
            }
            if s == ids.last() {
                assert(ids[ids.len() - 1] == s);
            }
        }
        assert forall|s: i64| #[trigger] segments.dom().contains(s) implies all[s]
            == segments[s] by {
            assert(!segments.dom().contains(ids[ids.len() - 1]));
        }
        assert forall|i: int| 0 <= i < ids.len() implies all[#[trigger] ids[i]] == recs[i] by {
            if i < f.len() {
                assert(f[i] == ids[i]);
                assert(ids[i] != ids[ids.len() - 1]);
            }
        }
    }
}

/// The tables without what a recording has of segments and clusters.
pub open spec fn cleared(t: Tables, recording_id: i64) -> Tables {
    Tables {
        segments: t.segments.restrict(
            t.segments.dom().filter(|s: i64| t.segments[s].recording_id != recording_id),
        ),
        clusters: t.clusters.restrict(
            t.clusters.dom().filter(|c: i64| t.clusters[c].recording_id != recording_id),
        ),
        ..t
    }
}

/// Whether no segment of another recording belongs to a cluster of this one.
pub open spec fn apart(t: Tables, recording_id: i64) -> bool {
    forall|s: i64| #[trigger]
        t.segments.dom().contains(s) && t.segments[s].recording_id != recording_id ==> (
        t.segments[s].cluster_id matches Some(c) ==> t.clusters.dom().contains(c)
            ==> t.clusters[c].recording_id != recording_id)
}

/// Clearing a transcript deletes the segments and the clusters of the recording, and changes
/// nothing else.
pub proof fn law_clearing_keeps_other_recordings(t: Tables, recording_id: i64, ids: Seq<i64>)
    requires
        apart(t, recording_id),
        ids.len() == 2,
    ensures
        run(t, clear_plan(recording_id), ids) == Some(cleared(t, recording_id)),
{
    let first = Stmt::ClearSegments { recording_id };
    let second = Stmt::ClearClusters { recording_id };
    let none = Seq::<Stmt>::empty();
    lemma_run_push(t, none, Seq::<i64>::empty(), first, ids[0]);
    lemma_run_push(t, none.push(first), Seq::<i64>::empty().push(ids[0]), second, ids[1]);
    assert(clear_plan(recording_id) =~= none.push(first).push(second));
    assert(ids =~= Seq::<i64>::empty().push(ids[0]).push(ids[1]));
    let u = effect(t, first, ids[0]).unwrap();
    assert(u.clusters == t.clusters);
    assert forall|c: i64| #[trigger]
        u.clusters.dom().contains(c) && u.clusters[c].recording_id == recording_id implies
        !u.cluster_in_use(c) by {
        if u.cluster_in_use(c) {
            let s = choose|s: i64| #[trigger]
                u.segments.dom().contains(s) && u.segments[s].cluster_id == Some(c);
            assert(t.segments.dom().contains(s));
        }
    }
    let w = effect(u, second, ids[1]).unwrap();
    assert(w.segments =~= cleared(t, recording_id).segments);
    assert(w.clusters =~= cleared(t, recording_id).clusters);
    assert(w =~= cleared(t, recording_id));
}

/// Whether no two clusters have the same local id.
pub open spec fn local_ids_differ(rows: Seq<NewCluster>) -> bool {
    forall|i: int, j: int|
        #![trigger rows[i], rows[j]]
        0 <= i < j < rows.len() ==> rows[i].local_id != rows[j].local_id
}

proof fn lemma_with_clusters(
    clusters: Map<i64, ClusterRec>,
    recording_id: i64,
    rows: Seq<NewCluster>,
    ids: Seq<i64>,
)
    requires
        ids.len() == rows.len(),
    ensures
        forall|c: i64| #[trigger]
            with_clusters(clusters, recording_id, rows, ids).dom().contains(c)
                <==> clusters.dom().contains(c) || ids.contains(c),
        forall|c: i64| #[trigger]
            with_clusters(clusters, recording_id, rows, ids).dom().contains(c) ==> {
                let r = with_clusters(clusters, recording_id, rows, ids)[c];
                (clusters.dom().contains(c) && r == clusters[c]) || (exists|i: int|
                    0 <= i < rows.len() && r.local_id == (#[trigger] rows[i]).local_id
                        && r.recording_id == recording_id)
            },
    decreases rows.len(),
{
    if rows.len() > 0 {
        let f = ids.drop_last();
        let front = rows.drop_last();
        lemma_with_clusters(clusters, recording_id, front, f);
        let before = with_clusters(clusters, recording_id, front, f);
        let all = with_clusters(clusters, recording_id, rows, ids);
        assert forall|c: i64| #[trigger] all.dom().contains(c) <==> clusters.dom().contains(c)
            || ids.contains(c) by {
            if f.contains(c) {
                let k = choose|k: int| 0 <= k < f.len() && f[k] == c;
                assert(ids[k] == c);
            }
            if ids.contains(c) && c != ids.last() {
                let k = choose|k: int| 0 <= k < ids.len() && ids[k] == c;
                assert(f[k] == c);
            }
            if c == ids.last() {
                assert(ids[ids.len() - 1] == c);
            }
        }
        assert forall|c: i64| #[trigger] all.dom().contains(c) implies {
            let r = all[c];
            (clusters.dom().contains(c) && r == clusters[c]) || (exists|i: int|
                0 <= i < rows.len() && r.local_id == (#[trigger] rows[i]).local_id
                    && r.recording_id == recording_id)
        } by {
            if c == ids.last() {
                assert(all[c].local_id == rows[rows.len() - 1].local_id);
            } else {
                assert(before.dom().contains(c));
                if !(clusters.dom().contains(c) && before[c] == clusters[c]) {
                    let i = choose|i: int|
                        0 <= i < front.len() && before[c].local_id == (#[trigger] front[i]).local_id
                            && before[c].recording_id == recording_id;
                    assert(rows[i] == front[i]);
                }
            }
        }
    }
}

/// Storing clusters of a recording that has none adds exactly these, under the ids that they
/// get, and changes nothing else.
pub proof fn law_storing_clusters_adds_them(
    t: Tables,
    recording_id: i64,
    rows: Seq<NewCluster>,
    ids: Seq<i64>,
)
    requires
        t.recordings.dom().contains(recording_id),
        forall|c: i64| #[trigger]
            t.clusters.dom().contains(c) ==> t.clusters[c].recording_id != recording_id,
        local_ids_differ(rows),
        ids.len() == rows.len(),
        unused(ids, t.clusters.dom()),
    ensures
        run(t, upsert_plan(recording_id, rows), ids) == Some(
            Tables { clusters: with_clusters(t.clusters, recording_id, rows, ids), ..t },
        ),
    decreases rows.len(),
{
    if rows.len() > 0 {
        let f = ids.drop_last();
        let front = rows.drop_last();
        assert(unused(f, t.clusters.dom())) by {
            assert forall|i: int| 0 <= i < f.len() implies !t.clusters.dom().contains(
                #[trigger] f[i],
            ) by {
                assert(f[i] == ids[i]);
            }
        }
        assert(local_ids_differ(front)) by {
            assert forall|i: int, j: int|
                #![trigger front[i], front[j]]
                0 <= i < j < front.len() implies front[i].local_id != front[j].local_id by {
                assert(front[i] == rows[i] && front[j] == rows[j]);
            }
        }
        law_storing_clusters_adds_them(t, recording_id, front, f);
        assert(upsert_plan(recording_id, rows).drop_last() =~= upsert_plan(recording_id, front));
        let u = Tables { clusters: with_clusters(t.clusters, recording_id, front, f), ..t };
        lemma_with_clusters(t.clusters, recording_id, front, f);
        let local_id = rows.last().local_id as i64;
        assert forall|c: i64| !#[trigger] u.is_cluster_of(c, recording_id, local_id) by {
            if u.is_cluster_of(c, recording_id, local_id) {
                assert(u.clusters.dom().contains(c));
                let i = choose|i: int|
                    0 <= i < front.len() && u.clusters[c].local_id == (#[trigger] front[i]).local_id
                        && u.clusters[c].recording_id == recording_id;
                assert(rows[i] == front[i]);
                assert(rows[i].local_id != rows[rows.len() - 1].local_id);
            }
        }
        assert(u.cluster_of(recording_id, local_id) is None);
    } else {
        assert(t =~= Tables { clusters: with_clusters(t.clusters, recording_id, rows, ids), ..t });
    }
}

/// Storing segments that refer to nothing that is not there adds exactly these, under the ids
/// that they get, and changes nothing else.
pub proof fn law_storing_segments_adds_them(t: Tables, recs: Seq<SegmentRec>, ids: Seq<i64>)
    requires
        forall|i: int| 0 <= i < recs.len() ==> t.segment_is_sound(#[trigger] recs[i]),
        ids.len() == recs.len(),
    ensures
        run(t, insert_plan(recs), ids) == Some(
            Tables { segments: with_segments(t.segments, recs, ids), ..t },
        ),
    decreases recs.len(),
{
    if recs.len() > 0 {
        let front = recs.drop_last();
        assert forall|i: int| 0 <= i < front.len() implies t.segment_is_sound(
            #[trigger] front[i],
        ) by {
            assert(front[i] == recs[i]);
        }
        law_storing_segments_adds_them(t, front, ids.drop_last());
        assert(insert_plan(recs).drop_last() =~= insert_plan(front));
        let u = Tables { segments: with_segments(t.segments, front, ids.drop_last()), ..t };
        assert(t.segment_is_sound(recs[recs.len() - 1]));
        assert(u.segment_is_sound(recs.last()));
    } else {
        assert(t =~= Tables { segments: with_segments(t.segments, recs, ids), ..t });
    }
}

proof fn lemma_id_of(rows: Seq<NewCluster>, ids: Seq<i64>, local_id: i32)
    requires
        rows.len() <= ids.len(),
    ensures
        id_of(rows, ids, local_id) matches Some(c) ==> ids.contains(c),
        id_of(rows, ids, local_id) is Some <==> has_cluster(rows, local_id),
    decreases rows.len(),
{
    if rows.len() > 0 {
        let front = rows.drop_last();
        lemma_id_of(front, ids, local_id);
        if rows.last().local_id == local_id {
            assert(rows[rows.len() - 1].local_id == local_id);
            assert(ids.contains(ids[rows.len() - 1]));
        } else if has_cluster(rows, local_id) {
            let i = choose|i: int| 0 <= i < rows.len() && (#[trigger] rows[i]).local_id == local_id;
            assert(front[i].local_id == local_id);
        } else if has_cluster(front, local_id) {
            let i = choose|i: int|
                0 <= i < front.len() && (#[trigger] front[i]).local_id == local_id;
            assert(rows[i].local_id == local_id);
        }
    }
}

/// Every voice that is heard is stored, each once where each has one embedding at most.
pub proof fn law_every_voice_heard_is_stored(known: Seq<NewCluster>, segments: Seq<DiarSegment>)
    ensures
        forall|i: int|
            0 <= i < segments.len() ==> has_cluster(
                with_unembedded(known, segments),
                (#[trigger] segments[i]).cluster_id,
            ),
        local_ids_differ(known) ==> local_ids_differ(with_unembedded(known, segments)),
        known.is_prefix_of(with_unembedded(known, segments)),
    decreases segments.len(),
{
    let all = with_unembedded(known, segments);
    if segments.len() > 0 {
        let f = segments.drop_last();
        let front = with_unembedded(known, f);
        law_every_voice_heard_is_stored(known, f);
        let last = segments.last().cluster_id;
        assert forall|i: int| 0 <= i < segments.len() implies has_cluster(
            all,
            (#[trigger] segments[i]).cluster_id,
        ) by {
            if i < f.len() {
                assert(f[i] == segments[i]);
                let k = choose|k: int|
                    0 <= k < front.len() && (#[trigger] front[k]).local_id
                        == segments[i].cluster_id;
                assert(all[k] == front[k]);
            } else if !has_cluster(front, last) {
                assert(all[front.len() as int].local_id == last);
            }
        }
        if local_ids_differ(known) {
            assert forall|i: int, j: int|
                #![trigger all[i], all[j]]
                0 <= i < j < all.len() implies all[i].local_id != all[j].local_id by {
                if j < front.len() {
                    assert(all[i] == front[i] && all[j] == front[j]);
                } else {
                    assert(all[i] == front[i]);
                }
            }
        }
        assert(known =~= all.take(known.len() as int)) by {
            assert(known =~= front.take(known.len() as int));
        }
    } else {
        assert(known =~= all.take(known.len() as int));
    }
}

/// A piece of a transcript during which a voice is heard belongs to a cluster, which is one of
/// those that have been stored; a piece during which none is heard belongs to none.
pub proof fn law_pieces_belong_to_stored_clusters(
    recording_id: i64,
    diar: DiarizationResult,
    ids: Seq<i64>,
    piece: Piece,
)
    requires
        ids.len() == clusters_found(diar).len(),
    ensures
        ({
            let heard = diar.segments@;
            let rec = segment_rec(recording_id, clusters_found(diar), ids, heard, piece);
            &&& rec.cluster_id is Some <==> cluster_during(
                heard,
                piece.start_ns,
                piece.end_ns,
            ) is Some
            &&& rec.cluster_id matches Some(c) ==> ids.contains(c)
        }),
{
    let heard = diar.segments@;
    let rows = clusters_found(diar);
    law_every_voice_heard_is_stored(embedded(diar.embeddings@), heard);
    if let Some(c) = cluster_during(heard, piece.start_ns, piece.end_ns) {
        let i = choose|i: int| overlaps_longest(heard, piece.start_ns, piece.end_ns, i);
        assert(heard[i].cluster_id == c);
        lemma_id_of(rows, ids, c);
    }
}

/// The statements that store what was found of a recording, and then leave it to be named.
pub open spec fn store_plan(
    recording_id: i64,
    rows: Seq<NewCluster>,
    recs: Seq<SegmentRec>,
) -> Seq<Stmt> {
    clear_plan(recording_id) + upsert_plan(recording_id, rows) + insert_plan(recs) + seq![
        Stmt::SetStatus { recording_id, status: Status::AwaitingNaming },
    ]
}

#[verifier::spinoff_prover]
proof fn lemma_storing_replaces_the_transcript(
    t: Tables,
    recording_id: i64,
    diar: DiarizationResult,
    transcript: Seq<Piece>,
    cluster_ids: Seq<i64>,
    segment_ids: Seq<i64>,
    id: i64,
)
    requires
        t.recordings.dom().contains(recording_id),
        apart(t, recording_id),
        local_ids_differ(embedded(diar.embeddings@)),
        cluster_ids.len() == clusters_found(diar).len(),
        unused(cluster_ids, cleared(t, recording_id).clusters.dom()),
        segment_ids.len() == transcript.len(),
        unused(segment_ids, cleared(t, recording_id).segments.dom()),
    ensures
        ({
            let rows = clusters_found(diar);
            let recs = segment_recs(
                recording_id,
                rows,
                cluster_ids,
                diar.segments@,
                transcript,
            );
            let start = cleared(t, recording_id);
            run(
                t,
                store_plan(recording_id, rows, recs),
                seq![id, id] + cluster_ids + segment_ids + seq![id],
            ) == Some(
                Tables {
                    recordings: t.recordings.insert(
                        recording_id,
                        RecordingRec {
                            status: Status::AwaitingNaming,
                            ..t.recordings[recording_id]
                        },
                    ),
                    clusters: with_clusters(start.clusters, recording_id, rows, cluster_ids),
                    segments: with_segments(start.segments, recs, segment_ids),
                    ..t
                },
            )
        }),
{
    let rows = clusters_found(diar);
    let recs = segment_recs(recording_id, rows, cluster_ids, diar.segments@, transcript);
    let start = cleared(t, recording_id);
    let two = seq![id, id];
    let p1 = clear_plan(recording_id);
    let p2 = upsert_plan(recording_id, rows);
    let p3 = insert_plan(recs);
    let last = Stmt::SetStatus { recording_id, status: Status::AwaitingNaming };
    law_clearing_keeps_other_recordings(t, recording_id, two);
    law_every_voice_heard_is_stored(embedded(diar.embeddings@), diar.segments@);
    law_storing_clusters_adds_them(start, recording_id, rows, cluster_ids);
    law_lists_run_one_after_another(t, p1, two, p2, cluster_ids);
    let u = Tables {
        clusters: with_clusters(start.clusters, recording_id, rows, cluster_ids),
        ..start
    };
    lemma_with_clusters(start.clusters, recording_id, rows, cluster_ids);
    assert forall|i: int| 0 <= i < recs.len() implies u.segment_is_sound(#[trigger] recs[i]) by {
        law_pieces_belong_to_stored_clusters(recording_id, diar, cluster_ids, transcript[i]);
    }
    law_storing_segments_adds_them(u, recs, segment_ids);
    law_lists_run_one_after_another(t, p1 + p2, two + cluster_ids, p3, segment_ids);
    let w = Tables { segments: with_segments(u.segments, recs, segment_ids), ..u };
    lemma_run_push(t, p1 + p2 + p3, two + cluster_ids + segment_ids, last, id);
    assert(store_plan(recording_id, rows, recs) =~= (p1 + p2 + p3).push(last));
    assert(seq![id, id] + cluster_ids + segment_ids + seq![id] =~= (two + cluster_ids
        + segment_ids).push(id));
    assert(run(t, p1 + p2 + p3, two + cluster_ids + segment_ids) == Some(w));
}

/// The statements that are executed ahead of the transcription of a recording.
pub open spec fn begin_plan(recording_id: i64) -> Seq<Stmt> {
    seq![Stmt::SetStatus { recording_id, status: Status::Transcribing }]
}

/// The statements that are executed ahead of telling the voices of a recording apart.
pub open spec fn heard_plan(recording_id: i64) -> Seq<Stmt> {
    begin_plan(recording_id).push(Stmt::SetStatus { recording_id, status: Status::Diarizing })
}

/// All statements that are executed when a recording is finalized.
pub open spec fn finalize_plan(
    recording_id: i64,
    rows: Seq<NewCluster>,
    recs: Seq<SegmentRec>,
) -> Seq<Stmt> {
    heard_plan(recording_id) + store_plan(recording_id, rows, recs)
}

/// A recording that is being transcribed.
#[derive(Debug)]
pub struct Finalizing {
    recording_id: i64,
}

impl Finalizing {
    /// The recording.
    pub closed spec fn recording(&self) -> i64 {
        self.recording_id
    }

    /// Begins to finalize a recording, with the statement to execute before it is transcribed.
    pub fn begin(recording_id: i64) -> (r: (Self, Statement))
        ensures
            r.0.recording() == recording_id,
            r.1@ == (Stmt::SetStatus { recording_id, status: Status::Transcribing }),
    {
        (Finalizing { recording_id }, update_status(recording_id, Status::Transcribing))
    }

    /// Goes on with a transcript, with the statement to execute before the voices are told apart.
    pub fn transcribed(self, transcript: Vec<TranscribedSegment>) -> (r: (Transcribed, Statement))
        ensures
            r.0.recording() == self.recording(),
            r.0.transcript() == pieces(transcript@),
            r.1@ == (Stmt::SetStatus {
                recording_id: self.recording(),
                status: Status::Diarizing,
            }),
    {
        let recording_id: i64 = self.recording_id;
        (
            Transcribed { recording_id, transcript },
            update_status(recording_id, Status::Diarizing),
        )
    }
}

/// A recording whose transcript is there, and whose voices are being told apart.
#[derive(Debug)]
pub struct Transcribed {
    recording_id: i64,
    transcript: Vec<TranscribedSegment>,
}

impl Transcribed {
    /// The recording.
    pub closed spec fn recording(&self) -> i64 {
        self.recording_id
    }

    /// The transcript.
    pub closed spec fn transcript(&self) -> Seq<Piece> {
        pieces(self.transcript@)
    }

    /// Goes on with the voices, with the statements that delete what there was of the recording.
    pub fn told_apart(self, diar: DiarizationResult) -> (r: (Storing, Vec<Statement>))
        ensures
            r.0.recording() == self.recording(),
            r.0.transcript() == self.transcript(),
            r.0.heard() == diar.segments@,
            r.0.clusters() == clusters_found(diar),
            r.0.ids() == Seq::<i64>::empty(),
            stmts(r.1@) == clear_plan(self.recording()),
    {
        let recording_id: i64 = self.recording_id;
        let rows = cluster_rows(&diar);
        let storing = Storing {
            recording_id,
            transcript: self.transcript,
            heard: diar.segments,
            rows,
            ids: Vec::new(),
        };
        (storing, clear_transcript(recording_id))
    }
}

/// A recording whose transcript and voices are there and are being stored.
#[derive(Debug)]
pub struct Storing {
    recording_id: i64,
    transcript: Vec<TranscribedSegment>,
    heard: Vec<DiarSegment>,
    rows: Vec<ClusterRow>,
    ids: Vec<i64>,
}

impl Storing {
    /// The recording.
    pub closed spec fn recording(&self) -> i64 {
        self.recording_id
    }

    /// The transcript.
    pub closed spec fn transcript(&self) -> Seq<Piece> {
        pieces(self.transcript@)
    }

    /// When which voice is heard.
    pub closed spec fn heard(&self) -> Seq<DiarSegment> {
        self.heard@
    }

    /// The clusters to be stored.
    pub closed spec fn clusters(&self) -> Seq<NewCluster> {
        new_clusters(self.rows@)
    }

    /// The ids under which the first clusters have been stored.
    pub closed spec fn ids(&self) -> Seq<i64> {
        self.ids@
    }

    /// The statements that store the clusters, in order. What becomes of each is to be told by
    /// `stored` before the next is executed.
    pub fn statements(&self) -> (r: Vec<Statement>)
        ensures
            stmts(r@) == upsert_plan(self.recording(), self.clusters()),
    {
        upsert_clusters(self.recording_id, &self.rows)
    }

    /// Takes note of the id under which the next cluster has been stored, or that it could not
    /// be stored. Returns whether the storing goes on: without a cluster that is required it does
    /// not.
    pub fn stored(&mut self, id: Option<i64>) -> (r: bool)
        requires
            old(self).ids().len() < old(self).clusters().len(),
        ensures
            final(self).recording() == old(self).recording(),
            final(self).transcript() == old(self).transcript(),
            final(self).heard() == old(self).heard(),
            final(self).clusters() == old(self).clusters(),
            r == (id is Some || !old(self).clusters()[old(self).ids().len() as int].required),
            final(self).ids() == (if r {
                old(self).ids().push(
                    match id {
                        Some(i) => i,
                        None => 0i64,
                    },
                )
            } else {
                old(self).ids()
            }),
    {
        let at: usize = self.ids.len();
        match stored_id(&self.rows[at], id) {
            Some(i) => {
                self.ids.push(i);
                true
            },
            None => false,
        }
    }

    /// Whether all clusters have been stored.
    pub fn has_all_ids(&self) -> (r: bool)
        ensures
            r == (self.ids().len() == self.clusters().len()),
    {
        self.ids.len() == self.rows.len()
    }

    /// The statements that store the transcript once all clusters have been stored, and the one
    /// that leaves the recording to be named.
    pub fn finish(self) -> (r: (Vec<Statement>, Statement))
        requires
            self.ids().len() == self.clusters().len(),
        ensures
            stmts(r.0@) == insert_plan(
                segment_recs(
                    self.recording(),
                    self.clusters(),
                    self.ids(),
                    self.heard(),
                    self.transcript(),
                ),
            ),
            r.1@ == (Stmt::SetStatus {
                recording_id: self.recording(),
                status: Status::AwaitingNaming,
            }),
    {
        let inserts = insert_segments(
            self.recording_id,
            &self.rows,
            &self.ids,
            &self.heard,
            &self.transcript,
        );
        (inserts, update_status(self.recording_id, Status::AwaitingNaming))
    }
}

/// The tables with another status of a recording.
pub open spec fn with_status(t: Tables, recording_id: i64, status: Status) -> Tables {
    Tables {
        recordings: t.recordings.insert(
            recording_id,
            RecordingRec { status, ..t.recordings[recording_id] },
        ),
        ..t
    }
}

proof fn lemma_heard(t: Tables, recording_id: i64, id: i64)
    requires
        t.recordings.dom().contains(recording_id),
    ensures
        run(t, begin_plan(recording_id), seq![id]) == Some(
            with_status(t, recording_id, Status::Transcribing),
        ),
        run(t, heard_plan(recording_id), seq![id, id]) == Some(
            with_status(t, recording_id, Status::Diarizing),
        ),
{
    let first = Stmt::SetStatus { recording_id, status: Status::Transcribing };
    let second = Stmt::SetStatus { recording_id, status: Status::Diarizing };
    let none = Seq::<Stmt>::empty();
    lemma_run_push(t, none, Seq::<i64>::empty(), first, id);
    assert(begin_plan(recording_id) =~= none.push(first));
    assert(seq![id] =~= Seq::<i64>::empty().push(id));
    lemma_run_push(t, begin_plan(recording_id), seq![id], second, id);
    assert(seq![id, id] =~= seq![id].push(id));
    let u = with_status(t, recording_id, Status::Transcribing);
    assert(with_status(u, recording_id, Status::Diarizing).recordings =~= with_status(
        t,
        recording_id,
        Status::Diarizing,
    ).recordings);
}

/// A recording that cannot be transcribed, or whose voices cannot be told apart, keeps all its
/// segments and clusters, and so does every other. Nothing changes but its status, which tells
/// how far it came.
pub proof fn law_a_failure_keeps_the_transcript(t: Tables, recording_id: i64, id: i64)
    requires
        t.recordings.dom().contains(recording_id),
    ensures
        run(t, begin_plan(recording_id), seq![id]) matches Some(u) && u == with_status(
            t,
            recording_id,
            Status::Transcribing,
        ) && u.segments == t.segments && u.clusters == t.clusters,
        run(t, heard_plan(recording_id), seq![id, id]) matches Some(u) && u == with_status(
            t,
            recording_id,
            Status::Diarizing,
        ) && u.segments == t.segments && u.clusters == t.clusters,
{
    lemma_heard(t, recording_id, id);
}

proof fn lemma_cleared_with_status(t: Tables, recording_id: i64, status: Status)
    ensures
        cleared(with_status(t, recording_id, status), recording_id) == with_status(
            cleared(t, recording_id),
            recording_id,
            status,
        ),
{
    let a = cleared(with_status(t, recording_id, status), recording_id);
    let b = with_status(cleared(t, recording_id), recording_id, status);
    assert(a.segments =~= b.segments);
    assert(a.clusters =~= b.clusters);
    assert(a =~= b);
}

/// Where the clusters or the transcript cannot be stored, which is done in a transaction, the
/// recording is left without segments and clusters, and with the status that it had while its
/// voices were told apart. Nothing else changes.
pub proof fn law_a_failure_to_store_leaves_no_transcript(t: Tables, recording_id: i64, id: i64)
    requires
        t.recordings.dom().contains(recording_id),
        apart(t, recording_id),
    ensures
        run(t, heard_plan(recording_id) + clear_plan(recording_id), seq![id, id] + seq![id, id])
            == Some(with_status(cleared(t, recording_id), recording_id, Status::Diarizing)),
{
    let u = with_status(t, recording_id, Status::Diarizing);
    let two = seq![id, id];
    lemma_heard(t, recording_id, id);
    assert(apart(u, recording_id));
    law_clearing_keeps_other_recordings(u, recording_id, two);
    law_lists_run_one_after_another(
        t,
        heard_plan(recording_id),
        two,
        clear_plan(recording_id),
        two,
    );
    lemma_cleared_with_status(t, recording_id, Status::Diarizing);
}

/// Finalizing a recording replaces what it had of segments and clusters by what was found now,
/// and leaves it to be named. No other recording, no speaker, no summary and no setting changes,
/// and no statement fails.
pub proof fn law_finalizing_replaces_the_transcript(
    t: Tables,
    recording_id: i64,
    diar: DiarizationResult,
    transcript: Seq<Piece>,
    cluster_ids: Seq<i64>,
    segment_ids: Seq<i64>,
    id: i64,
)
    requires
        t.recordings.dom().contains(recording_id),
        apart(t, recording_id),
        local_ids_differ(embedded(diar.embeddings@)),
        cluster_ids.len() == clusters_found(diar).len(),
        unused(cluster_ids, cleared(t, recording_id).clusters.dom()),
        segment_ids.len() == transcript.len(),
        unused(segment_ids, cleared(t, recording_id).segments.dom()),
    ensures
        ({
            let rows = clusters_found(diar);
            let recs = segment_recs(
                recording_id,
                rows,
                cluster_ids,
                diar.segments@,
                transcript,
            );
            let start = cleared(t, recording_id);
            run(
                t,
                finalize_plan(recording_id, rows, recs),
                seq![id, id] + (seq![id, id] + cluster_ids + segment_ids + seq![id]),
            ) == Some(
                Tables {
                    clusters: with_clusters(start.clusters, recording_id, rows, cluster_ids),
                    segments: with_segments(start.segments, recs, segment_ids),
                    ..with_status(t, recording_id, Status::AwaitingNaming)
                },
            )
        }),
{
    let rows = clusters_found(diar);
    let recs = segment_recs(recording_id, rows, cluster_ids, diar.segments@, transcript);
    let u = with_status(t, recording_id, Status::Diarizing);
    let start = cleared(t, recording_id);
    lemma_heard(t, recording_id, id);
    lemma_cleared_with_status(t, recording_id, Status::Diarizing);
    assert(apart(u, recording_id));
    lemma_storing_replaces_the_transcript(
        u,
        recording_id,
        diar,
        transcript,
        cluster_ids,
        segment_ids,
        id,
    );
    law_lists_run_one_after_another(
        t,
        heard_plan(recording_id),
        seq![id, id],
        store_plan(recording_id, rows, recs),
        seq![id, id] + cluster_ids + segment_ids + seq![id],
    );
    assert(with_status(u, recording_id, Status::AwaitingNaming).recordings =~= with_status(
        t,
        recording_id,
        Status::AwaitingNaming,
    ).recordings);
}

/// Whether a recording of this channel layout has the microphone on a channel of its own.
pub open spec fn has_own_microphone(layout: Option<Seq<char>>) -> bool {
    layout == Some("stereo_mic_loopback"@)
}

/// Whether the user's own voice can be told in a recording of this channel layout.
pub fn tells_own_voice(layout: &Option<String>) -> (r: bool)
    ensures
        r == has_own_microphone(opt_text(*layout)),
{
    match layout {
        Some(l) => same(l.as_str(), "stereo_mic_loopback"),
        None => false,
    }
}

/// The user's own voice is told in calls, and in no import.
pub proof fn law_own_voice_is_told_in_calls_only()
    ensures
        has_own_microphone(Some(Source::Call.layout())),
        !has_own_microphone(Some(Source::Device.layout())),
{
    reveal_strlit("stereo_mic_loopback");
    reveal_strlit("mono");
    assert("stereo_mic_loopback"@.len() == 19);
    assert("mono"@.len() == 4);
}

/// When a cluster speaks. Times are in nanoseconds from the start of the recording.
#[derive(Debug, Clone, Copy)]
pub struct SpokenRow {
    pub cluster_id: i64,
    pub start_ns: i64,
    pub end_ns: i64,
}

/// The samples of the microphone channel while a cluster speaks.
#[derive(Debug, Clone, Copy, PartialEq, Eq, Structural)]
pub struct MicRange {
    pub cluster_id: i64,
    pub start: usize,
    pub end: usize,
}

/// The samples, of `len` in all, while a cluster speaks, if there are any.
pub open spec fn mic_range(row: SpokenRow, len: usize) -> Option<MicRange> {
    let start = sample_of(row.start_ns);
    let end = if sample_of(row.end_ns) < len {
        sample_of(row.end_ns)
    } else {
        len
    };
    if end <= start {
        None
    } else {
        Some(MicRange { cluster_id: row.cluster_id, start, end })
    }
}

/// The samples while clusters speak, in the order of the rows.
pub open spec fn mic_ranges_of(rows: Seq<SpokenRow>, len: usize) -> Seq<MicRange>
    decreases rows.len(),
{
    if rows.len() == 0 {
        Seq::<MicRange>::empty()
    } else {
        let front = mic_ranges_of(rows.drop_last(), len);
        match mic_range(rows.last(), len) {
            Some(r) => front.push(r),
            None => front,
        }
    }
}

/// The samples of the microphone channel, of `len` in all, while clusters speak.
pub fn mic_ranges(rows: &Vec<SpokenRow>, len: usize) -> (r: Vec<MicRange>)
    ensures
        r@ == mic_ranges_of(rows@, len),
{
    let mut r: Vec<MicRange> = Vec::new();
    let mut i: usize = 0;
    while i < rows.len()
        invariant
            i <= rows@.len(),
            r@ == mic_ranges_of(rows@.take(i as int), len),
        decreases rows@.len() - i,
    {
        assert(rows@.take(i + 1).drop_last() =~= rows@.take(i as int));
        let row = rows[i];
        let start: usize = sample_at(row.start_ns);
        let last: usize = sample_at(row.end_ns);
        let end: usize = if last < len {
            last
        } else {
            len
        };
        if end > start {
            r.push(MicRange { cluster_id: row.cluster_id, start, end });
        }
        i = i + 1;
    }
    assert(rows@.take(rows@.len() as int) =~= rows@);
    r
}

/// The clusters that ranges belong to.
pub open spec fn range_clusters(ranges: Seq<MicRange>) -> Seq<i64> {
    Seq::new(ranges.len(), |i: int| ranges[i].cluster_id)
}

/// Groups the ranges by their clusters.
pub fn group_ranges(ranges: &Vec<MicRange>) -> (r: Vec<Group>)
    ensures
        are_groups(r@, range_clusters(ranges@)),
{
    let mut keys: Vec<i64> = Vec::new();
    let mut i: usize = 0;
    while i < ranges.len()
        invariant
            i <= ranges@.len(),
            keys@ == range_clusters(ranges@).take(i as int),
        decreases ranges@.len() - i,
    {
        keys.push(ranges[i].cluster_id);
        assert(keys@ =~= range_clusters(ranges@).take(i + 1));
        i = i + 1;
    }
    assert(keys@ =~= range_clusters(ranges@));
    group_rows(&keys)
}

/// The bit pattern of the 64-bit floating-point infinity. Among the numbers that are not
/// negative the bit patterns are ordered as the numbers are, up to this one.
pub const INFINITY_BITS: u64 = 0x7ff0_0000_0000_0000;

/// Whether the group at `i` is the last of the loudest.
pub open spec fn is_loudest(loudness: Seq<u64>, i: int) -> bool {
    &&& 0 <= i < loudness.len()
    &&& forall|j: int| 0 <= j < loudness.len() ==> #[trigger] loudness[j] <= loudness[i]
    &&& forall|j: int| i < j < loudness.len() ==> #[trigger] loudness[j] < loudness[i]
}

/// The cluster that is the loudest on the microphone: that of the loudest group, where the
/// loudness of each is the bit pattern of a number that is not negative, unless there is but one.
/// Of several that are equally loud it is the last.
pub fn loudest_cluster(groups: &Vec<Group>, loudness: &Vec<u64>) -> (r: Option<i64>)
    requires
        groups@.len() == loudness@.len(),
        loudness@.len() > 1 ==> forall|i: int|
            0 <= i < loudness@.len() ==> #[trigger] loudness@[i] <= INFINITY_BITS,
    ensures
        r is None <==> groups@.len() == 0,
        r matches Some(c) ==> exists|i: int| #[trigger]
            is_loudest(loudness@, i) && groups@[i].key == c,
{
    if groups.len() == 0 {
        return None;
    }
    let mut best: usize = 0;
    let mut i: usize = 1;
    while i < loudness.len()
        invariant
            groups@.len() == loudness@.len(),
            best < i <= loudness@.len(),
            forall|j: int| 0 <= j < i ==> #[trigger] loudness@[j] <= loudness@[best as int],
            forall|j: int| best < j < i ==> #[trigger] loudness@[j] < loudness@[best as int],
        decreases loudness@.len() - i,
    {
        if loudness[i] >= loudness[best] {
            best = i;
        }
        i = i + 1;
    }
    assert(is_loudest(loudness@, best as int));
    Some(groups[best].key)
}

/// The statements that attach a cluster to the speaker that is the user, who is added as "You"
/// where there is none yet.
pub open spec fn enroll_plan(
    cluster_id: i64,
    self_id: Option<i64>,
    embedding: Seq<u8>,
    now: Seq<char>,
) -> Seq<Stmt> {
    match self_id {
        Some(p) => attach_plan(cluster_id, SpeakerRef::Id(p)),
        None => seq![
            Stmt::InsertSpeaker { name: "You"@, embedding, created_at: now, is_self: true },
        ] + attach_plan(cluster_id, SpeakerRef::JustInserted),
    }
}

/// The statements that attach the cluster that is the loudest on the microphone to the speaker
/// that is the user, where the embedding of the cluster is stored as `embedding`.
pub fn enroll_self(
    cluster_id: i64,
    self_id: Option<i64>,
    embedding: Option<Vec<u8>>,
    now: String,
) -> (r: Vec<Statement>)
    ensures
        stmts(r@) == enroll_plan(
            cluster_id,
            self_id,
            match embedding {
                Some(e) => e@,
                None => Seq::<u8>::empty(),
            },
            now@,
        ),
{
    let mut plan: Vec<Statement> = Vec::new();
    match self_id {
        Some(p) => {
            attach_cluster(&mut plan, cluster_id, SpeakerRef::Id(p));
            assert(stmts(plan@) =~= attach_plan(cluster_id, SpeakerRef::Id(p)));
        },
        None => {
            let bytes: Vec<u8> = match embedding {
                Some(e) => e,
                None => Vec::new(),
            };
            let ghost first = Stmt::InsertSpeaker {
                name: "You"@,
                embedding: bytes@,
                created_at: now@,
                is_self: true,
            };
            plan.push(
                Statement::InsertSpeaker {
                    name: "You".to_owned(),
                    embedding: bytes,
                    created_at: now,
                    is_self: true,
                },
            );
            assert(stmts(plan@) =~= seq![first]);
            attach_cluster(&mut plan, cluster_id, SpeakerRef::JustInserted);
        },
    }
    plan
}

/// Where the user is a known speaker, enrolling attaches the cluster and all its segments to
/// that speaker, and changes nothing else.
pub proof fn law_enrolling_a_known_user(
    t: Tables,
    cluster_id: i64,
    p: i64,
    embedding: Seq<u8>,
    now: Seq<char>,
    id: i64,
)
    requires
        t.clusters.dom().contains(cluster_id),
        t.speakers.dom().contains(p),
    ensures
        ({
            let plan = enroll_plan(cluster_id, Some(p), embedding, now);
            run(t, plan, same_id(plan, id)) == Some(attached(t, cluster_id, p))
        }),
{
    let none = Seq::<Stmt>::empty();
    law_attaching_labels_the_cluster_and_its_segments(
        t,
        none,
        t,
        cluster_id,
        SpeakerRef::Id(p),
        id,
    );
    assert(none + attach_plan(cluster_id, SpeakerRef::Id(p)) =~= attach_plan(
        cluster_id,
        SpeakerRef::Id(p),
    ));
}

/// Where the user is no known speaker yet, enrolling adds the speaker "You" with the voice's
/// embedding, and attaches the cluster and all its segments to that speaker.
pub proof fn law_enrolling_a_new_user(
    t: Tables,
    cluster_id: i64,
    embedding: Seq<u8>,
    now: Seq<char>,
    id: i64,
)
    requires
        t.clusters.dom().contains(cluster_id),
        !t.speakers.dom().contains(id),
    ensures
        ({
            let plan = enroll_plan(cluster_id, None, embedding, now);
            let known = Tables {
                speakers: t.speakers.insert(
                    id,
                    SpeakerRec {
                        name: "You"@,
                        embedding,
                        sample_count: 1,
                        created_at: now,
                        is_self: true,
                    },
                ),
                ..t
            };
            run(t, plan, same_id(plan, id)) == Some(attached(known, cluster_id, id))
        }),
{
    let first = Stmt::InsertSpeaker { name: "You"@, embedding, created_at: now, is_self: true };
    lemma_run_push(t, Seq::<Stmt>::empty(), Seq::<i64>::empty(), first, id);
    assert(Seq::<Stmt>::empty().push(first) =~= seq![first]);
    assert(Seq::<i64>::empty().push(id) =~= same_id(seq![first], id));
    let known = effect(t, first, id).unwrap();
    law_attaching_labels_the_cluster_and_its_segments(
        t,
        seq![first],
        known,
        cluster_id,
        SpeakerRef::JustInserted,
        id,
    );
}

/// Enrolling the same cluster once more changes nothing.
pub proof fn law_enrolling_again_changes_nothing(
    t: Tables,
    cluster_id: i64,
    p: i64,
    embedding: Seq<u8>,
    now: Seq<char>,
    id: i64,
)
    requires
        t.clusters.dom().contains(cluster_id),
        t.speakers.dom().contains(p),
    ensures
        ({
            let plan = enroll_plan(cluster_id, Some(p), embedding, now);
            let u = attached(t, cluster_id, p);
            run(u, plan, same_id(plan, id)) == Some(u)
        }),
{
    let u = attached(t, cluster_id, p);
    law_enrolling_a_known_user(u, cluster_id, p, embedding, now, id);
    let w = attached(u, cluster_id, p);
    assert(w.clusters =~= u.clusters);
    assert(w.segments =~= u.segments);
    assert(w =~= u);
}

/// How far the work on a recording has come.
#[derive(Debug, Clone, Copy, PartialEq, Eq, Structural)]
pub enum Stage {
    ResolvingModels,
    Transcribing,
    Naming,
    Summarizing,
    Complete,
}

/// What comes after a stage.
#[derive(Debug, Clone, Copy, PartialEq, Eq, Structural)]
pub enum NextStage {
    /// The work goes on with this stage.
    Enter(Stage),
    /// The work ends, and its failure is reported.
    Abort,
    /// The work is done.
    Finished,
}

impl Stage {
    /// The word by which a stage is announced.
    pub open spec fn word(self) -> Seq<char> {
        match self {
            Stage::ResolvingModels => "resolving-models"@,
            Stage::Transcribing => "transcribing"@,
            Stage::Naming => "naming"@,
            Stage::Summarizing => "summarizing"@,
            Stage::Complete => "complete"@,
        }
    }

    /// The word by which a stage is announced.
    pub fn as_str(self) -> (r: &'static str)
        ensures
            r@ == self.word(),
    {
        match self {
            Stage::ResolvingModels => "resolving-models",
            Stage::Transcribing => "transcribing",
            Stage::Naming => "naming",
            Stage::Summarizing => "summarizing",
            Stage::Complete => "complete",
        }
    }

    /// What comes after this stage, depending on whether it was a success: without models or a
    /// transcript nothing does, and without the user's voice or a summary the work goes on.
    pub open spec fn followed_by(self, success: bool) -> NextStage {
        match self {
            Stage::ResolvingModels => if success {
                NextStage::Enter(Stage::Transcribing)
            } else {
                NextStage::Abort
            },
            Stage::Transcribing => if success {
                NextStage::Enter(Stage::Naming)
            } else {
                NextStage::Abort
            },
            Stage::Naming => NextStage::Enter(Stage::Summarizing),
            Stage::Summarizing => NextStage::Enter(Stage::Complete),
            Stage::Complete => NextStage::Finished,
        }
    }

    /// What comes after this stage, depending on whether it was a success.
    pub fn after(self, success: bool) -> (r: NextStage)
        ensures
            r == self.followed_by(success),
    {
        match self {
            Stage::ResolvingModels => {
                if success {
                    NextStage::Enter(Stage::Transcribing)
                } else {
                    NextStage::Abort
                }
            },
            Stage::Transcribing => {
                if success {
                    NextStage::Enter(Stage::Naming)
                } else {
                    NextStage::Abort
                }
            },
            Stage::Naming => NextStage::Enter(Stage::Summarizing),
            Stage::Summarizing => NextStage::Enter(Stage::Complete),
            Stage::Complete => NextStage::Finished,
        }
    }

    /// Whether the failure of this stage is reported to the user although the work goes on.
    pub fn failure_is_reported(self) -> (r: bool)
        ensures
            r == (self == Stage::Summarizing),
    {
        match self {
            Stage::Summarizing => true,
            _ => false,
        }
    }

    /// The statement to execute ahead of this stage, if there is one: the recording is complete
    /// when its voices are to be named.
    pub fn statement(self, recording_id: i64) -> (r: Option<Statement>)
        ensures
            match r {
                Some(s) => self == Stage::Complete && s@ == (Stmt::SetStatus {
                    recording_id,
                    status: Status::AwaitingNaming,
                }),
                None => self != Stage::Complete,
            },
    {
        match self {
            Stage::Complete => Some(update_status(recording_id, Status::AwaitingNaming)),
            _ => None,
        }
    }
}

/// Where the work ends that starts in this stage, if `outcomes[i]` says whether the stage that
/// is entered after `i` others is a success.
pub open spec fn ends_in(stage: Stage, outcomes: Seq<bool>) -> NextStage
    decreases outcomes.len(),
{
    if outcomes.len() == 0 {
        NextStage::Enter(stage)
    } else {
        match stage.followed_by(outcomes[0]) {
            NextStage::Enter(next) => ends_in(next, outcomes.drop_first()),
            end => end,
        }
    }
}

/// The work on a recording is finished if and only if there are models and a transcript; that
/// the user's voice is not found, or no summary can be made, does not hinder it.
pub proof fn law_the_work_is_finished_without_a_summary(outcomes: Seq<bool>)
    requires
        outcomes.len() == 5,
    ensures
        ends_in(Stage::ResolvingModels, outcomes) == (if outcomes[0] && outcomes[1] {
            NextStage::Finished
        } else {
            NextStage::Abort
        }),
{
    let a = outcomes.drop_first();
    let b = a.drop_first();
    let c = b.drop_first();
    let d = c.drop_first();
    assert(a[0] == outcomes[1]);
    reveal_with_fuel(ends_in, 6);
}

/// The voice of a stretch is the one that is heard in it for the longest time, to the nanosecond
/// and however short the stretch is. Only where nobody is heard in it for any time is there none;
/// of those that are heard equally long it is the first.
pub proof fn law_the_voice_is_the_one_heard_longest(
    segments: Seq<DiarSegment>,
    start: i64,
    end: i64,
)
    ensures
        cluster_during(segments, start, end) is None <==> forall|i: int|
            #![trigger segments[i]]
            0 <= i < segments.len() ==> {
                ||| segments[i].end_ns <= segments[i].start_ns
                ||| end <= start
                ||| segments[i].end_ns <= start
                ||| end <= segments[i].start_ns
            },
        cluster_during(segments, start, end) matches Some(c) ==> exists|i: int|
            #![trigger segments[i]]
            {
                let d = segments[i];
                &&& 0 <= i < segments.len()
                &&& d.cluster_id == c
                &&& min(end as int, d.end_ns as int) > max(start as int, d.start_ns as int)
                &&& forall|j: int|
                    #![trigger segments[j]]
                    0 <= j < segments.len() ==> min(end as int, segments[j].end_ns as int) - max(
                        start as int,
                        segments[j].start_ns as int,
                    ) <= min(end as int, d.end_ns as int) - max(start as int, d.start_ns as int)
                &&& forall|j: int|
                    #![trigger segments[j]]
                    0 <= j < i ==> min(end as int, segments[j].end_ns as int) - max(
                        start as int,
                        segments[j].start_ns as int,
                    ) < min(end as int, d.end_ns as int) - max(start as int, d.start_ns as int)
            },
{
    lemma_longest_exists(segments, start, end, segments.len() as int);
    assert(segments.take(segments.len() as int) =~= segments);
    if cluster_during(segments, start, end) is Some {
        let i = choose|i: int| overlaps_longest(segments, start, end, i);
        assert(segments[i].cluster_id == cluster_during(segments, start, end).unwrap());
        assert forall|j: int|
            #![trigger segments[j]]
            0 <= j < segments.len() implies min(end as int, segments[j].end_ns as int) - max(
            start as int,
            segments[j].start_ns as int,
        ) <= min(end as int, segments[i].end_ns as int) - max(
            start as int,
            segments[i].start_ns as int,
        ) by {
            assert(overlap(segments[j], start, end) <= overlap(segments[i], start, end));
        }
        assert forall|j: int|
            #![trigger segments[j]]
            0 <= j < i implies min(end as int, segments[j].end_ns as int) - max(
            start as int,
            segments[j].start_ns as int,
        ) < min(end as int, segments[i].end_ns as int) - max(
            start as int,
            segments[i].start_ns as int,
        ) by {
            assert(overlap(segments[j], start, end) < overlap(segments[i], start, end));
        }
    } else {
        assert forall|i: int| #![trigger segments[i]] 0 <= i < segments.len() implies {
            ||| segments[i].end_ns <= segments[i].start_ns
            ||| end <= start
            ||| segments[i].end_ns <= start
            ||| end <= segments[i].start_ns
        } by {
            assert(overlap(segments[i], start, end) == 0);
        }
    }
}

/// Where any of the first `n` segments is heard, one is the first of those heard longest.
proof fn lemma_longest_exists(segments: Seq<DiarSegment>, start: i64, end: i64, n: int)
    requires
        0 <= n <= segments.len(),
    ensures
        (forall|i: int| 0 <= i < n ==> overlap(#[trigger] segments[i], start, end) == 0) || (
        exists|i: int| #[trigger] overlaps_longest(segments.take(n), start, end, i)),
    decreases n,
{
    if n > 0 {
        lemma_longest_exists(segments, start, end, n - 1);
        let t = segments.take(n);
        let u = segments.take(n - 1);
        let last = overlap(segments[n - 1], start, end);
        assert(forall|i: int| 0 <= i < n - 1 ==> t[i] == #[trigger] u[i]);
        assert(t[n - 1] == segments[n - 1]);
        if exists|i: int| #[trigger] overlaps_longest(u, start, end, i) {
            let i = choose|i: int| #[trigger] overlaps_longest(u, start, end, i);
            assert(t[i] == u[i]);
            if last > overlap(u[i], start, end) {
                assert forall|j: int| 0 <= j < n - 1 implies overlap(#[trigger] t[j], start, end)
                    < last by {
                    assert(t[j] == u[j]);
                }
                assert(overlaps_longest(t, start, end, n - 1));
            } else {
                assert forall|j: int| 0 <= j < n implies overlap(#[trigger] t[j], start, end)
                    <= overlap(t[i], start, end) by {
                    if j < n - 1 {
                        assert(t[j] == u[j]);
                    }
                }
                assert forall|j: int| 0 <= j < i implies overlap(#[trigger] t[j], start, end)
                    < overlap(t[i], start, end) by {
                    assert(t[j] == u[j]);
                }
                assert(overlaps_longest(t, start, end, i));
            }
        } else if last > 0 {
            assert forall|j: int| 0 <= j < n - 1 implies overlap(#[trigger] t[j], start, end)
                == 0 by {
                assert(t[j] == segments[j]);
            }
            assert(overlaps_longest(t, start, end, n - 1));
        }
    }
}

/// A stretch during which one voice speaks all the time, and no other at all, is that voice's.
pub proof fn law_a_voice_that_speaks_alone_is_heard(
    segments: Seq<DiarSegment>,
    start: i64,
    end: i64,
    i: int,
)
    requires
        start < end,
        0 <= i < segments.len(),
        segments[i].start_ns <= start,
        end <= segments[i].end_ns,
        forall|j: int|
            0 <= j < segments.len() && j != i ==> (#[trigger] segments[j]).end_ns <= start || end
                <= segments[j].start_ns,
    ensures
        cluster_during(segments, start, end) == Some(segments[i].cluster_id),
{
    law_the_voice_is_the_one_heard_longest(segments, start, end);
    assert(segments[i].end_ns > segments[i].start_ns);
}

/// The clusters to be stored are, first, those with an embedding, in order and each with its
/// embedding, which are required; and behind them those that are only heard, without one, which
/// are not.
pub proof fn law_clusters_keep_their_embeddings(diar: DiarizationResult)
    ensures
        ({
            let rows = clusters_found(diar);
            let given = diar.embeddings@;
            &&& rows.len() >= given.len()
            &&& forall|i: int|
                0 <= i < given.len() ==> (#[trigger] rows[i]).local_id == given[i].cluster_id
                    && decoded(rows[i].embedding) == given[i].embedding@ && rows[i].required
            &&& forall|i: int|
                given.len() <= i < rows.len() ==> (#[trigger] rows[i]).embedding.len() == 0
                    && !rows[i].required && exists|j: int|
                    0 <= j < diar.segments@.len() && (#[trigger] diar.segments@[j]).cluster_id
                        == rows[i].local_id
        }),
{
    let given = diar.embeddings@;
    let known = embedded(given);
    let rows = clusters_found(diar);
    law_every_voice_heard_is_stored(known, diar.segments@);
    lemma_only_heard(known, diar.segments@);
    assert forall|i: int| 0 <= i < given.len() implies (#[trigger] rows[i]).local_id
        == given[i].cluster_id && decoded(rows[i].embedding) == given[i].embedding@
        && rows[i].required by {
        assert(known =~= rows.take(known.len() as int));
        assert(rows[i] == known[i]);
        law_decoding_undoes_encoding(given[i].embedding@);
    }
}

proof fn lemma_only_heard(known: Seq<NewCluster>, segments: Seq<DiarSegment>)
    ensures
        with_unembedded(known, segments).len() >= known.len(),
        forall|i: int|
            known.len() <= i < with_unembedded(known, segments).len() ==> {
                let row = #[trigger] with_unembedded(known, segments)[i];
                &&& row.embedding.len() == 0
                &&& !row.required
                &&& exists|j: int|
                    0 <= j < segments.len() && (#[trigger] segments[j]).cluster_id == row.local_id
            },
    decreases segments.len(),
{
    if segments.len() > 0 {
        let f = segments.drop_last();
        lemma_only_heard(known, f);
        let front = with_unembedded(known, f);
        let all = with_unembedded(known, segments);
        assert forall|i: int| known.len() <= i < all.len() implies {
            let row = #[trigger] all[i];
            &&& row.embedding.len() == 0
            &&& !row.required
            &&& exists|j: int|
                0 <= j < segments.len() && (#[trigger] segments[j]).cluster_id == row.local_id
        } by {
            if i < front.len() {
                assert(all[i] == front[i]);
                let j = choose|j: int|
                    0 <= j < f.len() && (#[trigger] f[j]).cluster_id == front[i].local_id;
                assert(segments[j] == f[j]);
            } else {
                assert(segments[segments.len() - 1].cluster_id == all[i].local_id);
            }
        }
    }
}

proof fn lemma_id_is_of_the_row(rows: Seq<NewCluster>, ids: Seq<i64>, local_id: i32) -> (j: int)
    requires
        has_cluster(rows, local_id),
    ensures
        0 <= j < rows.len(),
        rows[j].local_id == local_id,
        forall|m: int| j < m < rows.len() ==> (#[trigger] rows[m]).local_id != local_id,
        id_of(rows, ids, local_id) == Some(ids[j]),
    decreases rows.len(),
{
    if rows.last().local_id == local_id {
        rows.len() - 1
    } else {
        let front = rows.drop_last();
        let i = choose|i: int| 0 <= i < rows.len() && (#[trigger] rows[i]).local_id == local_id;
        assert(front[i].local_id == local_id);
        let j = lemma_id_is_of_the_row(front, ids, local_id);
        assert forall|m: int| j < m < rows.len() implies (#[trigger] rows[m]).local_id
            != local_id by {
            if m < front.len() {
                assert(front[m] == rows[m]);
            }
        }
        j
    }
}

/// A piece of a transcript is stored whole, with its own times, for the recording, and as what
/// the cluster said whose voice is heard the longest during it: under the id that this very
/// cluster was stored under, the last time where it was stored more than once. The result gives
/// the position of that cluster.
pub proof fn law_a_piece_is_stored_with_its_voice(
    recording_id: i64,
    diar: DiarizationResult,
    ids: Seq<i64>,
    transcript: Seq<Piece>,
    i: int,
) -> (j: int)
    requires
        0 <= i < transcript.len(),
    ensures
        ({
            let rows = clusters_found(diar);
            let recs = segment_recs(recording_id, rows, ids, diar.segments@, transcript);
            let piece = transcript[i];
            let rec = recs[i];
            &&& recs.len() == transcript.len()
            &&& rec.recording_id == recording_id
            &&& rec.text == piece.text
            &&& rec.start_ns == piece.start_ns
            &&& rec.end_ns == piece.end_ns
            &&& rec.confidence == piece.confidence
            &&& rec.speaker_id is None
            &&& match cluster_during(diar.segments@, piece.start_ns, piece.end_ns) {
                Some(c) => 0 <= j < rows.len() && rows[j].local_id == c && rec.cluster_id == Some(
                    ids[j],
                ) && forall|m: int| j < m < rows.len() ==> (#[trigger] rows[m]).local_id != c,
                None => rec.cluster_id is None,
            }
        }),
{
    let heard = diar.segments@;
    let piece = transcript[i];
    if let Some(c) = cluster_during(heard, piece.start_ns, piece.end_ns) {
        law_every_voice_heard_is_stored(embedded(diar.embeddings@), heard);
        let k = choose|k: int| overlaps_longest(heard, piece.start_ns, piece.end_ns, k);
        assert(heard[k].cluster_id == c);
        lemma_id_is_of_the_row(clusters_found(diar), ids, c)
    } else {
        0
    }
}

/// How many of `len` samples fall into what a cluster says at a time.
pub open spec fn spoken_samples(row: SpokenRow, len: usize) -> int {
    min(sample_of(row.end_ns) as int, len as int) - sample_of(row.start_ns)
}

proof fn lemma_mic_ranges(rows: Seq<SpokenRow>, len: usize, n: int) -> (p: Seq<int>)
    requires
        0 <= n <= rows.len(),
    ensures
        ascending(p),
        forall|i: int| #[trigger]
            p.contains(i) <==> 0 <= i < n && spoken_samples(rows[i], len) > 0,
        mic_ranges_of(rows.take(n), len).len() == p.len(),
        forall|k: int|
            0 <= k < p.len() ==> {
                let r = #[trigger] mic_ranges_of(rows.take(n), len)[k];
                let row = rows[p[k]];
                &&& r.cluster_id == row.cluster_id
                &&& r.start == sample_of(row.start_ns)
                &&& r.end - r.start == spoken_samples(row, len)
                &&& r.end <= len
            },
    decreases n,
{
    if n == 0 {
        Seq::<int>::empty()
    } else {
        let q = lemma_mic_ranges(rows, len, n - 1);
        assert(rows.take(n).drop_last() =~= rows.take(n - 1));
        if spoken_samples(rows[n - 1], len) > 0 {
            lemma_position_added(q, n - 1);
            q.push(n - 1)
        } else {
            q
        }
    }
}

/// The microphone is listened to whenever a cluster speaks: for each row of which samples are
/// there, all of them count, for its own cluster, and no other samples do. The result gives the
/// positions of these rows.
pub proof fn law_the_microphone_is_heard_whenever_somebody_speaks(
    rows: Seq<SpokenRow>,
    len: usize,
) -> (p: Seq<int>)
    ensures
        ascending(p),
        forall|i: int| #[trigger]
            p.contains(i) <==> 0 <= i < rows.len() && spoken_samples(rows[i], len) > 0,
        mic_ranges_of(rows, len).len() == p.len(),
        forall|k: int|
            0 <= k < p.len() ==> {
                let r = #[trigger] mic_ranges_of(rows, len)[k];
                let row = rows[p[k]];
                &&& r.cluster_id == row.cluster_id
                &&& r.start == sample_of(row.start_ns)
                &&& r.end - r.start == spoken_samples(row, len)
                &&& r.end <= len
            },
{
    assert(rows.take(rows.len() as int) =~= rows);
    lemma_mic_ranges(rows, len, rows.len() as int)
}

/// Models run on the first GPU if and only if the setting says CUDA.
pub proof fn law_cuda_runs_on_the_first_gpu(backend: Seq<char>)
    ensures
        backend == "cuda"@ <==> device_of(backend) == 0,
        backend != "cuda"@ <==> device_of(backend) < 0,
{
}

/// The work goes through its stages one after another, whatever becomes of the last three: models
/// are fetched before anything is transcribed, voices are told before they are named, and nothing
/// is complete before it has been tried to summarise it.
pub proof fn law_stages_follow_one_another(success: bool)
    ensures
        Stage::ResolvingModels.followed_by(true) == NextStage::Enter(Stage::Transcribing),
        Stage::Transcribing.followed_by(true) == NextStage::Enter(Stage::Naming),
        Stage::Naming.followed_by(success) == NextStage::Enter(Stage::Summarizing),
        Stage::Summarizing.followed_by(success) == NextStage::Enter(Stage::Complete),
        Stage::Complete.followed_by(success) == NextStage::Finished,
        Stage::ResolvingModels.followed_by(false) == NextStage::Abort,
        Stage::Transcribing.followed_by(false) == NextStage::Abort,
{
}

/// There is a loudest group wherever there is any, and only one: none is louder, and those that
/// are as loud stand ahead of it.
pub proof fn law_the_last_of_the_loudest_counts(loudness: Seq<u64>) -> (i: int)
    requires
        loudness.len() > 0,
    ensures
        0 <= i < loudness.len(),
        forall|j: int| 0 <= j <= i ==> #[trigger] loudness[j] <= loudness[i],
        forall|j: int| i < j < loudness.len() ==> #[trigger] loudness[j] < loudness[i],
        forall|k: int| #[trigger] is_loudest(loudness, k) <==> k == i,
    decreases loudness.len(),
{
    let n = loudness.len() - 1;
    let i = if n == 0 {
        0
    } else {
        let front = loudness.drop_last();
        let f = law_the_last_of_the_loudest_counts(front);
        assert forall|j: int| 0 <= j < n implies #[trigger] loudness[j] <= loudness[f] by {
            assert(front[j] == loudness[j]);
        }
        assert forall|j: int| f < j < n implies #[trigger] loudness[j] < loudness[f] by {
            assert(front[j] == loudness[j]);
        }
        if loudness[n] >= loudness[f] {
            n
        } else {
            f
        }
    };
    assert forall|k: int| #[trigger] is_loudest(loudness, k) <==> k == i by {
        if is_loudest(loudness, k) {
            assert(loudness[i] <= loudness[k] && loudness[k] <= loudness[i]);
            if k < i {
                assert(loudness[i] < loudness[k]);
            } else if k > i {
                assert(loudness[k] < loudness[i]);
            }
        }
    }
    i
}

/// The microphone is on a channel of its own in one channel layout, and in no other.
pub proof fn law_one_layout_has_its_own_microphone(layout: Seq<char>)
    ensures
        has_own_microphone(Some(layout)) <==> layout == "stereo_mic_loopback"@,
        !has_own_microphone(None),
{
}

/// What is set is taken as it is set, and what is not has its default: the model, the device, the
/// address and the model for summaries.
pub proof fn law_what_is_set_is_taken(
    r: ResolvedConfig,
    data_dir: &Path,
    model: Option<Seq<char>>,
    backend: Option<Seq<char>>,
    ollama_url: Option<Seq<char>>,
    ollama_model: Option<Seq<char>>,
)
    requires
        configures(r, data_dir, model, backend, ollama_url, ollama_model),
    ensures
        model is Some ==> r.finalize_model@ == model.unwrap(),
        model is None ==> r.finalize_model@ == "medium.en"@,
        r.config.device_index == 0 <==> backend == Some("cuda"@),
        r.config.device_index != 0 ==> r.config.device_index == -1,
        ollama_url is Some ==> r.config.ollama_url@ == ollama_url.unwrap(),
        ollama_url is None ==> r.config.ollama_url@ == "http://localhost:11434"@,
        ollama_model is Some ==> r.config.ollama_model@ == ollama_model.unwrap(),
        ollama_model is None ==> r.config.ollama_model@ == "qwen2.5:7b"@,
{
    reveal_strlit("cuda");
    reveal_strlit("cpu");
    assert("cuda"@.len() == 4 && "cpu"@.len() == 3);
}

} // verus!
