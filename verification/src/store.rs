//! What the database holds, and the statements that change it.
//!
//! The rules of the crate decide which statements are to be executed; a caller executes them.
//! So that it can be said what a list of statements comes to, this module also gives the
//! tables as mathematical maps from row ids to rows, and each statement as a change of them. A
//! statement that would leave a reference to a row that is not there fails, as foreign keys
//! are enforced.

use vstd::prelude::*;

use crate::text::opt_text;

verus! {

/// Where a recording comes from.
#[derive(Debug, Clone, Copy, PartialEq, Eq, Structural)]
pub enum Source {
    /// Captured here: the microphone on the left channel, the other side on the right.
    Call,
    /// Copied from a plugged-in recorder.
    Device,
}

/// How far a recording has come.
#[derive(Debug, Clone, Copy, PartialEq, Eq, Structural)]
pub enum Status {
    Recording,
    Transcribing,
    Diarizing,
    AwaitingNaming,
    Failed,
}

impl Status {
    /// The word that the status column holds.
    pub open spec fn word(self) -> Seq<char> {
        match self {
            Status::Recording => "recording"@,
            Status::Transcribing => "transcribing"@,
            Status::Diarizing => "diarizing"@,
            Status::AwaitingNaming => "awaiting_naming"@,
            Status::Failed => "failed"@,
        }
    }

    /// The word that the status column holds.
    pub fn as_str(self) -> (r: &'static str)
        ensures
            r@ == self.word(),
    {
        match self {
            Status::Recording => "recording",
            Status::Transcribing => "transcribing",
            Status::Diarizing => "diarizing",
            Status::AwaitingNaming => "awaiting_naming",
            Status::Failed => "failed",
        }
    }
}

impl Source {
    /// The word that the source column holds.
    pub open spec fn word(self) -> Seq<char> {
        match self {
            Source::Call => "call"@,
            Source::Device => "device"@,
        }
    }

    /// The word that the source column holds.
    pub fn as_str(self) -> (r: &'static str)
        ensures
            r@ == self.word(),
    {
        match self {
            Source::Call => "call",
            Source::Device => "device",
        }
    }

    /// The channel layout of a recording from this source.
    pub open spec fn layout(self) -> Seq<char> {
        match self {
            Source::Call => "stereo_mic_loopback"@,
            Source::Device => "mono"@,
        }
    }

    /// The channel layout of a recording from this source.
    pub fn channel_layout(self) -> (r: &'static str)
        ensures
            r@ == self.layout(),
    {
        match self {
            Source::Call => "stereo_mic_loopback",
            Source::Device => "mono",
        }
    }

    /// The status that a recording from this source starts in.
    pub open spec fn first_status(self) -> Status {
        match self {
            Source::Call => Status::Recording,
            Source::Device => Status::Transcribing,
        }
    }

    /// The status that a recording from this source starts in.
    pub fn initial_status(self) -> (r: Status)
        ensures
            r == self.first_status(),
    {
        match self {
            Source::Call => Status::Recording,
            Source::Device => Status::Transcribing,
        }
    }
}

/// A segment of a transcript as it is read from the database. Times are in nanoseconds from the
/// start of the recording; the confidence is the bit pattern of a 64-bit floating-point number.
#[derive(Debug)]
pub struct SegmentRow {
    pub id: i64,
    pub speaker_id: Option<i64>,
    pub speaker_name: Option<String>,
    pub start_ns: i64,
    pub end_ns: i64,
    pub text: String,
    pub confidence: Option<u64>,
}

/// The speaker that a statement attaches.
#[derive(Debug, Clone, Copy, PartialEq, Eq, Structural)]
pub enum SpeakerRef {
    /// The speaker of this id.
    Id(i64),
    /// The speaker that the statement before has inserted.
    JustInserted,
}

/// A statement for the database to execute.
#[derive(Debug)]
#[allow(inconsistent_fields)]
pub enum Statement {
    /// Adds a recording, with the layout and the first status of its source.
    InsertRecording {
        source: Source,
        source_filename: Option<String>,
        imported_at: String,
        audio_path: String,
    },
    /// Sets the status of a recording.
    SetStatus { recording_id: i64, status: Status },
    /// Gives an imported recording its verified copy, and sets it to be transcribed.
    AdoptCopy { recording_id: i64, audio_path: String },
    /// Notes that the audio of a recording has been deleted.
    MarkAudioDeleted { recording_id: i64 },
    /// Adds a speaker, with one sample.
    InsertSpeaker { name: String, embedding: Vec<u8>, created_at: String, is_self: bool },
    /// Replaces the embedding of a speaker, and counts one sample more.
    FoldIntoSpeaker { speaker_id: i64, embedding: Vec<u8> },
    /// Sets the speaker of a cluster.
    LabelCluster { cluster_id: i64, speaker: SpeakerRef },
    /// Sets the speaker of all segments of a cluster.
    LabelSegments { cluster_id: i64, speaker: SpeakerRef },
    /// Moves all segments of one cluster to another.
    MoveSegments { from: i64, into: i64 },
    /// Deletes all segments of a cluster.
    DeleteClusterSegments { cluster_id: i64 },
    /// Deletes a cluster.
    DeleteCluster { cluster_id: i64 },
    /// Deletes all segments of a recording.
    ClearSegments { recording_id: i64 },
    /// Deletes all clusters of a recording.
    ClearClusters { recording_id: i64 },
    /// Adds a cluster to a recording, or replaces the embedding of the one of that local id.
    UpsertCluster { recording_id: i64, local_id: i64, embedding: Vec<u8> },
    /// Adds a segment to a recording.
    InsertSegment {
        recording_id: i64,
        cluster_id: Option<i64>,
        speaker_id: Option<i64>,
        start_ns: i64,
        end_ns: i64,
        text: String,
        confidence: Option<u64>,
    },
    /// Adds the summary of a chunk of a recording.
    InsertSummaryChunk {
        recording_id: i64,
        start_ns: i64,
        end_ns: i64,
        text: String,
        generated_at: String,
    },
    /// Adds the running summary of a recording, or replaces it.
    PutRollingSummary { recording_id: i64, text: String, through_ns: i64, updated_at: String },
    /// Adds the summary of a recording, or replaces it.
    PutSummary { recording_id: i64, text: String, model: String, generated_at: String },
    /// Adds a setting, unless there is one of that key.
    DefaultSetting { key: String, value: String },
    /// Adds a setting, or replaces the one of that key.
    PutSetting { key: String, value: String },
}

/// A statement as a mathematical value: what `Statement` holds, with its texts as sequences.
pub enum Stmt {
    InsertRecording {
        source: Source,
        source_filename: Option<Seq<char>>,
        imported_at: Seq<char>,
        audio_path: Seq<char>,
    },
    SetStatus { recording_id: i64, status: Status },
    AdoptCopy { recording_id: i64, audio_path: Seq<char> },
    MarkAudioDeleted { recording_id: i64 },
    InsertSpeaker { name: Seq<char>, embedding: Seq<u8>, created_at: Seq<char>, is_self: bool },
    FoldIntoSpeaker { speaker_id: i64, embedding: Seq<u8> },
    LabelCluster { cluster_id: i64, speaker: SpeakerRef },
    LabelSegments { cluster_id: i64, speaker: SpeakerRef },
    MoveSegments { from: i64, into: i64 },
    DeleteClusterSegments { cluster_id: i64 },
    DeleteCluster { cluster_id: i64 },
    ClearSegments { recording_id: i64 },
    ClearClusters { recording_id: i64 },
    UpsertCluster { recording_id: i64, local_id: i64, embedding: Seq<u8> },
    InsertSegment { segment: SegmentRec },
    InsertSummaryChunk { chunk: SummaryChunkRec },
    PutRollingSummary { recording_id: i64, rolling: RollingRec },
    PutSummary { recording_id: i64, summary: SummaryRec },
    DefaultSetting { key: Seq<char>, value: Seq<char> },
    PutSetting { key: Seq<char>, value: Seq<char> },
}

impl View for Statement {
    type V = Stmt;

    open spec fn view(&self) -> Stmt {
        match *self {
            Statement::InsertRecording { source, source_filename, imported_at, audio_path } =>
                Stmt::InsertRecording {
                source,
                source_filename: opt_text(source_filename),
                imported_at: imported_at@,
                audio_path: audio_path@,
            },
            Statement::SetStatus { recording_id, status } => Stmt::SetStatus {
                recording_id,
                status,
            },
            Statement::AdoptCopy { recording_id, audio_path } => Stmt::AdoptCopy {
                recording_id,
                audio_path: audio_path@,
            },
            Statement::MarkAudioDeleted { recording_id } => Stmt::MarkAudioDeleted { recording_id },
            Statement::InsertSpeaker { name, embedding, created_at, is_self } =>
                Stmt::InsertSpeaker {
                name: name@,
                embedding: embedding@,
                created_at: created_at@,
                is_self,
            },
            Statement::FoldIntoSpeaker { speaker_id, embedding } => Stmt::FoldIntoSpeaker {
                speaker_id,
                embedding: embedding@,
            },
            Statement::LabelCluster { cluster_id, speaker } => Stmt::LabelCluster {
                cluster_id,
                speaker,
            },
            Statement::LabelSegments { cluster_id, speaker } => Stmt::LabelSegments {
                cluster_id,
                speaker,
            },
            Statement::MoveSegments { from, into } => Stmt::MoveSegments { from, into },
            Statement::DeleteClusterSegments { cluster_id } => Stmt::DeleteClusterSegments {
                cluster_id,
            },
            Statement::DeleteCluster { cluster_id } => Stmt::DeleteCluster { cluster_id },
            Statement::ClearSegments { recording_id } => Stmt::ClearSegments { recording_id },
            Statement::ClearClusters { recording_id } => Stmt::ClearClusters { recording_id },
            Statement::UpsertCluster { recording_id, local_id, embedding } => Stmt::UpsertCluster {
                recording_id,
                local_id,
                embedding: embedding@,
            },
            Statement::InsertSegment {
                recording_id,
                cluster_id,
                speaker_id,
                start_ns,
                end_ns,
                text,
                confidence,
            } => Stmt::InsertSegment {
                segment: SegmentRec {
                    recording_id,
                    cluster_id,
                    speaker_id,
                    start_ns,
                    end_ns,
                    text: text@,
                    confidence,
                },
            },
            Statement::InsertSummaryChunk { recording_id, start_ns, end_ns, text, generated_at } =>
                Stmt::InsertSummaryChunk {
                chunk: SummaryChunkRec {
                    recording_id,
                    start_ns,
                    end_ns,
                    text: text@,
                    generated_at: generated_at@,
                },
            },
            Statement::PutRollingSummary { recording_id, text, through_ns, updated_at } =>
                Stmt::PutRollingSummary {
                recording_id,
                rolling: RollingRec { text: text@, through_ns, updated_at: updated_at@ },
            },
            Statement::PutSummary { recording_id, text, model, generated_at } => Stmt::PutSummary {
                recording_id,
                summary: SummaryRec { text: text@, model: model@, generated_at: generated_at@ },
            },
            Statement::DefaultSetting { key, value } => Stmt::DefaultSetting {
                key: key@,
                value: value@,
            },
            Statement::PutSetting { key, value } => Stmt::PutSetting { key: key@, value: value@ },
        }
    }
}

/// The mathematical values of a list of statements.
pub open spec fn stmts(plan: Seq<Statement>) -> Seq<Stmt> {
    Seq::new(plan.len(), |i: int| plan[i]@)
}

/// A row of the table of recordings.
pub struct RecordingRec {
    pub source: Source,
    pub source_filename: Option<Seq<char>>,
    pub channel_layout: Seq<char>,
    pub imported_at: Seq<char>,
    pub status: Status,
    pub audio_deleted: bool,
    pub audio_path: Seq<char>,
}

/// A row of the table of speakers.
pub struct SpeakerRec {
    pub name: Seq<char>,
    pub embedding: Seq<u8>,
    pub sample_count: int,
    pub created_at: Seq<char>,
    pub is_self: bool,
}

/// A row of the table of clusters.
pub struct ClusterRec {
    pub recording_id: i64,
    pub local_id: i64,
    pub embedding: Seq<u8>,
    pub speaker_id: Option<i64>,
}

/// A row of the table of segments.
pub struct SegmentRec {
    pub recording_id: i64,
    pub cluster_id: Option<i64>,
    pub speaker_id: Option<i64>,
    pub start_ns: i64,
    pub end_ns: i64,
    pub text: Seq<char>,
    pub confidence: Option<u64>,
}

/// A row of the table of summaries of chunks.
pub struct SummaryChunkRec {
    pub recording_id: i64,
    pub start_ns: i64,
    pub end_ns: i64,
    pub text: Seq<char>,
    pub generated_at: Seq<char>,
}

/// A row of the table of running summaries.
pub struct RollingRec {
    pub text: Seq<char>,
    pub through_ns: i64,
    pub updated_at: Seq<char>,
}

/// A row of the table of summaries.
pub struct SummaryRec {
    pub text: Seq<char>,
    pub model: Seq<char>,
    pub generated_at: Seq<char>,
}

/// The tables, each as a map from row ids to rows; the running summaries and the summaries from
/// the ids of their recordings, and the settings from keys to values.
#[verifier::ext_equal]
pub struct Tables {
    pub recordings: Map<i64, RecordingRec>,
    pub speakers: Map<i64, SpeakerRec>,
    pub clusters: Map<i64, ClusterRec>,
    pub segments: Map<i64, SegmentRec>,
    pub summary_chunks: Map<i64, SummaryChunkRec>,
    pub rolling_summaries: Map<i64, RollingRec>,
    pub summaries: Map<i64, SummaryRec>,
    pub settings: Map<Seq<char>, Seq<char>>,
}

impl Tables {
    /// Whether a segment belongs to this cluster.
    pub open spec fn cluster_in_use(self, cluster_id: i64) -> bool {
        exists|s: i64| #[trigger]
            self.segments.dom().contains(s) && self.segments[s].cluster_id == Some(cluster_id)
    }

    /// Whether every reference from one row to another leads to a row, and no two clusters of a
    /// recording have the same local id.
    pub open spec fn consistent(self) -> bool {
        &&& forall|c: i64| #[trigger]
            self.clusters.dom().contains(c) ==> self.cluster_is_sound(self.clusters[c])
        &&& forall|s: i64| #[trigger]
            self.segments.dom().contains(s) ==> self.segment_is_sound(self.segments[s])
        &&& forall|c: i64, d: i64| #[trigger]
            self.clusters.dom().contains(c) && #[trigger] self.clusters.dom().contains(d)
                && self.clusters[c].recording_id == self.clusters[d].recording_id
                && self.clusters[c].local_id == self.clusters[d].local_id ==> c == d
        &&& forall|k: i64| #[trigger]
            self.summary_chunks.dom().contains(k) ==> self.recordings.dom().contains(
                self.summary_chunks[k].recording_id,
            )
        &&& forall|r: i64| #[trigger]
            self.rolling_summaries.dom().contains(r) ==> self.recordings.dom().contains(r)
        &&& forall|r: i64| #[trigger]
            self.summaries.dom().contains(r) ==> self.recordings.dom().contains(r)
    }

    /// Whether what a cluster refers to is there.
    pub open spec fn cluster_is_sound(self, c: ClusterRec) -> bool {
        &&& self.recordings.dom().contains(c.recording_id)
        &&& c.speaker_id matches Some(p) ==> self.speakers.dom().contains(p)
    }

    /// Whether what a segment refers to is there.
    pub open spec fn segment_is_sound(self, s: SegmentRec) -> bool {
        &&& self.recordings.dom().contains(s.recording_id)
        &&& s.cluster_id matches Some(c) ==> self.clusters.dom().contains(c)
        &&& s.speaker_id matches Some(p) ==> self.speakers.dom().contains(p)
    }

    /// The cluster of this local id in a recording, if there is one.
    pub open spec fn cluster_of(self, recording_id: i64, local_id: i64) -> Option<i64> {
        if exists|c: i64| #[trigger] self.is_cluster_of(c, recording_id, local_id) {
            Some(choose|c: i64| #[trigger] self.is_cluster_of(c, recording_id, local_id))
        } else {
            None
        }
    }

    /// Whether `c` is the cluster of this local id in a recording.
    pub open spec fn is_cluster_of(self, c: i64, recording_id: i64, local_id: i64) -> bool {
        &&& self.clusters.dom().contains(c)
        &&& self.clusters[c].recording_id == recording_id
        &&& self.clusters[c].local_id == local_id
    }

    /// The segments with `f` applied to those of a cluster.
    pub open spec fn segments_of_cluster_mapped(
        self,
        cluster_id: i64,
        f: spec_fn(SegmentRec) -> SegmentRec,
    ) -> Map<i64, SegmentRec> {
        self.segments.map_values(
            |s: SegmentRec|
                if s.cluster_id == Some(cluster_id) {
                    f(s)
                } else {
                    s
                },
        )
    }
}

/// The id of the speaker that a statement attaches, where `id` is that of the row inserted last.
pub open spec fn speaker_id(speaker: SpeakerRef, id: i64) -> i64 {
    match speaker {
        SpeakerRef::Id(p) => p,
        SpeakerRef::JustInserted => id,
    }
}

/// What a statement makes of the tables, where `id` is the id of the row that it inserts, or
/// that was inserted last; nothing where it fails.
pub open spec fn effect(t: Tables, stmt: Stmt, id: i64) -> Option<Tables> {
    match stmt {
        Stmt::InsertRecording { source, source_filename, imported_at, audio_path } => Some(
            Tables {
                recordings: t.recordings.insert(
                    id,
                    RecordingRec {
                        source,
                        source_filename,
                        channel_layout: source.layout(),
                        imported_at,
                        status: source.first_status(),
                        audio_deleted: false,
                        audio_path,
                    },
                ),
                ..t
            },
        ),
        Stmt::SetStatus { recording_id, status } => Some(
            if t.recordings.dom().contains(recording_id) {
                Tables {
                    recordings: t.recordings.insert(
                        recording_id,
                        RecordingRec { status, ..t.recordings[recording_id] },
                    ),
                    ..t
                }
            } else {
                t
            },
        ),
        Stmt::AdoptCopy { recording_id, audio_path } => Some(
            if t.recordings.dom().contains(recording_id) {
                Tables {
                    recordings: t.recordings.insert(
                        recording_id,
                        RecordingRec {
                            audio_path,
                            status: Status::Transcribing,
                            ..t.recordings[recording_id]
                        },
                    ),
                    ..t
                }
            } else {
                t
            },
        ),
        Stmt::MarkAudioDeleted { recording_id } => Some(
            if t.recordings.dom().contains(recording_id) {
                Tables {
                    recordings: t.recordings.insert(
                        recording_id,
                        RecordingRec { audio_deleted: true, ..t.recordings[recording_id] },
                    ),
                    ..t
                }
            } else {
                t
            },
        ),
        Stmt::InsertSpeaker { name, embedding, created_at, is_self } => Some(
            Tables {
                speakers: t.speakers.insert(
                    id,
                    SpeakerRec { name, embedding, sample_count: 1, created_at, is_self },
                ),
                ..t
            },
        ),
        Stmt::FoldIntoSpeaker { speaker_id, embedding } => Some(
            if t.speakers.dom().contains(speaker_id) {
                Tables {
                    speakers: t.speakers.insert(
                        speaker_id,
                        SpeakerRec {
                            embedding,
                            sample_count: t.speakers[speaker_id].sample_count + 1,
                            ..t.speakers[speaker_id]
                        },
                    ),
                    ..t
                }
            } else {
                t
            },
        ),
        Stmt::LabelCluster { cluster_id, speaker } => if !t.clusters.dom().contains(cluster_id) {
            Some(t)
        } else if t.speakers.dom().contains(speaker_id(speaker, id)) {
            Some(
                Tables {
                    clusters: t.clusters.insert(
                        cluster_id,
                        ClusterRec {
                            speaker_id: Some(speaker_id(speaker, id)),
                            ..t.clusters[cluster_id]
                        },
                    ),
                    ..t
                },
            )
        } else {
            None
        },
        Stmt::LabelSegments { cluster_id, speaker } => if !t.cluster_in_use(cluster_id) {
            Some(t)
        } else if t.speakers.dom().contains(speaker_id(speaker, id)) {
            Some(
                Tables {
                    segments: t.segments_of_cluster_mapped(
                        cluster_id,
                        |s: SegmentRec|
                            SegmentRec { speaker_id: Some(speaker_id(speaker, id)), ..s },
                    ),
                    ..t
                },
            )
        } else {
            None
        },
        Stmt::MoveSegments { from, into } => if !t.cluster_in_use(from) {
            Some(t)
        } else if t.clusters.dom().contains(into) {
            Some(
                Tables {
                    segments: t.segments_of_cluster_mapped(
                        from,
                        |s: SegmentRec| SegmentRec { cluster_id: Some(into), ..s },
                    ),
                    ..t
                },
            )
        } else {
            None
        },
        Stmt::DeleteClusterSegments { cluster_id } => Some(
            Tables {
                segments: t.segments.restrict(
                    t.segments.dom().filter(
                        |s: i64| t.segments[s].cluster_id != Some(cluster_id),
                    ),
                ),
                ..t
            },
        ),
        Stmt::DeleteCluster { cluster_id } => if t.clusters.dom().contains(cluster_id)
            && t.cluster_in_use(cluster_id) {
            None
        } else {
            Some(Tables { clusters: t.clusters.remove(cluster_id), ..t })
        },
        Stmt::ClearSegments { recording_id } => Some(
            Tables {
                segments: t.segments.restrict(
                    t.segments.dom().filter(|s: i64| t.segments[s].recording_id != recording_id),
                ),
                ..t
            },
        ),
        Stmt::ClearClusters { recording_id } => if exists|c: i64|
            #![trigger t.clusters.dom().contains(c)]
            t.clusters.dom().contains(c) && t.clusters[c].recording_id == recording_id
                && t.cluster_in_use(c) {
            None
        } else {
            Some(
                Tables {
                    clusters: t.clusters.restrict(
                        t.clusters.dom().filter(
                            |c: i64| t.clusters[c].recording_id != recording_id,
                        ),
                    ),
                    ..t
                },
            )
        },
        Stmt::UpsertCluster { recording_id, local_id, embedding } => match t.cluster_of(
            recording_id,
            local_id,
        ) {
            Some(c) => Some(
                Tables {
                    clusters: t.clusters.insert(c, ClusterRec { embedding, ..t.clusters[c] }),
                    ..t
                },
            ),
            None => if t.recordings.dom().contains(recording_id) {
                Some(
                    Tables {
                        clusters: t.clusters.insert(
                            id,
                            ClusterRec { recording_id, local_id, embedding, speaker_id: None },
                        ),
                        ..t
                    },
                )
            } else {
                None
            },
        },
        Stmt::InsertSegment { segment } => if t.segment_is_sound(segment) {
            Some(Tables { segments: t.segments.insert(id, segment), ..t })
        } else {
            None
        },
        Stmt::InsertSummaryChunk { chunk } => if t.recordings.dom().contains(chunk.recording_id) {
            Some(Tables { summary_chunks: t.summary_chunks.insert(id, chunk), ..t })
        } else {
            None
        },
        Stmt::PutRollingSummary { recording_id, rolling } => if t.recordings.dom().contains(
            recording_id,
        ) {
            Some(
                Tables {
                    rolling_summaries: t.rolling_summaries.insert(recording_id, rolling),
                    ..t
                },
            )
        } else {
            None
        },
        Stmt::PutSummary { recording_id, summary } => if t.recordings.dom().contains(
            recording_id,
        ) {
            Some(Tables { summaries: t.summaries.insert(recording_id, summary), ..t })
        } else {
            None
        },
        Stmt::DefaultSetting { key, value } => Some(
            if t.settings.dom().contains(key) {
                t
            } else {
                Tables { settings: t.settings.insert(key, value), ..t }
            },
        ),
        Stmt::PutSetting { key, value } => Some(
            Tables { settings: t.settings.insert(key, value), ..t },
        ),
    }
}

/// Whether `id` is one that the database may give to the row that a statement inserts.
pub open spec fn fresh(t: Tables, stmt: Stmt, id: i64) -> bool {
    match stmt {
        Stmt::InsertRecording { .. } => !t.recordings.dom().contains(id),
        Stmt::InsertSpeaker { .. } => !t.speakers.dom().contains(id),
        Stmt::UpsertCluster { .. } => !t.clusters.dom().contains(id),
        Stmt::InsertSegment { .. } => !t.segments.dom().contains(id),
        Stmt::InsertSummaryChunk { .. } => !t.summary_chunks.dom().contains(id),
        _ => true,
    }
}

/// What a list of statements makes of the tables when they are executed in order up to the
/// first that fails; nothing where one fails. `ids[i]` is the id that goes with the statement
/// `plan[i]`.
pub open spec fn run(t: Tables, plan: Seq<Stmt>, ids: Seq<i64>) -> Option<Tables>
    decreases plan.len(),
{
    if plan.len() == 0 {
        Some(t)
    } else {
        match run(t, plan.drop_last(), ids.drop_last()) {
            Some(u) => effect(u, plan.last(), ids.last()),
            None => None,
        }
    }
}

/// A statement that succeeds leaves no reference without a row, whichever unused id the
/// database gives to the row that it inserts.
pub proof fn law_statements_keep_references(t: Tables, stmt: Stmt, id: i64)
    requires
        t.consistent(),
        fresh(t, stmt, id),
    ensures
        effect(t, stmt, id) matches Some(u) ==> u.consistent(),
{
    if let Some(u) = effect(t, stmt, id) {
        assert forall|c: i64| #[trigger] u.clusters.dom().contains(c) implies u.cluster_is_sound(
            u.clusters[c],
        ) by {
            if t.clusters.dom().contains(c) {
                assert(t.cluster_is_sound(t.clusters[c]));
            }
        }
        assert forall|s: i64| #[trigger] u.segments.dom().contains(s) implies u.segment_is_sound(
            u.segments[s],
        ) by {
            if t.segments.dom().contains(s) {
                assert(t.segment_is_sound(t.segments[s]));
                if let Some(c) = t.segments[s].cluster_id {
                    assert(t.clusters.dom().contains(c));
                    assert(t.cluster_in_use(c));
                }
            }
        }
        assert forall|c: i64, d: i64| #[trigger]
            u.clusters.dom().contains(c) && #[trigger] u.clusters.dom().contains(d)
                && u.clusters[c].recording_id == u.clusters[d].recording_id
                && u.clusters[c].local_id == u.clusters[d].local_id implies c == d by {
            if t.clusters.dom().contains(c) && t.clusters.dom().contains(d) {
                assert(t.clusters[c].recording_id == u.clusters[c].recording_id);
                assert(t.clusters[d].recording_id == u.clusters[d].recording_id);
            } else if t.clusters.dom().contains(c) {
                assert(t.is_cluster_of(c, u.clusters[d].recording_id, u.clusters[d].local_id));
            } else if t.clusters.dom().contains(d) {
                assert(t.is_cluster_of(d, u.clusters[c].recording_id, u.clusters[c].local_id));
            }
        }
    }
}

/// Whether each of `ids` is one that the database may give when the statements are executed in
/// order.
pub open spec fn fresh_along(t: Tables, plan: Seq<Stmt>, ids: Seq<i64>) -> bool
    decreases plan.len(),
{
    plan.len() == 0 || {
        &&& fresh_along(t, plan.drop_last(), ids.drop_last())
        &&& run(t, plan.drop_last(), ids.drop_last()) matches Some(u) ==> fresh(
            u,
            plan.last(),
            ids.last(),
        )
    }
}

/// A list of statements that succeed leaves no reference without a row.
pub proof fn law_lists_keep_references(t: Tables, plan: Seq<Stmt>, ids: Seq<i64>)
    requires
        t.consistent(),
        fresh_along(t, plan, ids),
    ensures
        run(t, plan, ids) matches Some(u) ==> u.consistent(),
    decreases plan.len(),
{
    if plan.len() > 0 {
        law_lists_keep_references(t, plan.drop_last(), ids.drop_last());
        if let Some(u) = run(t, plan.drop_last(), ids.drop_last()) {
            law_statements_keep_references(u, plan.last(), ids.last());
        }
    }
}

/// Executing one statement more.
pub proof fn lemma_run_push(t: Tables, plan: Seq<Stmt>, ids: Seq<i64>, stmt: Stmt, id: i64)
    requires
        ids.len() == plan.len(),
    ensures
        run(t, plan.push(stmt), ids.push(id)) == match run(t, plan, ids) {
            Some(u) => effect(u, stmt, id),
            None => None,
        },
{
    assert(plan.push(stmt).drop_last() =~= plan);
    assert(ids.push(id).drop_last() =~= ids);
}

/// Executing one list of statements after another.
pub proof fn law_lists_run_one_after_another(
    t: Tables,
    first: Seq<Stmt>,
    first_ids: Seq<i64>,
    second: Seq<Stmt>,
    second_ids: Seq<i64>,
)
    requires
        first_ids.len() == first.len(),
        second_ids.len() == second.len(),
    ensures
        run(t, first + second, first_ids + second_ids) == match run(t, first, first_ids) {
            Some(u) => run(u, second, second_ids),
            None => None,
        },
    decreases second.len(),
{
    if second.len() == 0 {
        assert(first + second =~= first);
        assert(first_ids + second_ids =~= first_ids);
    } else {
        law_lists_run_one_after_another(
            t,
            first,
            first_ids,
            second.drop_last(),
            second_ids.drop_last(),
        );
        assert((first + second).drop_last() =~= first + second.drop_last());
        assert((first_ids + second_ids).drop_last() =~= first_ids + second_ids.drop_last());
    }
}

} // verus!
