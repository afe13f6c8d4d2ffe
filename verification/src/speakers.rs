//! Naming the voices of a recording: what is shown for each voice that has no name yet, and
//! what a decision about it changes.

use vstd::prelude::*;

use crate::diarize::{decode_embedding, decoded, encode_embedding, encoded};
use crate::order::{
    law_sorted_is_a_rearrangement, law_sorted_is_in_order, law_sorting_keeps_ties_in_order, sorted,
    stable_sort, ties_with, Ranked,
};
use crate::selection::ascending;
use crate::store::{
    lemma_run_push, run, stmts, ClusterRec, SegmentRec, SpeakerRec, SpeakerRef, Statement, Stmt,
    Tables,
};
use crate::text::{chars_of, trim, trimmed};

verus! {

/// The similarity from which a known speaker's name is filled in beforehand: the bit pattern of
/// the 32-bit floating-point number 0.75.
pub const SIM_PREFILL: u32 = 0x3f40_0000;

/// The similarity from which a known speaker is suggested: the bit pattern of the 32-bit
/// floating-point number 0.55.
pub const SIM_SUGGEST: u32 = 0x3f0c_cccd;

/// The bit pattern of the 32-bit floating-point infinity. Among the numbers that are not
/// negative the bit patterns are ordered as the numbers are, up to this one; above it are the
/// patterns that stand for no number and the negative numbers.
pub const INFINITY: u32 = 0x7f80_0000;

/// How many speakers are suggested at most for a voice.
pub const MAX_SUGGESTIONS: usize = 5;

/// How many snippets are shown at most of a voice.
pub const MAX_SNIPPETS: usize = 5;

/// The shortest snippet that is shown, in nanoseconds.
pub const MIN_SNIPPET_NS: i64 = 2_000_000_000;

/// The longest snippet that is shown, in nanoseconds.
pub const MAX_SNIPPET_NS: i64 = 12_000_000_000;

/// A snippet's text is shown only if it has more characters than this.
pub const SNIPPET_TEXT_CHARS: usize = 12;

/// Something that a voice said. Times are in nanoseconds from the start of the recording.
#[derive(Debug)]
pub struct Snippet {
    pub start_ns: i64,
    pub end_ns: i64,
    pub text: String,
    pub audio_b64: Option<String>,
}

/// A known speaker whose voice is like one that has no name yet. The similarity is the bit
/// pattern of a 32-bit floating-point number.
#[derive(Debug)]
pub struct Suggestion {
    pub speaker_id: i64,
    pub name: String,
    pub similarity: u32,
}

/// A voice that has no name yet.
#[derive(Debug)]
pub struct UnnamedCluster {
    pub cluster_id: i64,
    pub snippets: Vec<Snippet>,
    pub suggestions: Vec<Suggestion>,
}

/// What the user decides about a voice.
#[derive(Debug)]
pub enum Decision {
    /// It is a new speaker of this name.
    New { name: String },
    /// It is this known speaker.
    Existing { speaker_id: i64 },
    /// It is the voice of this other cluster.
    Merge { into_cluster_id: i64 },
    /// It is no voice.
    Noise,
}

/// What is known of a voice that has no name yet: the known speakers, each with how like this
/// voice theirs is, and everything that the voice said.
#[derive(Debug)]
pub struct VoiceFacts {
    pub cluster_id: i64,
    pub candidates: Vec<Suggestion>,
    pub segments: Vec<Snippet>,
}

/// More alike comes first.
impl Ranked for Suggestion {
    open spec fn before(&self, other: &Self) -> bool {
        self.similarity > other.similarity
    }

    fn precedes(&self, other: &Self) -> (r: bool) {
        self.similarity > other.similarity
    }

    proof fn order_laws(a: &Self, b: &Self, c: &Self) {
    }
}

/// Earlier comes first.
impl Ranked for Snippet {
    open spec fn before(&self, other: &Self) -> bool {
        self.start_ns < other.start_ns
    }

    fn precedes(&self, other: &Self) -> (r: bool) {
        self.start_ns < other.start_ns
    }

    proof fn order_laws(a: &Self, b: &Self, c: &Self) {
    }
}

/// Whether a similarity is a number, and at least that from which a speaker is suggested.
pub open spec fn alike(similarity: u32) -> bool {
    SIM_SUGGEST <= similarity <= INFINITY
}

/// The most alike of the known speakers, the most alike first: those that are alike enough,
/// and no more than may be suggested.
pub open spec fn suggestions(candidates: Seq<Suggestion>) -> Seq<Suggestion> {
    let all = sorted(candidates.filter(|c: Suggestion| alike(c.similarity)));
    if all.len() > MAX_SUGGESTIONS {
        all.take(MAX_SUGGESTIONS as int)
    } else {
        all
    }
}

/// The known speakers to suggest for a voice.
pub fn rank_suggestions(candidates: Vec<Suggestion>) -> (r: Vec<Suggestion>)
    ensures
        r@ == suggestions(candidates@),
{
    let ghost all = candidates@;
    let ghost keep = |c: Suggestion| alike(c.similarity);
    let mut rest = candidates;
    let mut kept: Vec<Suggestion> = Vec::new();
    let n: usize = rest.len();
    let mut i: usize = 0;
    assert(all.skip(0) =~= all);
    assert(all.take(0).filter(keep) =~= Seq::<Suggestion>::empty()) by {
        reveal(Seq::filter);
    }
    while i < n
        invariant
            i <= n == all.len(),
            rest@ == all.skip(i as int),
            kept@ == all.take(i as int).filter(keep),
            keep == (|c: Suggestion| alike(c.similarity)),
        decreases n - i,
    {
        let c = rest.remove(0);
        assert(c == all[i as int]);
        assert(rest@ =~= all.skip(i + 1));
        proof {
            reveal(Seq::filter);
            assert(all.take(i + 1).drop_last() =~= all.take(i as int));
        }
        if SIM_SUGGEST <= c.similarity && c.similarity <= INFINITY {
            kept.push(c);
        }
        i = i + 1;
    }
    assert(all.take(n as int) =~= all);
    stable_sort(&mut kept);
    if kept.len() > MAX_SUGGESTIONS {
        kept.truncate(MAX_SUGGESTIONS);
    }
    kept
}

/// The number of characters of `s` ahead of the first one that is NUL.
pub open spec fn length_to_nul(s: Seq<char>) -> nat
    decreases s.len(),
{
    if s.len() == 0 || s.first() == '\0' {
        0
    } else {
        1 + length_to_nul(s.drop_first())
    }
}

/// Whether a segment is one to show: of a fitting length, and with enough text.
pub open spec fn presentable(s: Snippet) -> bool {
    &&& MIN_SNIPPET_NS <= s.end_ns - s.start_ns <= MAX_SNIPPET_NS
    &&& length_to_nul(s.text@) > SNIPPET_TEXT_CHARS
}

fn text_length(s: &str) -> (n: usize)
    ensures
        n == length_to_nul(s@),
{
    let v = chars_of(s);
    let mut i: usize = 0;
    assert(v@.skip(0) =~= s@);
    while i < v.len() && v[i] != '\0'
        invariant
            i <= v@.len(),
            length_to_nul(s@) == i + length_to_nul(v@.skip(i as int)),
        decreases v@.len() - i,
    {
        assert(v@.skip(i as int).drop_first() =~= v@.skip(i + 1));
        i = i + 1;
    }
    i
}

fn is_presentable(s: &Snippet) -> (r: bool)
    ensures
        r == presentable(*s),
{
    let length: i128 = s.end_ns as i128 - s.start_ns as i128;
    MIN_SNIPPET_NS as i128 <= length && length <= MAX_SNIPPET_NS as i128 && text_length(
        s.text.as_str(),
    ) > SNIPPET_TEXT_CHARS
}

/// The segments to show, in the order of their starts.
pub open spec fn shown(segments: Seq<Snippet>) -> Seq<Snippet> {
    sorted(segments.filter(|s: Snippet| presentable(s)))
}

/// The position, among `n` things, of the `i`th of `want` that are spread evenly over them.
pub open spec fn spread(i: int, n: int, want: int) -> int {
    i * n / want
}

/// How many of `n` snippets are picked.
pub open spec fn pick_count(n: nat) -> nat {
    if n < MAX_SNIPPETS {
        n
    } else {
        MAX_SNIPPETS as nat
    }
}

/// Whether `r` is the snippet that shows the segment `s`: its text is trimmed.
pub open spec fn shows(r: Snippet, s: Snippet) -> bool {
    &&& r.start_ns == s.start_ns
    &&& r.end_ns == s.end_ns
    &&& r.text@ == trimmed(s.text@)
    &&& r.audio_b64 is None
}

/// Whether `r` are the snippets picked from the segments: as many as are wanted, spread evenly
/// over those that may be shown.
pub open spec fn are_picks(r: Seq<Snippet>, segments: Seq<Snippet>) -> bool {
    let all = shown(segments);
    let want = pick_count(all.len());
    &&& r.len() == want
    &&& forall|i: int|
        0 <= i < want ==> shows(#[trigger] r[i], all[spread(i, all.len() as int, want as int)])
}

proof fn lemma_spread_in_range(i: int, n: int, want: int)
    requires
        0 <= i < want <= n,
    ensures
        0 <= spread(i, n, want) < n,
{
    assert(0 <= i * n / want < n) by (nonlinear_arith)
        requires
            0 <= i < want <= n,
    ;
}

/// The snippets to show of a voice that said `segments`.
pub fn pick_snippets(segments: Vec<Snippet>) -> (r: Vec<Snippet>)
    ensures
        are_picks(r@, segments@),
{
    let ghost given = segments@;
    let ghost keep = |s: Snippet| presentable(s);
    let mut rest = segments;
    let mut all: Vec<Snippet> = Vec::new();
    let n: usize = rest.len();
    let mut i: usize = 0;
    assert(given.skip(0) =~= given);
    assert(given.take(0).filter(keep) =~= Seq::<Snippet>::empty()) by {
        reveal(Seq::filter);
    }
    while i < n
        invariant
            i <= n == given.len(),
            rest@ == given.skip(i as int),
            all@ == given.take(i as int).filter(keep),
            keep == (|s: Snippet| presentable(s)),
        decreases n - i,
    {
        let s = rest.remove(0);
        assert(s == given[i as int]);
        assert(rest@ =~= given.skip(i + 1));
        proof {
            reveal(Seq::filter);
            assert(given.take(i + 1).drop_last() =~= given.take(i as int));
        }
        if is_presentable(&s) {
            all.push(s);
        }
        i = i + 1;
    }
    assert(given.take(n as int) =~= given);
    stable_sort(&mut all);
    assert(all@ == shown(given));
    let len: usize = all.len();
    let want: usize = if len < MAX_SNIPPETS {
        len
    } else {
        MAX_SNIPPETS
    };
    let mut picks: Vec<Snippet> = Vec::new();
    let mut k: usize = 0;
    while k < want
        invariant
            k <= want <= len == all@.len(),
            want <= MAX_SNIPPETS,
            picks@.len() == k,
            forall|j: int|
                0 <= j < k ==> shows(
                    #[trigger] picks@[j],
                    all@[spread(j, len as int, want as int)],
                ),
        decreases want - k,
    {
        proof {
            lemma_spread_in_range(k as int, len as int, want as int);
            assert(k * len <= MAX_SNIPPETS * len) by (nonlinear_arith)
                requires
                    k <= MAX_SNIPPETS,
            ;
        }
        let idx: usize = (k as u128 * len as u128 / want as u128) as usize;
        assert(idx == spread(k as int, len as int, want as int));
        let s = &all[idx];
        picks.push(
            Snippet {
                start_ns: s.start_ns,
                end_ns: s.end_ns,
                text: trim(s.text.as_str()),
                audio_b64: None,
            },
        );
        k = k + 1;
    }
    picks
}

/// Whether `r` is what is shown of the voice of which `f` is known.
pub open spec fn presents(r: UnnamedCluster, f: VoiceFacts) -> bool {
    &&& r.cluster_id == f.cluster_id
    &&& r.suggestions@ == suggestions(f.candidates@)
    &&& are_picks(r.snippets@, f.segments@)
}

/// What is shown of the voices that have no name yet, in the order in which they are given.
pub fn unnamed_clusters(voices: Vec<VoiceFacts>) -> (r: Vec<UnnamedCluster>)
    ensures
        r@.len() == voices@.len(),
        forall|i: int| 0 <= i < r@.len() ==> presents(#[trigger] r@[i], voices@[i]),
{
    let ghost given = voices@;
    let mut rest = voices;
    let mut out: Vec<UnnamedCluster> = Vec::new();
    let n: usize = rest.len();
    let mut i: usize = 0;
    assert(given.skip(0) =~= given);
    while i < n
        invariant
            i <= n == given.len(),
            rest@ == given.skip(i as int),
            out@.len() == i,
            forall|k: int| 0 <= k < i ==> presents(#[trigger] out@[k], given[k]),
        decreases n - i,
    {
        let f = rest.remove(0);
        assert(f == given[i as int]);
        assert(rest@ =~= given.skip(i + 1));
        let suggestions = rank_suggestions(f.candidates);
        let snippets = pick_snippets(f.segments);
        out.push(UnnamedCluster { cluster_id: f.cluster_id, snippets, suggestions });
        i = i + 1;
    }
    out
}

/// What the database says about the rows that a decision names.
#[derive(Debug)]
pub struct DecisionFacts {
    /// The embedding of the speaker that the voice is said to be, with that of the voice folded
    /// into it, as bit patterns; nothing where there is no such speaker.
    pub folded: Option<Vec<u32>>,
    /// The speaker of the cluster that the voice is said to belong to; nothing where it has
    /// none, or where there is no such cluster.
    pub into_speaker: Option<i64>,
}

/// Why a decision cannot be carried out.
#[derive(Debug, Clone, Copy, PartialEq, Eq, Structural)]
pub enum ConfirmError {
    /// There is no speaker of that id.
    NoSuchSpeaker,
}

/// The statements that attach a speaker to a cluster and to its segments.
pub open spec fn attach_plan(cluster_id: i64, speaker: SpeakerRef) -> Seq<Stmt> {
    seq![
        Stmt::LabelCluster { cluster_id, speaker },
        Stmt::LabelSegments { cluster_id, speaker },
    ]
}

/// The statements that carry out a decision about a cluster whose embedding is stored as
/// `embedding`; nothing where it cannot be carried out.
pub open spec fn confirm_plan(
    cluster_id: i64,
    embedding: Seq<u8>,
    decision: Decision,
    facts: DecisionFacts,
    now: Seq<char>,
) -> Option<Seq<Stmt>> {
    match decision {
        Decision::New { name } => Some(
            seq![
                Stmt::InsertSpeaker {
                    name: name@,
                    embedding: encoded(decoded(embedding)),
                    created_at: now,
                    is_self: false,
                },
            ] + attach_plan(cluster_id, SpeakerRef::JustInserted),
        ),
        Decision::Existing { speaker_id } => match facts.folded {
            Some(folded) => Some(
                seq![Stmt::FoldIntoSpeaker { speaker_id, embedding: encoded(folded@) }]
                    + attach_plan(cluster_id, SpeakerRef::Id(speaker_id)),
            ),
            None => None,
        },
        Decision::Merge { into_cluster_id } => match facts.into_speaker {
            Some(p) => Some(attach_plan(cluster_id, SpeakerRef::Id(p))),
            None => Some(
                seq![
                    Stmt::MoveSegments { from: cluster_id, into: into_cluster_id },
                    Stmt::DeleteCluster { cluster_id },
                ],
            ),
        },
        Decision::Noise => Some(
            seq![Stmt::DeleteClusterSegments { cluster_id }, Stmt::DeleteCluster { cluster_id }],
        ),
    }
}

/// Adds the statements that attach a speaker to a cluster and to its segments.
pub fn attach_cluster(plan: &mut Vec<Statement>, cluster_id: i64, speaker: SpeakerRef)
    ensures
        stmts(final(plan)@) == stmts(old(plan)@) + attach_plan(cluster_id, speaker),
{
    let ghost before = stmts(plan@);
    plan.push(Statement::LabelCluster { cluster_id, speaker });
    plan.push(Statement::LabelSegments { cluster_id, speaker });
    assert(stmts(plan@) =~= before + attach_plan(cluster_id, speaker));
}

/// Plans how to carry out a decision about a cluster: the statements to execute, in order.
pub fn confirm(
    cluster_id: i64,
    embedding: &Vec<u8>,
    decision: Decision,
    facts: DecisionFacts,
    now: String,
) -> (r: Result<Vec<Statement>, ConfirmError>)
    ensures
        match r {
            Ok(plan) => confirm_plan(cluster_id, embedding@, decision, facts, now@) == Some(
                stmts(plan@),
            ),
            Err(e) => e == ConfirmError::NoSuchSpeaker && confirm_plan(
                cluster_id,
                embedding@,
                decision,
                facts,
                now@,
            ) is None,
        },
{
    let mut plan: Vec<Statement> = Vec::new();
    match decision {
        Decision::New { name } => {
            let voice = decode_embedding(embedding.as_slice());
            plan.push(
                Statement::InsertSpeaker {
                    name,
                    embedding: encode_embedding(voice.as_slice()),
                    created_at: now,
                    is_self: false,
                },
            );
            assert(stmts(plan@) =~= seq![
                Stmt::InsertSpeaker {
                    name: name@,
                    embedding: encoded(decoded(embedding@)),
                    created_at: now@,
                    is_self: false,
                },
            ]);
            attach_cluster(&mut plan, cluster_id, SpeakerRef::JustInserted);
        },
        Decision::Existing { speaker_id } => {
            match facts.folded {
                Some(folded) => {
                    plan.push(
                        Statement::FoldIntoSpeaker {
                            speaker_id,
                            embedding: encode_embedding(folded.as_slice()),
                        },
                    );
                    assert(stmts(plan@) =~= seq![
                        Stmt::FoldIntoSpeaker { speaker_id, embedding: encoded(folded@) },
                    ]);
                    attach_cluster(&mut plan, cluster_id, SpeakerRef::Id(speaker_id));
                },
                None => {
                    return Err(ConfirmError::NoSuchSpeaker);
                },
            }
        },
        Decision::Merge { into_cluster_id } => {
            match facts.into_speaker {
                Some(p) => {
                    attach_cluster(&mut plan, cluster_id, SpeakerRef::Id(p));
                    assert(stmts(plan@) =~= attach_plan(cluster_id, SpeakerRef::Id(p)));
                },
                None => {
                    plan.push(
                        Statement::MoveSegments { from: cluster_id, into: into_cluster_id },
                    );
                    plan.push(Statement::DeleteCluster { cluster_id });
                    assert(stmts(plan@) =~= seq![
                        Stmt::MoveSegments { from: cluster_id, into: into_cluster_id },
                        Stmt::DeleteCluster { cluster_id },
                    ]);
                },
            }
        },
        Decision::Noise => {
            plan.push(Statement::DeleteClusterSegments { cluster_id });
            plan.push(Statement::DeleteCluster { cluster_id });
            assert(stmts(plan@) =~= seq![
                Stmt::DeleteClusterSegments { cluster_id },
                Stmt::DeleteCluster { cluster_id },
            ]);
        },
    }
    Ok(plan)
}

/// The tables with a cluster and all its segments attached to a speaker, and nothing else
/// changed.
pub open spec fn attached(t: Tables, cluster_id: i64, p: i64) -> Tables {
    Tables {
        clusters: t.clusters.insert(
            cluster_id,
            ClusterRec { speaker_id: Some(p), ..t.clusters[cluster_id] },
        ),
        segments: t.segments.map_values(
            |s: SegmentRec|
                if s.cluster_id == Some(cluster_id) {
                    SegmentRec { speaker_id: Some(p), ..s }
                } else {
                    s
                },
        ),
        ..t
    }
}

/// One id for each statement of a plan.
pub open spec fn same_id(plan: Seq<Stmt>, id: i64) -> Seq<i64> {
    Seq::new(plan.len(), |i: int| id)
}

/// Executing one statement more.
proof fn lemma_run_one_more(t: Tables, plan: Seq<Stmt>, stmt: Stmt, id: i64)
    ensures
        run(t, plan.push(stmt), same_id(plan.push(stmt), id)) == match run(
            t,
            plan,
            same_id(plan, id),
        ) {
            Some(u) => crate::store::effect(u, stmt, id),
            None => None,
        },
{
    lemma_run_push(t, plan, same_id(plan, id), stmt, id);
    assert(same_id(plan.push(stmt), id) =~= same_id(plan, id).push(id));
}

/// Attaching a speaker that is there does what `attached` says.
pub proof fn law_attaching_labels_the_cluster_and_its_segments(
    t: Tables,
    plan: Seq<Stmt>,
    u: Tables,
    cluster_id: i64,
    speaker: SpeakerRef,
    id: i64,
)
    requires
        run(t, plan, same_id(plan, id)) == Some(u),
        u.clusters.dom().contains(cluster_id),
        u.speakers.dom().contains(crate::store::speaker_id(speaker, id)),
    ensures
        ({
            let whole = plan + attach_plan(cluster_id, speaker);
            run(t, whole, same_id(whole, id)) == Some(
                attached(u, cluster_id, crate::store::speaker_id(speaker, id)),
            )
        }),
{
    let p = crate::store::speaker_id(speaker, id);
    let first = Stmt::LabelCluster { cluster_id, speaker };
    let second = Stmt::LabelSegments { cluster_id, speaker };
    lemma_run_one_more(t, plan, first, id);
    lemma_run_one_more(t, plan.push(first), second, id);
    assert(plan + attach_plan(cluster_id, speaker) =~= plan.push(first).push(second));
    let w = crate::store::effect(u, first, id).unwrap();
    assert(w.segments == u.segments);
    let done = attached(u, cluster_id, p);
    if u.cluster_in_use(cluster_id) {
        assert(w.cluster_in_use(cluster_id));
        let x = crate::store::effect(w, second, id).unwrap();
        assert(x.segments =~= done.segments);
        assert(x =~= done);
    } else {
        assert(!w.cluster_in_use(cluster_id));
        assert forall|s: i64| #[trigger] w.segments.dom().contains(s) implies done.segments[s]
            == w.segments[s] by {
            assert(w.segments[s].cluster_id != Some(cluster_id));
        }
        assert(w.segments =~= done.segments);
        assert(w =~= done);
    }
}

/// A voice named as a new speaker: the speaker is added, with the voice's embedding and one
/// sample, and the cluster and all its segments become the speaker's.
pub proof fn law_confirming_a_new_speaker(
    t: Tables,
    cluster_id: i64,
    embedding: Seq<u8>,
    decision: Decision,
    facts: DecisionFacts,
    now: Seq<char>,
    id: i64,
)
    requires
        decision is New,
        t.clusters.dom().contains(cluster_id),
        !t.speakers.dom().contains(id),
    ensures
        ({
            let plan = confirm_plan(cluster_id, embedding, decision, facts, now).unwrap();
            let named = Tables {
                speakers: t.speakers.insert(
                    id,
                    SpeakerRec {
                        name: decision->name@,
                        embedding: encoded(decoded(embedding)),
                        sample_count: 1,
                        created_at: now,
                        is_self: false,
                    },
                ),
                ..t
            };
            run(t, plan, same_id(plan, id)) == Some(attached(named, cluster_id, id))
        }),
{
    let first = Stmt::InsertSpeaker {
        name: decision->name@,
        embedding: encoded(decoded(embedding)),
        created_at: now,
        is_self: false,
    };
    let none = Seq::<Stmt>::empty();
    lemma_run_one_more(t, none, first, id);
    assert(none.push(first) =~= seq![first]);
    let named = crate::store::effect(t, first, id).unwrap();
    law_attaching_labels_the_cluster_and_its_segments(
        t,
        seq![first],
        named,
        cluster_id,
        SpeakerRef::JustInserted,
        id,
    );
}

/// A voice named as a known speaker: the speaker's embedding becomes the folded one, with one
/// sample more, and the cluster and all its segments become the speaker's.
pub proof fn law_confirming_a_known_speaker(
    t: Tables,
    cluster_id: i64,
    embedding: Seq<u8>,
    decision: Decision,
    facts: DecisionFacts,
    now: Seq<char>,
    id: i64,
)
    requires
        decision is Existing,
        t.clusters.dom().contains(cluster_id),
        t.speakers.dom().contains(decision->speaker_id),
        facts.folded is Some,
    ensures
        ({
            let plan = confirm_plan(cluster_id, embedding, decision, facts, now).unwrap();
            let p = decision->speaker_id;
            let folded = Tables {
                speakers: t.speakers.insert(
                    p,
                    SpeakerRec {
                        embedding: encoded(facts.folded.unwrap()@),
                        sample_count: t.speakers[p].sample_count + 1,
                        ..t.speakers[p]
                    },
                ),
                ..t
            };
            run(t, plan, same_id(plan, id)) == Some(attached(folded, cluster_id, p))
        }),
{
    let p = decision->speaker_id;
    let first = Stmt::FoldIntoSpeaker {
        speaker_id: p,
        embedding: encoded(facts.folded.unwrap()@),
    };
    let none = Seq::<Stmt>::empty();
    lemma_run_one_more(t, none, first, id);
    assert(none.push(first) =~= seq![first]);
    let folded = crate::store::effect(t, first, id).unwrap();
    law_attaching_labels_the_cluster_and_its_segments(
        t,
        seq![first],
        folded,
        cluster_id,
        SpeakerRef::Id(p),
        id,
    );
}

/// A voice merged into a cluster that has a speaker: the cluster and all its segments become
/// that speaker's.
pub proof fn law_merging_into_a_named_cluster(
    t: Tables,
    cluster_id: i64,
    embedding: Seq<u8>,
    decision: Decision,
    facts: DecisionFacts,
    now: Seq<char>,
    id: i64,
)
    requires
        t.consistent(),
        decision is Merge,
        t.clusters.dom().contains(cluster_id),
        t.clusters.dom().contains(decision->into_cluster_id),
        t.clusters[decision->into_cluster_id].speaker_id == facts.into_speaker,
        facts.into_speaker is Some,
    ensures
        ({
            let plan = confirm_plan(cluster_id, embedding, decision, facts, now).unwrap();
            run(t, plan, same_id(plan, id)) == Some(
                attached(t, cluster_id, facts.into_speaker.unwrap()),
            )
        }),
{
    let p = facts.into_speaker.unwrap();
    let none = Seq::<Stmt>::empty();
    assert(t.cluster_is_sound(t.clusters[decision->into_cluster_id]));
    law_attaching_labels_the_cluster_and_its_segments(
        t,
        none,
        t,
        cluster_id,
        SpeakerRef::Id(p),
        id,
    );
    assert(none + attach_plan(cluster_id, SpeakerRef::Id(p)) =~= attach_plan(
        cluster_id,
        SpeakerRef::Id(p),
    ));
}

/// A voice merged into another cluster that has no speaker: its segments move there, all of
/// them and unchanged otherwise, and the cluster is gone.
pub proof fn law_merging_into_an_unnamed_cluster(
    t: Tables,
    cluster_id: i64,
    embedding: Seq<u8>,
    decision: Decision,
    facts: DecisionFacts,
    now: Seq<char>,
    id: i64,
)
    requires
        decision is Merge,
        facts.into_speaker is None,
        t.clusters.dom().contains(decision->into_cluster_id),
        decision->into_cluster_id != cluster_id,
    ensures
        ({
            let plan = confirm_plan(cluster_id, embedding, decision, facts, now).unwrap();
            run(t, plan, same_id(plan, id)) == Some(
                Tables {
                    clusters: t.clusters.remove(cluster_id),
                    segments: t.segments.map_values(
                        |s: SegmentRec|
                            if s.cluster_id == Some(cluster_id) {
                                SegmentRec { cluster_id: Some(decision->into_cluster_id), ..s }
                            } else {
                                s
                            },
                    ),
                    ..t
                },
            )
        }),
{
    let into = decision->into_cluster_id;
    let first = Stmt::MoveSegments { from: cluster_id, into };
    let second = Stmt::DeleteCluster { cluster_id };
    let none = Seq::<Stmt>::empty();
    lemma_run_one_more(t, none, first, id);
    lemma_run_one_more(t, none.push(first), second, id);
    let plan = confirm_plan(cluster_id, embedding, decision, facts, now).unwrap();
    assert(plan =~= none.push(first).push(second));
    let u = crate::store::effect(t, first, id).unwrap();
    let moved = t.segments.map_values(
        |s: SegmentRec|
            if s.cluster_id == Some(cluster_id) {
                SegmentRec { cluster_id: Some(into), ..s }
            } else {
                s
            },
    );
    if t.cluster_in_use(cluster_id) {
        assert(u.segments =~= moved);
    } else {
        assert forall|s: i64| #[trigger] t.segments.dom().contains(s) implies moved[s]
            == t.segments[s] by {
            assert(t.segments[s].cluster_id != Some(cluster_id));
        }
        assert(u.segments =~= moved);
    }
    assert(!u.cluster_in_use(cluster_id)) by {
        assert forall|s: i64| #[trigger]
            u.segments.dom().contains(s) implies u.segments[s].cluster_id != Some(cluster_id) by {
            assert(t.segments.dom().contains(s));
        }
    }
}

/// Merging a cluster that has segments into itself, while it has no speaker, or into one that is
/// not there fails.
pub proof fn law_merging_into_nothing_fails(
    t: Tables,
    cluster_id: i64,
    embedding: Seq<u8>,
    decision: Decision,
    facts: DecisionFacts,
    now: Seq<char>,
    id: i64,
)
    requires
        decision is Merge,
        facts.into_speaker is None,
        t.clusters.dom().contains(cluster_id),
        t.cluster_in_use(cluster_id),
        decision->into_cluster_id == cluster_id || !t.clusters.dom().contains(
            decision->into_cluster_id,
        ),
    ensures
        ({
            let plan = confirm_plan(cluster_id, embedding, decision, facts, now).unwrap();
            run(t, plan, same_id(plan, id)) is None
        }),
{
    let into = decision->into_cluster_id;
    let first = Stmt::MoveSegments { from: cluster_id, into };
    let second = Stmt::DeleteCluster { cluster_id };
    let none = Seq::<Stmt>::empty();
    lemma_run_one_more(t, none, first, id);
    lemma_run_one_more(t, none.push(first), second, id);
    let plan = confirm_plan(cluster_id, embedding, decision, facts, now).unwrap();
    assert(plan =~= none.push(first).push(second));
    if into == cluster_id {
        let u = crate::store::effect(t, first, id).unwrap();
        let s = choose|s: i64| #[trigger]
            t.segments.dom().contains(s) && t.segments[s].cluster_id == Some(cluster_id);
        assert(u.segments.dom().contains(s) && u.segments[s].cluster_id == Some(cluster_id));
        assert(u.cluster_in_use(cluster_id));
    }
}

/// A voice discarded as noise: its segments are gone, and no others, and the cluster is gone.
pub proof fn law_discarding_noise(
    t: Tables,
    cluster_id: i64,
    embedding: Seq<u8>,
    decision: Decision,
    facts: DecisionFacts,
    now: Seq<char>,
    id: i64,
)
    requires
        decision is Noise,
    ensures
        ({
            let plan = confirm_plan(cluster_id, embedding, decision, facts, now).unwrap();
            run(t, plan, same_id(plan, id)) == Some(
                Tables {
                    clusters: t.clusters.remove(cluster_id),
                    segments: t.segments.restrict(
                        t.segments.dom().filter(
                            |s: i64| t.segments[s].cluster_id != Some(cluster_id),
                        ),
                    ),
                    ..t
                },
            )
        }),
{
    let first = Stmt::DeleteClusterSegments { cluster_id };
    let second = Stmt::DeleteCluster { cluster_id };
    let none = Seq::<Stmt>::empty();
    lemma_run_one_more(t, none, first, id);
    lemma_run_one_more(t, none.push(first), second, id);
    let plan = confirm_plan(cluster_id, embedding, decision, facts, now).unwrap();
    assert(plan =~= none.push(first).push(second));
    let u = crate::store::effect(t, first, id).unwrap();
    assert(!u.cluster_in_use(cluster_id));
}

/// The most alike are suggested: as many as there are known speakers with a similarity of 0.55 at
/// least, but five at most; each of them is such a speaker, they come with falling similarity,
/// and nobody who is left out is more alike than one who is suggested, or equally alike and given
/// ahead of them. The result gives those who are left out although they are alike enough.
pub proof fn law_the_most_alike_are_suggested(candidates: Seq<Suggestion>) -> (rest: Seq<Suggestion>)
    ensures
        ({
            let enough = candidates.filter(
                |c: Suggestion| 0x3f0c_cccd <= c.similarity && c.similarity <= 0x7f80_0000,
            );
            let r = suggestions(candidates);
            &&& r.len() == if enough.len() < 5 {
                enough.len() as int
            } else {
                5
            }
            &&& r.to_multiset().add(rest.to_multiset()) == enough.to_multiset()
            &&& forall|i: int|
                0 <= i < r.len() ==> candidates.contains(#[trigger] r[i]) && 0x3f0c_cccd
                    <= r[i].similarity <= 0x7f80_0000
            &&& forall|i: int, j: int|
                #![trigger r[i], r[j]]
                0 <= i < j < r.len() ==> r[i].similarity >= r[j].similarity
            &&& forall|i: int, j: int|
                #![trigger r[i], rest[j]]
                0 <= i < r.len() && 0 <= j < rest.len() ==> r[i].similarity >= rest[j].similarity
            &&& forall|x: Suggestion| #[trigger] ties_with(r + rest, x) == ties_with(enough, x)
        }),
{
    broadcast use vstd::seq_lib::group_to_multiset_ensures;

    let wanted = |c: Suggestion| 0x3f0c_cccd <= c.similarity && c.similarity <= 0x7f80_0000;
    let keep = |c: Suggestion| alike(c.similarity);
    assert(wanted =~= keep);
    let enough = candidates.filter(keep);
    let all = sorted(enough);
    law_sorted_is_a_rearrangement(enough);
    law_sorted_is_in_order(enough);
    let r = suggestions(candidates);
    let n = if all.len() < 5 {
        all.len() as int
    } else {
        5
    };
    let rest = all.skip(n);
    assert(r =~= all.take(n));
    assert(all =~= r + rest);
    vstd::seq_lib::lemma_multiset_commutative(r, rest);
    assert forall|i: int| 0 <= i < r.len() implies candidates.contains(#[trigger] r[i])
        && 0x3f0c_cccd <= r[i].similarity <= 0x7f80_0000 by {
        assert(all.contains(all[i]));
        assert(enough.to_multiset().count(r[i]) > 0);
        assert(enough.contains(r[i]));
        let k = choose|k: int| 0 <= k < enough.len() && enough[k] == r[i];
        candidates.lemma_filter_contains_rev(keep, r[i]);
        candidates.lemma_filter_pred(keep, k);
    }
    assert forall|i: int, j: int|
        #![trigger r[i], r[j]]
        0 <= i < j < r.len() implies r[i].similarity >= r[j].similarity by {
        assert(!all[j].before(&all[i]));
    }
    assert forall|i: int, j: int|
        #![trigger r[i], rest[j]]
        0 <= i < r.len() && 0 <= j < rest.len() implies r[i].similarity >= rest[j].similarity by {
        assert(!all[n + j].before(&all[i]));
    }
    assert forall|x: Suggestion| #[trigger] ties_with(r + rest, x) == ties_with(enough, x) by {
        law_sorting_keeps_ties_in_order(enough, x);
    }
    rest
}

/// The length of a text that counts ends with the text or ahead of its first NUL.
pub proof fn law_a_text_counts_up_to_nul(s: Seq<char>)
    ensures
        length_to_nul(s) <= s.len(),
        forall|i: int| 0 <= i < length_to_nul(s) ==> #[trigger] s[i] != '\0',
        length_to_nul(s) < s.len() ==> s[length_to_nul(s) as int] == '\0',
    decreases s.len(),
{
    if s.len() > 0 && s.first() != '\0' {
        let t = s.drop_first();
        law_a_text_counts_up_to_nul(t);
        assert forall|i: int| 0 <= i < length_to_nul(s) implies #[trigger] s[i] != '\0' by {
            if i > 0 {
                assert(t[i - 1] == s[i]);
            }
        }
        if length_to_nul(t) < t.len() {
            assert(t[length_to_nul(t) as int] == s[length_to_nul(s) as int]);
        }
    }
}

/// The snippets of a voice are taken from what it said for two to twelve seconds with more than
/// twelve characters of text: five of these, or all where there are fewer, in the order of their
/// starts and spread evenly over them from the first on, each with its own times and its whole
/// text but for white space at the ends. The result gives what they are taken from, in order, and
/// the position in that of each snippet.
pub proof fn law_snippets_are_spread_over_what_was_said(r: Seq<Snippet>, segments: Seq<Snippet>) ->
    (from: (Seq<Snippet>, Seq<int>))
    requires
        are_picks(r, segments),
    ensures
        ({
            let good = segments.filter(
                |s: Snippet|
                    2_000_000_000 <= s.end_ns - s.start_ns && s.end_ns - s.start_ns
                        <= 12_000_000_000 && length_to_nul(s.text@) > 12,
            );
            let (all, p) = from;
            &&& all.to_multiset() == good.to_multiset()
            &&& all.len() == good.len()
            &&& forall|i: int, j: int|
                #![trigger all[i], all[j]]
                0 <= i < j < all.len() ==> all[i].start_ns <= all[j].start_ns
            &&& forall|x: Snippet| #[trigger] ties_with(all, x) == ties_with(good, x)
            &&& r.len() == p.len() == if good.len() < 5 {
                good.len() as int
            } else {
                5
            }
            &&& ascending(p)
            &&& p.len() > 0 ==> p[0] == 0
            &&& forall|i: int|
                0 <= i < r.len() ==> {
                    let q = #[trigger] p[i];
                    &&& 0 <= q < all.len()
                    &&& q * r.len() <= i * all.len() < (q + 1) * r.len()
                    &&& r[i].start_ns == all[q].start_ns
                    &&& r[i].end_ns == all[q].end_ns
                    &&& r[i].text@ == trimmed(all[q].text@)
                }
        }),
{
    let wanted = |s: Snippet|
        2_000_000_000 <= s.end_ns - s.start_ns && s.end_ns - s.start_ns <= 12_000_000_000
            && length_to_nul(s.text@) > 12;
    let keep = |s: Snippet| presentable(s);
    assert(wanted =~= keep);
    let good = segments.filter(keep);
    let all = sorted(good);
    law_sorted_is_a_rearrangement(good);
    law_sorted_is_in_order(good);
    let n = all.len() as int;
    let want = if n < 5 {
        n
    } else {
        5
    };
    let p = Seq::new(want as nat, |i: int| i * n / want);
    assert forall|i: int, j: int| #![trigger all[i], all[j]] 0 <= i < j < n implies all[i].start_ns
        <= all[j].start_ns by {
        assert(!all[j].before(&all[i]));
    }
    assert forall|x: Snippet| #[trigger] ties_with(all, x) == ties_with(good, x) by {
        law_sorting_keeps_ties_in_order(good, x);
    }
    assert forall|i: int| 0 <= i < want implies {
        let q = #[trigger] p[i];
        &&& 0 <= q < n
        &&& q * want <= i * n < (q + 1) * want
        &&& r[i].start_ns == all[q].start_ns
        &&& r[i].end_ns == all[q].end_ns
        &&& r[i].text@ == trimmed(all[q].text@)
    } by {
        let q = p[i];
        lemma_spread_in_range(i, n, want);
        assert(q * want <= i * n < (q + 1) * want) by (nonlinear_arith)
            requires
                q == i * n / want,
                want > 0,
        ;
        assert(shows(r[i], all[spread(i, n, want)]));
    }
    assert forall|i: int, j: int| 0 <= i < j < p.len() implies p[i] < p[j] by {
        assert(i * n / want < j * n / want) by (nonlinear_arith)
            requires
                0 <= i < j,
                0 < want <= n,
        ;
    }
    if want > 0 {
        assert(0 * n / want == 0) by (nonlinear_arith)
            requires
                want > 0,
        ;
    }
    (all, p)
}

/// Where a cluster is attached to a speaker, the cluster and each of its segments are that
/// speaker's, and otherwise as they were; no other row changes, and none comes or goes.
pub proof fn law_attaching_changes_only_whose_they_are(t: Tables, cluster_id: i64, p: i64)
    requires
        t.clusters.dom().contains(cluster_id),
    ensures
        ({
            let u = attached(t, cluster_id, p);
            &&& u.clusters.dom() == t.clusters.dom()
            &&& u.segments.dom() == t.segments.dom()
            &&& u.clusters[cluster_id].speaker_id == Some(p)
            &&& u.clusters[cluster_id].recording_id == t.clusters[cluster_id].recording_id
            &&& u.clusters[cluster_id].local_id == t.clusters[cluster_id].local_id
            &&& u.clusters[cluster_id].embedding == t.clusters[cluster_id].embedding
            &&& forall|c: i64| #[trigger]
                t.clusters.dom().contains(c) && c != cluster_id ==> u.clusters[c] == t.clusters[c]
            &&& forall|s: i64| #[trigger]
                t.segments.dom().contains(s) ==> {
                    let x = t.segments[s];
                    let y = u.segments[s];
                    &&& x.cluster_id == Some(cluster_id) ==> y.speaker_id == Some(p)
                    &&& x.cluster_id != Some(cluster_id) ==> y.speaker_id == x.speaker_id
                    &&& y.recording_id == x.recording_id
                    &&& y.cluster_id == x.cluster_id
                    &&& y.start_ns == x.start_ns
                    &&& y.end_ns == x.end_ns
                    &&& y.text == x.text
                    &&& y.confidence == x.confidence
                }
            &&& u.recordings == t.recordings
            &&& u.speakers == t.speakers
            &&& u.summary_chunks == t.summary_chunks
            &&& u.rolling_summaries == t.rolling_summaries
            &&& u.summaries == t.summaries
            &&& u.settings == t.settings
        }),
{
    let u = attached(t, cluster_id, p);
    assert(u.clusters.dom() =~= t.clusters.dom());
    assert(u.segments.dom() =~= t.segments.dom());
}

} // verus!
