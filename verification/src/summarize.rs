//! Summaries: how a transcript is cut into chunks, what the language model is asked, and what
//! is kept of its replies.

use vstd::prelude::*;
use vstd::slice::slice_subrange;
use vstd::string::*;

use crate::order::{lemma_text_order, text_before, text_precedes};
use crate::store::{
    effect, lemma_run_push, run, RollingRec, SegmentRow, Statement, Stmt, SummaryChunkRec,
    SummaryRec, Tables,
};
use crate::text::{
    chars_of, concat2, concat3, is_white, join, joined, law_joining_keeps_every_part, opt_text,
    part_offset, same, string_of, texts, trim, trimmed,
};

verus! {

/// How long a chunk is meant to be, in nanoseconds: five minutes.
pub const ROLLING_CHUNK_NS: i64 = 300_000_000_000;

/// How long a chunk may become while nobody pauses, in nanoseconds: half as long again.
pub const MAX_CHUNK_NS: i64 = ROLLING_CHUNK_NS + 150_000_000_000;

/// A pause is longer than this, in nanoseconds.
pub const PAUSE_NS: i64 = 1_000_000_000;

/// A run of segments that is summarised together.
#[derive(Debug, Clone, Copy, PartialEq, Eq, Structural)]
pub struct Chunk {
    /// When its first segment starts.
    pub start_ns: i64,
    /// When its last segment ends.
    pub end_ns: i64,
    /// The position of its first segment.
    pub from: usize,
    /// The position behind its last segment.
    pub to: usize,
}

/// Whether a chunk that begins with segment `from` ends before segment `i`: at any pause, so that
/// no sentence is cut in two, and without a pause once it is as long as a chunk may become.
pub open spec fn cuts(s: Seq<SegmentRow>, from: int, i: int) -> bool {
    let elapsed = s[i].start_ns - s[from].start_ns;
    let gap = s[i].start_ns - s[i - 1].end_ns;
    gap > PAUSE_NS || elapsed >= MAX_CHUNK_NS
}

/// The positions of the segments with which chunks begin.
pub open spec fn chunk_starts(s: Seq<SegmentRow>) -> Seq<int>
    decreases s.len(),
{
    if s.len() == 0 {
        Seq::<int>::empty()
    } else if s.len() == 1 {
        seq![0int]
    } else {
        let front = chunk_starts(s.drop_last());
        if cuts(s, front.last(), s.len() - 1) {
            front.push(s.len() - 1)
        } else {
            front
        }
    }
}

/// Where the chunk ends that begins at `starts[j]`, among `n` segments.
pub open spec fn chunk_end(starts: Seq<int>, j: int, n: int) -> int {
    if j + 1 < starts.len() {
        starts[j + 1]
    } else {
        n
    }
}

/// The chunks of a transcript, in order.
pub open spec fn chunks_of(s: Seq<SegmentRow>) -> Seq<Chunk> {
    let starts = chunk_starts(s);
    Seq::new(
        starts.len(),
        |j: int|
            Chunk {
                start_ns: s[starts[j]].start_ns,
                end_ns: s[chunk_end(starts, j, s.len() as int) - 1].end_ns,
                from: starts[j] as usize,
                to: chunk_end(starts, j, s.len() as int) as usize,
            },
    )
}

/// The chunk starts rise, from the first segment, and are positions of segments.
proof fn lemma_chunk_starts(s: Seq<SegmentRow>)
    requires
        s.len() > 0,
    ensures
        chunk_starts(s).len() > 0,
        chunk_starts(s)[0] == 0,
        forall|j: int|
            0 <= j < chunk_starts(s).len() ==> 0 <= #[trigger] chunk_starts(s)[j] < s.len(),
        forall|j: int, k: int|
            0 <= j < k < chunk_starts(s).len() ==> chunk_starts(s)[j] < chunk_starts(s)[k],
    decreases s.len(),
{
    if s.len() > 1 {
        lemma_chunk_starts(s.drop_last());
    }
}

/// Cutting depends on nothing behind the place of the cut.
proof fn lemma_cuts_prefix(s: Seq<SegmentRow>, n: int, from: int, i: int)
    requires
        0 <= from < i < n <= s.len(),
    ensures
        cuts(s.take(n), from, i) == cuts(s, from, i),
{
}

/// Cuts a transcript into chunks.
pub fn group_into_chunks(segments: &Vec<SegmentRow>) -> (r: Vec<Chunk>)
    ensures
        r@ == chunks_of(segments@),
{
    let mut out: Vec<Chunk> = Vec::new();
    let n: usize = segments.len();
    if n == 0 {
        assert(out@ =~= chunks_of(segments@));
        return out;
    }
    let ghost s = segments@;
    let mut from: usize = 0;
    let mut i: usize = 1;
    assert(chunk_starts(s.take(1)) =~= seq![0int]);
    while i < n
        invariant
            1 <= i <= n == segments@.len(),
            s == segments@,
            from < i,
            ({
                let starts = chunk_starts(s.take(i as int));
                &&& starts.len() == out@.len() + 1
                &&& starts.last() == from
                &&& forall|j: int|
                    0 <= j < out@.len() ==> 0 <= #[trigger] starts[j] < starts[j + 1] <= from
                &&& forall|j: int|
                    0 <= j < out@.len() ==> #[trigger] out@[j] == (Chunk {
                        start_ns: s[starts[j]].start_ns,
                        end_ns: s[starts[j + 1] - 1].end_ns,
                        from: starts[j] as usize,
                        to: starts[j + 1] as usize,
                    })
            }),
        decreases n - i,
    {
        let ghost starts = chunk_starts(s.take(i as int));
        let elapsed: i128 = segments[i].start_ns as i128 - segments[from].start_ns as i128;
        let gap: i128 = segments[i].start_ns as i128 - segments[i - 1].end_ns as i128;
        proof {
            assert(s.take(i + 1).drop_last() =~= s.take(i as int));
            lemma_cuts_prefix(s, i + 1, from as int, i as int);
        }
        if gap > PAUSE_NS as i128 || elapsed >= MAX_CHUNK_NS as i128 {
            let ghost before = out@;
            out.push(
                Chunk {
                    start_ns: segments[from].start_ns,
                    end_ns: segments[i - 1].end_ns,
                    from,
                    to: i,
                },
            );
            from = i;
            proof {
                let more = chunk_starts(s.take(i + 1));
                assert(more == starts.push(i as int));
                assert forall|j: int| 0 <= j < out@.len() implies 0 <= #[trigger] more[j] < more[j
                    + 1] <= from by {
                    if j < before.len() {
                        assert(more[j] == starts[j] && more[j + 1] == starts[j + 1]);
                    } else {
                        assert(more[j] == starts[j]);
                    }
                }
                assert forall|j: int| 0 <= j < out@.len() implies #[trigger] out@[j] == (Chunk {
                    start_ns: s[more[j]].start_ns,
                    end_ns: s[more[j + 1] - 1].end_ns,
                    from: more[j] as usize,
                    to: more[j + 1] as usize,
                }) by {
                    if j < before.len() {
                        assert(out@[j] == before[j]);
                        assert(more[j] == starts[j] && more[j + 1] == starts[j + 1]);
                    } else {
                        assert(more[j] == starts[j]);
                    }
                }
            }
        }
        i = i + 1;
    }
    assert(s.take(n as int) =~= s);
    out.push(
        Chunk {
            start_ns: segments[from].start_ns,
            end_ns: segments[n - 1].end_ns,
            from,
            to: n,
        },
    );
    assert(out@ =~= chunks_of(s));
    out
}

/// The chunks are runs of segments that follow on one another from the first segment to the
/// last: every segment is in one chunk, and no chunk is empty.
pub proof fn law_chunks_partition_the_transcript(s: Seq<SegmentRow>)
    requires
        s.len() <= usize::MAX,
    ensures
        s.len() == 0 ==> chunks_of(s).len() == 0,
        s.len() > 0 ==> chunks_of(s).len() > 0 && chunks_of(s)[0].from == 0
            && chunks_of(s).last().to == s.len(),
        forall|j: int|
            0 <= j < chunks_of(s).len() ==> (#[trigger] chunks_of(s)[j]).from < chunks_of(s)[j].to
                <= s.len(),
        forall|j: int|
            0 <= j < chunks_of(s).len() - 1 ==> (#[trigger] chunks_of(s)[j]).to == chunks_of(s)[j
                + 1].from,
{
    if s.len() > 0 {
        lemma_chunk_starts(s);
        let starts = chunk_starts(s);
        assert forall|j: int| 0 <= j < starts.len() implies starts[j] < #[trigger] chunk_end(
            starts,
            j,
            s.len() as int,
        ) <= s.len() by {
            if j + 1 < starts.len() {
                assert(starts[j] < starts[j + 1]);
            }
        }
    }
}

/// A cut is made exactly where `cuts` says so: within a chunk nothing cuts, and behind it
/// something does.
proof fn lemma_cuts_at_chunk_ends(s: Seq<SegmentRow>, j: int, i: int)
    requires
        0 <= j < chunk_starts(s).len(),
        chunk_starts(s)[j] < i < s.len(),
        i <= chunk_end(chunk_starts(s), j, s.len() as int),
    ensures
        cuts(s, chunk_starts(s)[j], i) == (i == chunk_end(chunk_starts(s), j, s.len() as int)),
    decreases s.len(),
{
    let n = s.len() as int;
    lemma_chunk_starts(s);
    let front = s.drop_last();
    assert(front =~= s.take(n - 1));
    lemma_chunk_starts(front);
    let before = chunk_starts(front);
    let starts = chunk_starts(s);
    if i == n - 1 {
        if j < before.len() - 1 {
            assert(starts[j + 1] == before[j + 1]);
            assert(before[j + 1] < n - 1);
        } else {
            assert(j == before.len() - 1);
            assert(starts[j] == before.last());
        }
    } else {
        if j >= before.len() {
            assert(starts[j] == n - 1);
        }
        assert(starts[j] == before[j]);
        lemma_cuts_at_chunk_ends(front, j, i);
        lemma_cuts_prefix(s, n - 1, starts[j], i);
        if j + 1 < before.len() {
            assert(starts[j + 1] == before[j + 1]);
        }
    }
}

/// A chunk ends at the first pause, or where it would become longer than a chunk may: within it
/// nobody pauses and all segments start within seven and a half minutes of its start, and the
/// segment behind it follows a pause or starts later than that.
pub proof fn law_chunks_end_at_pauses(s: Seq<SegmentRow>)
    requires
        s.len() <= usize::MAX,
    ensures
        forall|j: int, i: int|
            0 <= j < chunks_of(s).len() && (#[trigger] chunks_of(s)[j]).from < i
                < chunks_of(s)[j].to ==> (#[trigger] s[i]).start_ns - s[i - 1].end_ns <= PAUSE_NS
                && s[i].start_ns - chunks_of(s)[j].start_ns < MAX_CHUNK_NS,
        forall|j: int|
            0 <= j < chunks_of(s).len() - 1 ==> {
                let c = #[trigger] chunks_of(s)[j];
                s[c.to as int].start_ns - c.end_ns > PAUSE_NS || s[c.to as int].start_ns
                    - c.start_ns >= MAX_CHUNK_NS
            },
{
    if s.len() > 0 {
        lemma_chunk_starts(s);
        let starts = chunk_starts(s);
        assert forall|j: int, i: int|
            0 <= j < chunks_of(s).len() && (#[trigger] chunks_of(s)[j]).from < i
                < chunks_of(s)[j].to implies (#[trigger] s[i]).start_ns - s[i - 1].end_ns
            <= PAUSE_NS && s[i].start_ns - chunks_of(s)[j].start_ns < MAX_CHUNK_NS by {
            if j + 1 < starts.len() {
                assert(starts[j] < starts[j + 1]);
            }
            lemma_cuts_at_chunk_ends(s, j, i);
        }
        assert forall|j: int| 0 <= j < chunks_of(s).len() - 1 implies {
            let c = #[trigger] chunks_of(s)[j];
            s[c.to as int].start_ns - c.end_ns > PAUSE_NS || s[c.to as int].start_ns - c.start_ns
                >= MAX_CHUNK_NS
        } by {
            assert(starts[j] < starts[j + 1]);
            lemma_cuts_at_chunk_ends(s, j, starts[j + 1]);
        }
    }
}

/// A line of a transcript: who speaks, and what.
pub open spec fn line(s: SegmentRow) -> Seq<char> {
    let speaker = match s.speaker_name {
        Some(name) => name@,
        None => "Unknown"@,
    };
    speaker + ": "@ + trimmed(s.text@) + "\n"@
}

/// The lines of segments, in order.
pub open spec fn lines(s: Seq<SegmentRow>) -> Seq<char>
    decreases s.len(),
{
    if s.len() == 0 {
        Seq::<char>::empty()
    } else {
        lines(s.drop_last()) + line(s.last())
    }
}

/// The lines of segments, for a prompt.
pub fn format_segments_for_prompt(segs: &[SegmentRow]) -> (r: String)
    ensures
        r@ == lines(segs@),
{
    let mut buf = String::new();
    let mut i: usize = 0;
    while i < segs.len()
        invariant
            i <= segs@.len(),
            buf@ == lines(segs@.take(i as int)),
        decreases segs@.len() - i,
    {
        assert(segs@.take(i + 1).drop_last() =~= segs@.take(i as int));
        let ghost before = buf@;
        match &segs[i].speaker_name {
            Some(name) => {
                buf.append(name.as_str());
            },
            None => {
                buf.append("Unknown");
            },
        }
        buf.append(": ");
        let text = trim(segs[i].text.as_str());
        buf.append(text.as_str());
        buf.append("\n");
        assert(buf@ =~= before + line(segs@[i as int]));
        i = i + 1;
    }
    assert(segs@.take(segs@.len() as int) =~= segs@);
    buf
}

/// The question for the bullet points of a chunk.
pub open spec fn chunk_question(speaker_lines: Seq<char>) -> Seq<char> {
    "You are summarising part of a meeting transcript. Output 3-6 bullet points covering the key decisions, action items, and topics discussed.\n\nTranscript:\n"@
        + speaker_lines + "\n\nSummary (bullets, no preamble):"@
}

/// The question for the bullet points of a chunk.
pub fn chunk_prompt(speaker_lines: &str) -> (r: String)
    ensures
        r@ == chunk_question(speaker_lines@),
{
    concat3(
        "You are summarising part of a meeting transcript. Output 3-6 bullet points covering the key decisions, action items, and topics discussed.\n\nTranscript:\n",
        speaker_lines,
        "\n\nSummary (bullets, no preamble):",
    )
}

/// The question for the running summary.
pub open spec fn rolling_question(previous: Seq<char>, new_bullets: Seq<char>) -> Seq<char> {
    "You maintain a running summary of a meeting. Update the running summary by integrating new bullets. Stay concise; don't repeat.\n\nCurrent running summary:\n"@
        + previous + "\n\nNew bullets to integrate:\n"@ + new_bullets
        + "\n\nUpdated running summary:"@
}

/// The question for the running summary.
pub fn rolling_prompt(previous: &str, new_bullets: &str) -> (r: String)
    ensures
        r@ == rolling_question(previous@, new_bullets@),
{
    let mut r = concat3(
        "You maintain a running summary of a meeting. Update the running summary by integrating new bullets. Stay concise; don't repeat.\n\nCurrent running summary:\n",
        previous,
        "\n\nNew bullets to integrate:\n",
    );
    r.append(new_bullets);
    r.append("\n\nUpdated running summary:");
    r
}

/// The question for the final summary.
pub open spec fn final_question(all_bullets: Seq<char>, speakers: Seq<Seq<char>>) -> Seq<char> {
    "Below are bullet-point summaries of consecutive segments of a meeting with participants: "@
        + joined(speakers, ", "@)
        + ". Produce a clean final summary with these sections in Markdown: Overview, Decisions, Action items (with owner where stated), Open questions.\n\nSegment bullets:\n"@
        + all_bullets + "\n\nFinal summary:"@
}

/// The question for the final summary.
pub fn final_prompt(all_bullets: &str, speakers: &Vec<String>) -> (r: String)
    ensures
        r@ == final_question(all_bullets@, texts(speakers@)),
{
    let participants = join(speakers, ", ");
    let mut r = concat3(
        "Below are bullet-point summaries of consecutive segments of a meeting with participants: ",
        participants.as_str(),
        ". Produce a clean final summary with these sections in Markdown: Overview, Decisions, Action items (with owner where stated), Open questions.\n\nSegment bullets:\n",
    );
    r.append(all_bullets);
    r.append("\n\nFinal summary:");
    r
}

/// `list`, which is in order and names nobody twice, with `name` put in its place unless it is
/// there.
pub open spec fn with_name(list: Seq<Seq<char>>, name: Seq<char>) -> Seq<Seq<char>>
    decreases list.len(),
{
    if list.len() == 0 || text_before(list.last(), name) {
        list.push(name)
    } else if list.last() == name {
        list
    } else {
        with_name(list.drop_last(), name).push(list.last())
    }
}

/// The names of the speakers of a transcript, in order, each once.
pub open spec fn participants(s: Seq<SegmentRow>) -> Seq<Seq<char>>
    decreases s.len(),
{
    if s.len() == 0 {
        Seq::<Seq<char>>::empty()
    } else {
        match s.last().speaker_name {
            Some(name) => with_name(participants(s.drop_last()), name@),
            None => participants(s.drop_last()),
        }
    }
}

proof fn lemma_with_name_at(list: Seq<Seq<char>>, name: Seq<char>, at: int)
    requires
        0 <= at <= list.len(),
        at == 0 || text_before(list[at - 1], name),
        forall|k: int|
            at <= k < list.len() ==> !text_before(#[trigger] list[k], name) && list[k] != name,
    ensures
        with_name(list, name) == list.insert(at, name),
    decreases list.len(),
{
    if at == list.len() {
        assert(list.insert(at, name) =~= list.push(name));
    } else {
        lemma_with_name_at(list.drop_last(), name, at);
        assert(list.insert(at, name) =~= list.drop_last().insert(at, name).push(list.last()));
    }
}

proof fn lemma_with_name_there(list: Seq<Seq<char>>, name: Seq<char>, at: int)
    requires
        0 <= at < list.len(),
        list[at] == name,
        forall|k: int|
            at < k < list.len() ==> !text_before(#[trigger] list[k], name) && list[k] != name,
    ensures
        with_name(list, name) == list,
    decreases list.len(),
{
    lemma_text_order(name, name, name);
    if at < list.len() - 1 {
        lemma_with_name_there(list.drop_last(), name, at);
        assert(list.drop_last().push(list.last()) =~= list);
    }
}

/// Puts a name in its place in a list, unless it is there.
fn add_name(list: &mut Vec<String>, name: &String)
    ensures
        texts(final(list)@) == with_name(texts(old(list)@), name@),
{
    let ghost before = texts(list@);
    let mut at: usize = list.len();
    while at > 0 && !text_precedes(list[at - 1].as_str(), name.as_str())
        invariant
            at <= list@.len(),
            texts(list@) == before,
            forall|k: int|
                at <= k < before.len() ==> !text_before(#[trigger] before[k], name@) && before[k]
                    != name@,
        decreases at,
    {
        if same(list[at - 1].as_str(), name.as_str()) {
            proof {
                lemma_with_name_there(before, name@, at - 1);
            }
            return ;
        }
        at = at - 1;
    }
    proof {
        lemma_with_name_at(before, name@, at as int);
    }
    list.insert(at, name.clone());
    assert(texts(list@) =~= before.insert(at as int, name@));
}

/// The names of the speakers of a transcript, in order, each once.
pub fn participant_names(segments: &Vec<SegmentRow>) -> (r: Vec<String>)
    ensures
        texts(r@) == participants(segments@),
{
    let mut out: Vec<String> = Vec::new();
    let mut i: usize = 0;
    assert(texts(out@) =~= Seq::<Seq<char>>::empty());
    while i < segments.len()
        invariant
            i <= segments@.len(),
            texts(out@) == participants(segments@.take(i as int)),
        decreases segments@.len() - i,
    {
        assert(segments@.take(i + 1).drop_last() =~= segments@.take(i as int));
        match &segments[i].speaker_name {
            Some(name) => {
                add_name(&mut out, name);
            },
            None => {},
        }
        i = i + 1;
    }
    assert(segments@.take(segments@.len() as int) =~= segments@);
    out
}

/// Whether each text of the list comes before the next.
pub open spec fn strictly_ordered(list: Seq<Seq<char>>) -> bool {
    forall|i: int, j: int| 0 <= i < j < list.len() ==> text_before(list[i], list[j])
}

proof fn lemma_with_name(list: Seq<Seq<char>>, name: Seq<char>)
    requires
        strictly_ordered(list),
    ensures
        strictly_ordered(with_name(list, name)),
        forall|x: Seq<char>| #[trigger]
            with_name(list, name).contains(x) <==> list.contains(x) || x == name,
    decreases list.len(),
{
    let r = with_name(list, name);
    if list.len() == 0 || text_before(list.last(), name) {
        assert forall|i: int, j: int| 0 <= i < j < r.len() implies text_before(r[i], r[j]) by {
            if j == list.len() && i < list.len() - 1 {
                assert(text_before(list[i], list.last()));
                lemma_text_order(list[i], list.last(), name);
            }
        }
        assert forall|x: Seq<char>| #[trigger] r.contains(x) <==> list.contains(x) || x == name by {
            if list.contains(x) {
                let k = choose|k: int| 0 <= k < list.len() && list[k] == x;
                assert(r[k] == x);
            }
            if x == name {
                assert(r[list.len() as int] == x);
            }
        }
    } else if list.last() == name {
        assert(list[list.len() - 1] == name);
    } else {
        let front = list.drop_last();
        let q = with_name(front, name);
        assert(strictly_ordered(front));
        lemma_with_name(front, name);
        lemma_text_order(list.last(), name, list.last());
        assert forall|i: int, j: int| 0 <= i < j < r.len() implies text_before(r[i], r[j]) by {
            if j == q.len() {
                assert(q.contains(q[i]));
                if front.contains(q[i]) {
                    let k = choose|k: int| 0 <= k < front.len() && front[k] == q[i];
                    assert(text_before(list[k], list[list.len() - 1]));
                }
            }
        }
        assert forall|x: Seq<char>| #[trigger] r.contains(x) <==> list.contains(x) || x == name by {
            if list.contains(x) {
                let k = choose|k: int| 0 <= k < list.len() && list[k] == x;
                if k < front.len() {
                    assert(front[k] == x);
                    assert(front.contains(x));
                    let m = choose|m: int| 0 <= m < q.len() && q[m] == x;
                    assert(q.contains(x));
                    assert(r[m] == x);
                } else {
                    assert(r[q.len() as int] == x);
                }
            }
            if x == name {
                assert(q.contains(x));
                let m = choose|m: int| 0 <= m < q.len() && q[m] == x;
                assert(r[m] == x);
            }
            if r.contains(x) {
                let m = choose|m: int| 0 <= m < r.len() && r[m] == x;
                if m < q.len() {
                    assert(q[m] == x);
                    assert(q.contains(x));
                    if front.contains(x) {
                        let k = choose|k: int| 0 <= k < front.len() && front[k] == x;
                        assert(list[k] == x);
                    }
                } else {
                    assert(list[list.len() - 1] == x);
                }
            }
        }
    }
}

/// The participants are exactly the named speakers of the transcript, in alphabetical order and
/// each once.
pub proof fn law_participants_are_the_named_speakers(s: Seq<SegmentRow>)
    ensures
        strictly_ordered(participants(s)),
        forall|x: Seq<char>| #[trigger]
            participants(s).contains(x) <==> exists|i: int|
                0 <= i < s.len() && opt_text((#[trigger] s[i]).speaker_name) == Some(x),
    decreases s.len(),
{
    if s.len() > 0 {
        let front = s.drop_last();
        law_participants_are_the_named_speakers(front);
        if let Some(name) = s.last().speaker_name {
            lemma_with_name(participants(front), name@);
        }
        assert forall|x: Seq<char>| #[trigger] participants(s).contains(x) <==> exists|i: int|
            0 <= i < s.len() && opt_text((#[trigger] s[i]).speaker_name) == Some(x) by {
            if participants(front).contains(x) {
                let i = choose|i: int|
                    0 <= i < front.len() && opt_text((#[trigger] front[i]).speaker_name) == Some(x);
                assert(s[i] == front[i]);
            }
            if exists|i: int|
                0 <= i < s.len() && opt_text((#[trigger] s[i]).speaker_name) == Some(x) {
                let i = choose|i: int|
                    0 <= i < s.len() && opt_text((#[trigger] s[i]).speaker_name) == Some(x);
                if i < front.len() {
                    assert(front[i] == s[i]);
                    assert(participants(front).contains(x));
                }
            }
            if opt_text(s.last().speaker_name) == Some(x) {
                assert(s[s.len() - 1] == s.last());
            }
        }
    }
}

proof fn lemma_trimmed_not_empty(s: Seq<char>, i: int)
    requires
        0 <= i < s.len(),
        !is_white(s[i]),
    ensures
        trimmed(s).len() > 0,
    decreases s.len(),
{
    if is_white(s.first()) {
        lemma_trimmed_not_empty(s.drop_first(), i - 1);
    } else if is_white(s.last()) {
        lemma_trimmed_not_empty(s.drop_last(), i);
    }
}

/// The lines of at least one segment are never blank, so there is something to summarise in
/// every chunk.
pub proof fn law_lines_are_not_blank(s: Seq<SegmentRow>)
    requires
        s.len() > 0,
    ensures
        trimmed(lines(s)).len() > 0,
{
    reveal_strlit(": ");
    let front = lines(s.drop_last());
    let speaker = match s.last().speaker_name {
        Some(name) => name@,
        None => "Unknown"@,
    };
    let at = (front.len() + speaker.len()) as int;
    assert(lines(s)[at] == ':');
    lemma_trimmed_not_empty(lines(s), at);
}

/// The bullet points of the first `k` chunks among the replies.
pub open spec fn bullets_among(replies: Seq<Seq<char>>, k: int) -> Seq<Seq<char>> {
    Seq::new(k as nat, |i: int| replies[2 * i])
}

/// The bullet points of the first `n` chunks.
fn chunk_bullets(replies: &Vec<String>, n: usize) -> (r: Vec<String>)
    requires
        2 * n <= replies@.len(),
    ensures
        texts(r@) == bullets_among(texts(replies@), n as int),
{
    let mut r: Vec<String> = Vec::new();
    let len: usize = replies.len();
    let mut i: usize = 0;
    while i < n
        invariant
            i <= n,
            2 * n <= replies@.len() == len,
            r@.len() == i,
            forall|j: int| 0 <= j < i ==> (#[trigger] r@[j])@ == replies@[2 * j]@,
        decreases n - i,
    {
        r.push(replies[2 * i].clone());
        i = i + 1;
    }
    assert(texts(r@) =~= bullets_among(texts(replies@), n as int));
    r
}

/// What is asked next, after these replies: for each chunk in turn its bullet points, and then
/// the running summary with them worked in; at the end the final summary of all bullet points;
/// then nothing more. Of a transcript without segments nothing is asked.
pub open spec fn next_question(s: Seq<SegmentRow>, replies: Seq<Seq<char>>) -> Option<Seq<char>> {
    let chunks = chunks_of(s);
    let n = chunks.len() as int;
    let k = replies.len() as int;
    if n == 0 || k > 2 * n {
        None
    } else if k == 2 * n {
        Some(final_question(joined(bullets_among(replies, n), "\n\n"@), participants(s)))
    } else if k % 2 == 0 {
        let c = chunks[k / 2];
        Some(chunk_question(lines(s.subrange(c.from as int, c.to as int))))
    } else {
        let previous = if k == 1 {
            Seq::<char>::empty()
        } else {
            replies[k - 2]
        };
        Some(rolling_question(previous, replies[k - 1]))
    }
}

/// What is stored of a chunk, where `bullets` are its bullet points.
pub open spec fn chunk_rec(
    recording_id: i64,
    c: Chunk,
    bullets: Seq<char>,
    now: Seq<char>,
) -> SummaryChunkRec {
    SummaryChunkRec {
        recording_id,
        start_ns: c.start_ns,
        end_ns: c.end_ns,
        text: bullets,
        generated_at: now,
    }
}

/// The statement that stores the reply of the model which comes, at the time `now`, after `k`
/// others: the bullet points of a chunk are added, the running summary and the final one replace
/// those before.
pub open spec fn saved(
    recording_id: i64,
    model: Seq<char>,
    s: Seq<SegmentRow>,
    k: int,
    reply: Seq<char>,
    now: Seq<char>,
) -> Stmt {
    let chunks = chunks_of(s);
    if k == 2 * chunks.len() {
        Stmt::PutSummary {
            recording_id,
            summary: SummaryRec { text: reply, model, generated_at: now },
        }
    } else if k % 2 == 0 {
        Stmt::InsertSummaryChunk { chunk: chunk_rec(recording_id, chunks[k / 2], reply, now) }
    } else {
        Stmt::PutRollingSummary {
            recording_id,
            rolling: RollingRec {
                text: reply,
                through_ns: chunks[k / 2].end_ns,
                updated_at: now,
            },
        }
    }
}

/// A summary of a recording in the making: its transcript, and the replies of the language model
/// so far.
#[derive(Debug)]
pub struct SummaryRun {
    recording_id: i64,
    model: String,
    segments: Vec<SegmentRow>,
    chunks: Vec<Chunk>,
    replies: Vec<String>,
}

impl SummaryRun {
    /// The recording.
    pub closed spec fn recording(&self) -> i64 {
        self.recording_id
    }

    /// The language model.
    pub closed spec fn model(&self) -> Seq<char> {
        self.model@
    }

    /// The transcript.
    pub closed spec fn transcript(&self) -> Seq<SegmentRow> {
        self.segments@
    }

    /// The replies so far.
    pub closed spec fn replies(&self) -> Seq<Seq<char>> {
        texts(self.replies@)
    }

    /// Whether the chunks are those of the transcript.
    #[verifier::type_invariant]
    closed spec fn chunks_are_right(&self) -> bool {
        self.chunks@ == chunks_of(self.segments@)
    }

    /// A summary of a recording of which nothing has been asked yet.
    pub fn new(recording_id: i64, model: String, segments: Vec<SegmentRow>) -> (r: Self)
        ensures
            r.recording() == recording_id,
            r.model() == model@,
            r.transcript() == segments@,
            r.replies() == Seq::<Seq<char>>::empty(),
    {
        let chunks = group_into_chunks(&segments);
        let r = SummaryRun { recording_id, model, segments, chunks, replies: Vec::new() };
        assert(r.replies() =~= Seq::<Seq<char>>::empty());
        r
    }

    /// What to ask the language model next, or nothing where the summary is done.
    pub fn question(&self) -> (r: Option<String>)
        ensures
            opt_text(r) == next_question(self.transcript(), self.replies()),
    {
        let total: usize = self.segments.len();
        proof {
            use_type_invariant(self);
            assert(total == self.segments@.len());
            law_chunks_partition_the_transcript(self.segments@);
        }
        let n: usize = self.chunks.len();
        let k: usize = self.replies.len();
        if n == 0 || k / 2 > n || (k / 2 == n && k % 2 == 1) {
            return None;
        }
        if k / 2 == n {
            let bullets = chunk_bullets(&self.replies, n);
            let all = join(&bullets, "\n\n");
            let names = participant_names(&self.segments);
            return Some(final_prompt(all.as_str(), &names));
        }
        if k % 2 == 0 {
            let c = self.chunks[k / 2];
            let part = slice_subrange(self.segments.as_slice(), c.from, c.to);
            let text = format_segments_for_prompt(part);
            return Some(chunk_prompt(text.as_str()));
        }
        let bullets = self.replies[k - 1].as_str();
        if k == 1 {
            let nothing = String::new();
            Some(rolling_prompt(nothing.as_str(), bullets))
        } else {
            Some(rolling_prompt(self.replies[k - 2].as_str(), bullets))
        }
    }

    /// Takes the reply to the last question, which comes at the time `now`, and returns the
    /// statement that stores it.
    pub fn reply(&mut self, response: &str, now: String) -> (r: Statement)
        requires
            next_question(old(self).transcript(), old(self).replies()) is Some,
        ensures
            final(self).recording() == old(self).recording(),
            final(self).model() == old(self).model(),
            final(self).transcript() == old(self).transcript(),
            final(self).replies() == old(self).replies().push(trimmed(response@)),
            r@ == saved(
                old(self).recording(),
                old(self).model(),
                old(self).transcript(),
                old(self).replies().len() as int,
                trimmed(response@),
                now@,
            ),
    {
        proof {
            use_type_invariant(&*self);
        }
        let text = trim(response);
        let n: usize = self.chunks.len();
        let k: usize = self.replies.len();
        let kept = text.clone();
        let recording_id: i64 = self.recording_id;
        let r: Statement = if k / 2 == n {
            Statement::PutSummary {
                recording_id,
                text,
                model: self.model.clone(),
                generated_at: now,
            }
        } else {
            let c = self.chunks[k / 2];
            if k % 2 == 0 {
                Statement::InsertSummaryChunk {
                    recording_id,
                    start_ns: c.start_ns,
                    end_ns: c.end_ns,
                    text,
                    generated_at: now,
                }
            } else {
                Statement::PutRollingSummary {
                    recording_id,
                    text,
                    through_ns: c.end_ns,
                    updated_at: now,
                }
            }
        };
        let ghost before = self.replies();
        let mut replies: Vec<String> = Vec::new();
        std::mem::swap(&mut replies, &mut self.replies);
        replies.push(kept);
        self.replies = replies;
        assert(self.replies() =~= before.push(trimmed(response@)));
        r
    }
}

/// The address of the language model's generator, where `base_url` is the server's: slashes at
/// the end of it do not count.
pub open spec fn generator_url(base_url: Seq<char>) -> Seq<char> {
    without_slashes(base_url) + "/api/generate"@
}

/// `s` without the slashes at its end.
pub open spec fn without_slashes(s: Seq<char>) -> Seq<char>
    decreases s.len(),
{
    if s.len() > 0 && s.last() == '/' {
        without_slashes(s.drop_last())
    } else {
        s
    }
}

/// The address of the language model's generator.
pub fn generate_url(base_url: &str) -> (r: String)
    ensures
        r@ == generator_url(base_url@),
{
    let v = chars_of(base_url);
    let mut n: usize = v.len();
    assert(v@.take(n as int) =~= base_url@);
    while n > 0 && v[n - 1] == '/'
        invariant
            n <= v@.len(),
            without_slashes(v@.take(n as int)) == without_slashes(base_url@),
        decreases n,
    {
        assert(v@.take(n as int).drop_last() =~= v@.take(n - 1));
        n = n - 1;
    }
    let base = string_of(&v, 0, n);
    assert(base@ =~= v@.take(n as int));
    concat2(base.as_str(), "/api/generate")
}

/// A summary of a transcript with segments takes two questions for each chunk, and one at the
/// end; of one without segments nothing is asked.
pub proof fn law_summary_takes_two_questions_a_chunk(s: Seq<SegmentRow>, replies: Seq<Seq<char>>)
    requires
        s.len() <= usize::MAX,
    ensures
        next_question(s, replies) is Some <==> s.len() > 0 && replies.len() <= 2
            * chunks_of(s).len(),
{
    law_chunks_partition_the_transcript(s);
}

/// The statements that store these replies, where `times[k]` is the time of the reply that comes
/// after `k` others.
pub open spec fn saved_plan(
    recording_id: i64,
    model: Seq<char>,
    s: Seq<SegmentRow>,
    replies: Seq<Seq<char>>,
    times: Seq<Seq<char>>,
) -> Seq<Stmt> {
    Seq::new(replies.len(), |k: int| saved(recording_id, model, s, k, replies[k], times[k]))
}

/// The stored chunks with the first `n` of these added.
pub open spec fn with_summary_chunks(
    stored: Map<i64, SummaryChunkRec>,
    recording_id: i64,
    chunks: Seq<Chunk>,
    replies: Seq<Seq<char>>,
    times: Seq<Seq<char>>,
    ids: Seq<i64>,
    n: int,
) -> Map<i64, SummaryChunkRec>
    decreases n,
{
    if n <= 0 {
        stored
    } else {
        with_summary_chunks(stored, recording_id, chunks, replies, times, ids, n - 1).insert(
            ids[2 * (n - 1)],
            chunk_rec(recording_id, chunks[n - 1], replies[2 * (n - 1)], times[2 * (n - 1)]),
        )
    }
}

/// The tables with what the first `k` replies are stored as: the bullet points of the chunks that
/// were replied to, the running summary as it was last, and the final summary once it is there.
pub open spec fn summarised(
    t: Tables,
    recording_id: i64,
    model: Seq<char>,
    s: Seq<SegmentRow>,
    replies: Seq<Seq<char>>,
    times: Seq<Seq<char>>,
    ids: Seq<i64>,
    k: int,
) -> Tables {
    let chunks = chunks_of(s);
    let n = chunks.len() as int;
    let chunked = if k > 2 * n {
        n
    } else {
        (k + 1) / 2
    };
    let rolled = k / 2;
    Tables {
        summary_chunks: with_summary_chunks(
            t.summary_chunks,
            recording_id,
            chunks,
            replies,
            times,
            ids,
            chunked,
        ),
        rolling_summaries: if rolled == 0 {
            t.rolling_summaries
        } else {
            t.rolling_summaries.insert(
                recording_id,
                RollingRec {
                    text: replies[2 * rolled - 1],
                    through_ns: chunks[rolled - 1].end_ns,
                    updated_at: times[2 * rolled - 1],
                },
            )
        },
        summaries: if k > 2 * n {
            t.summaries.insert(
                recording_id,
                SummaryRec { text: replies[2 * n], model, generated_at: times[2 * n] },
            )
        } else {
            t.summaries
        },
        ..t
    }
}

proof fn lemma_first_replies(
    t: Tables,
    recording_id: i64,
    model: Seq<char>,
    s: Seq<SegmentRow>,
    replies: Seq<Seq<char>>,
    times: Seq<Seq<char>>,
    ids: Seq<i64>,
    k: int,
)
    requires
        t.recordings.dom().contains(recording_id),
        replies.len() <= 2 * chunks_of(s).len() + 1,
        times.len() == replies.len(),
        ids.len() == replies.len(),
        0 <= k <= replies.len(),
    ensures
        run(t, saved_plan(recording_id, model, s, replies, times).take(k), ids.take(k)) == Some(
            summarised(t, recording_id, model, s, replies, times, ids, k),
        ),
    decreases k,
{
    let plan = saved_plan(recording_id, model, s, replies, times);
    if k == 0 {
        assert(summarised(t, recording_id, model, s, replies, times, ids, 0) =~= t);
    } else {
        lemma_first_replies(t, recording_id, model, s, replies, times, ids, k - 1);
        assert(plan.take(k) =~= plan.take(k - 1).push(plan[k - 1]));
        assert(ids.take(k) =~= ids.take(k - 1).push(ids[k - 1]));
        lemma_run_push(t, plan.take(k - 1), ids.take(k - 1), plan[k - 1], ids[k - 1]);
        let before = summarised(t, recording_id, model, s, replies, times, ids, k - 1);
        let after = summarised(t, recording_id, model, s, replies, times, ids, k);
        let u = effect(before, plan[k - 1], ids[k - 1]).unwrap();
        assert(u.summary_chunks =~= after.summary_chunks);
        assert(u.rolling_summaries =~= after.rolling_summaries);
        assert(u.summaries =~= after.summaries);
        assert(u =~= after);
    }
}

/// What a summary leaves stored, be it complete or broken off after some replies: the bullet
/// points of each chunk that were replied, added to what was there; the last running summary in
/// place of the one before; and the final summary, in place of the one before, only where all
/// was replied. Nothing else changes, and no statement fails.
pub proof fn law_a_summary_is_stored_as_far_as_it_came(
    t: Tables,
    recording_id: i64,
    model: Seq<char>,
    s: Seq<SegmentRow>,
    replies: Seq<Seq<char>>,
    times: Seq<Seq<char>>,
    ids: Seq<i64>,
)
    requires
        t.recordings.dom().contains(recording_id),
        replies.len() <= 2 * chunks_of(s).len() + 1,
        times.len() == replies.len(),
        ids.len() == replies.len(),
    ensures
        run(t, saved_plan(recording_id, model, s, replies, times), ids) == Some(
            summarised(
                t,
                recording_id,
                model,
                s,
                replies,
                times,
                ids,
                replies.len() as int,
            ),
        ),
{
    let plan = saved_plan(recording_id, model, s, replies, times);
    lemma_first_replies(
        t,
        recording_id,
        model,
        s,
        replies,
        times,
        ids,
        replies.len() as int,
    );
    assert(plan.take(replies.len() as int) =~= plan);
    assert(ids.take(replies.len() as int) =~= ids);
}

/// Storing chunks changes none that were there, and adds each one.
pub proof fn law_storing_chunks_keeps_the_others(
    stored: Map<i64, SummaryChunkRec>,
    recording_id: i64,
    chunks: Seq<Chunk>,
    replies: Seq<Seq<char>>,
    times: Seq<Seq<char>>,
    ids: Seq<i64>,
    n: int,
)
    requires
        0 <= n <= chunks.len(),
        forall|i: int| 0 <= i < n ==> !stored.dom().contains(#[trigger] ids[2 * i]),
        forall|i: int, j: int|
            0 <= i < j < n ==> #[trigger] ids[2 * i] != #[trigger] ids[2 * j],
    ensures
        ({
            let all = with_summary_chunks(
                stored,
                recording_id,
                chunks,
                replies,
                times,
                ids,
                n,
            );
            &&& forall|c: i64| #[trigger]
                stored.dom().contains(c) ==> all.dom().contains(c) && all[c] == stored[c]
            &&& forall|i: int|
                0 <= i < n ==> all.dom().contains(#[trigger] ids[2 * i]) && all[ids[2 * i]]
                    == chunk_rec(recording_id, chunks[i], replies[2 * i], times[2 * i])
            &&& forall|c: i64| #[trigger]
                all.dom().contains(c) ==> stored.dom().contains(c) || exists|i: int|
                    0 <= i < n && #[trigger] ids[2 * i] == c
        }),
    decreases n,
{
    if n > 0 {
        law_storing_chunks_keeps_the_others(
            stored,
            recording_id,
            chunks,
            replies,
            times,
            ids,
            n - 1,
        );
        let m = n - 1;
        let last = ids[2 * m];
        let before = with_summary_chunks(
            stored,
            recording_id,
            chunks,
            replies,
            times,
            ids,
            m,
        );
        let rec = chunk_rec(recording_id, chunks[m], replies[2 * m], times[2 * m]);
        let all = before.insert(last, rec);
        assert(with_summary_chunks(stored, recording_id, chunks, replies, times, ids, n) == all);
        assert(!stored.dom().contains(last));
        assert forall|i: int| 0 <= i < n implies all.dom().contains(#[trigger] ids[2 * i])
            && all[ids[2 * i]] == chunk_rec(
            recording_id,
            chunks[i],
            replies[2 * i],
            times[2 * i],
        ) by {
            if i < m {
                assert(ids[2 * i] != ids[2 * m]);
                assert(before.dom().contains(ids[2 * i]));
            }
        }
        assert forall|c: i64| #[trigger] all.dom().contains(c) implies stored.dom().contains(c)
            || exists|i: int| 0 <= i < n && #[trigger] ids[2 * i] == c by {
            if c == last {
                assert(ids[2 * m] == c);
            } else {
                assert(before.dom().contains(c));
                if !stored.dom().contains(c) {
                    let i = choose|i: int| 0 <= i < m && #[trigger] ids[2 * i] == c;
                    assert(ids[2 * i] == c);
                }
            }
        }
    }
}

/// The name under which what a segment says is shown to the language model.
pub open spec fn shown_name(s: SegmentRow) -> Seq<char> {
    if s.speaker_name is Some {
        s.speaker_name.unwrap()@
    } else {
        "Unknown"@
    }
}

/// How long the lines of the first `i` segments are: for each its name, all that it says without
/// white space at the ends, and three characters.
pub open spec fn lines_length(s: Seq<SegmentRow>, i: int) -> int
    decreases i,
{
    if i <= 0 {
        0
    } else {
        lines_length(s, i - 1) + shown_name(s[i - 1]).len() + trimmed(s[i - 1].text@).len() + 3
    }
}

proof fn lemma_lines_length(a: Seq<SegmentRow>, b: Seq<SegmentRow>, i: int)
    requires
        0 <= i <= b.len() <= a.len(),
        b == a.take(b.len() as int),
    ensures
        lines_length(a, i) == lines_length(b, i),
        lines_length(a, i) >= 0,
    decreases i,
{
    if i > 0 {
        lemma_lines_length(a, b, i - 1);
        assert(a[i - 1] == b[i - 1]);
    }
}

/// Nothing said is lost on the way to the language model: in the lines of segments each segment
/// has its own line, in order, in which its whole text stands behind its speaker's name, and the
/// lines are no longer than that.
pub proof fn law_lines_hold_all_that_is_said(s: Seq<SegmentRow>, i: int)
    requires
        0 <= i < s.len(),
    ensures
        ({
            let at = lines_length(s, i);
            let name = shown_name(s[i]);
            let text = trimmed(s[i].text@);
            let end = at + name.len() + text.len() + 3;
            &&& 0 <= at < end <= lines(s).len()
            &&& lines(s).subrange(at, at + name.len()) == name
            &&& lines(s)[at + name.len()] == ':'
            &&& lines(s)[at + name.len() + 1] == ' '
            &&& lines(s).subrange(at + name.len() + 2, end - 1) == text
            &&& lines(s)[end - 1] == '\n'
        }),
        lines(s).len() == lines_length(s, s.len() as int),
{
    lemma_line_of(s, i);
}

/// Whether the line of this name and this text stands in `all` at `at`.
spec fn stands_at(all: Seq<char>, at: int, name: Seq<char>, text: Seq<char>) -> bool {
    let k = at + name.len();
    let end = k + text.len() + 3;
    &&& 0 <= at < end <= all.len()
    &&& all.subrange(at, k) == name
    &&& all[k] == ':'
    &&& all[k + 1] == ' '
    &&& all.subrange(k + 2, end - 1) == text
    &&& all[end - 1] == '\n'
}

#[verifier::spinoff_prover]
proof fn lemma_line_of(s: Seq<SegmentRow>, i: int)
    requires
        0 <= i < s.len(),
    ensures
        stands_at(lines(s), lines_length(s, i), shown_name(s[i]), trimmed(s[i].text@)),
        lines(s).len() == lines_length(s, s.len() as int),
    decreases s.len(),
{
    let front = s.drop_last();
    let n = s.len() as int;
    let last = line(s.last());
    assert(front =~= s.take(n - 1));
    assert(s.last() == s[n - 1]);
    lemma_lines_length(s, front, n - 1);
    lemma_new_line(lines(front), s.last());
    assert(lines(s) == lines(front) + last);
    assert(lines_length(s, n) == lines_length(s, n - 1) + shown_name(s[n - 1]).len() + trimmed(
        s[n - 1].text@,
    ).len() + 3);
    if front.len() > 0 {
        lemma_line_of(front, 0);
        assert(lines(front).len() == lines_length(front, n - 1));
    } else {
        assert(lines(front).len() == 0);
        assert(lines_length(s, 0) == 0);
    }
    assert(lines(front).len() == lines_length(s, n - 1));
    assert(lines(s).len() == lines_length(s, n));
    if i < n - 1 {
        lemma_line_of(front, i);
        assert(front[i] == s[i]);
        lemma_lines_length(s, front, i);
        lemma_line_kept(
            lines(front),
            last,
            lines_length(s, i),
            shown_name(s[i]),
            trimmed(s[i].text@),
        );
    }
}

proof fn lemma_line_kept(
    before: Seq<char>,
    more: Seq<char>,
    at: int,
    name: Seq<char>,
    text: Seq<char>,
)
    requires
        stands_at(before, at, name, text),
    ensures
        stands_at(before + more, at, name, text),
{
    let k = at + name.len();
    let end = k + text.len() + 3;
    let all = before + more;
    assert(all.subrange(at, k) =~= before.subrange(at, k));
    assert(all.subrange(k + 2, end - 1) =~= before.subrange(k + 2, end - 1));
}

proof fn lemma_new_line(before: Seq<char>, s: SegmentRow)
    ensures
        stands_at(
            before + line(s),
            before.len() as int,
            shown_name(s),
            trimmed(s.text@),
        ),
        line(s).len() == shown_name(s).len() + trimmed(s.text@).len() + 3,
{
    reveal_strlit(": ");
    reveal_strlit("\n");
    assert(": "@.len() == 2 && "\n"@.len() == 1);
    let name = shown_name(s);
    let text = trimmed(s.text@);
    let all = before + line(s);
    let k = before.len() + name.len();
    assert(all.subrange(before.len() as int, k as int) =~= name);
    assert(all.subrange(k + 2int, k + 2int + text.len()) =~= text);
}

/// The question for a chunk holds, as one run, all lines of the segments of that chunk. The
/// result gives where they begin in it.
pub proof fn law_a_chunk_is_asked_about_whole(s: Seq<SegmentRow>, replies: Seq<Seq<char>>) -> (at:
    int)
    requires
        s.len() <= usize::MAX,
        replies.len() < 2 * chunks_of(s).len(),
        replies.len() % 2 == 0,
    ensures
        ({
            let c = chunks_of(s)[replies.len() as int / 2];
            let said = lines(s.subrange(c.from as int, c.to as int));
            &&& next_question(s, replies) matches Some(q)
            &&& 0 <= at <= at + said.len() <= q.len()
            &&& q.subrange(at, at + said.len()) == said
        }),
{
    let c = chunks_of(s)[replies.len() as int / 2];
    let said = lines(s.subrange(c.from as int, c.to as int));
    let q = next_question(s, replies).unwrap();
    let head = "You are summarising part of a meeting transcript. Output 3-6 bullet points covering the key decisions, action items, and topics discussed.\n\nTranscript:\n"@;
    let at = head.len() as int;
    assert(q == chunk_question(said));
    assert(q.subrange(at, at + said.len()) =~= said);
    at
}

/// The question for the running summary holds, each as one run, the last running summary, if
/// there is one, and behind it the new bullet points. The result gives where they begin in it.
pub proof fn law_the_running_summary_is_carried_on(s: Seq<SegmentRow>, replies: Seq<Seq<char>>) ->
    (at: (int, int))
    requires
        s.len() <= usize::MAX,
        replies.len() < 2 * chunks_of(s).len(),
        replies.len() % 2 == 1,
    ensures
        ({
            let k = replies.len() as int;
            let bullets = replies[k - 1];
            let previous = if k > 1 {
                replies[k - 2]
            } else {
                Seq::<char>::empty()
            };
            &&& next_question(s, replies) matches Some(q)
            &&& 0 <= at.0 <= at.0 + previous.len() <= at.1 <= at.1 + bullets.len() <= q.len()
            &&& q.subrange(at.0, at.0 + previous.len()) == previous
            &&& q.subrange(at.1, at.1 + bullets.len()) == bullets
        }),
{
    let k = replies.len() as int;
    let bullets = replies[k - 1];
    let previous = if k > 1 {
        replies[k - 2]
    } else {
        Seq::<char>::empty()
    };
    let q = next_question(s, replies).unwrap();
    let head = "You maintain a running summary of a meeting. Update the running summary by integrating new bullets. Stay concise; don't repeat.\n\nCurrent running summary:\n"@;
    let middle = "\n\nNew bullets to integrate:\n"@;
    assert(q == rolling_question(previous, bullets));
    let a = head.len() as int;
    let b = a + previous.len() + middle.len();
    assert(q.subrange(a, a + previous.len()) =~= previous);
    assert(q.subrange(b, b + bullets.len()) =~= bullets);
    (a, b)
}

/// The question for the final summary holds the bullet points of every chunk whole, in the order
/// of the chunks, and the names of all participants ahead of them. The result gives where the
/// names begin, and where the bullet points of the chunk at `j` do.
pub proof fn law_the_final_summary_is_of_all_chunks(
    s: Seq<SegmentRow>,
    replies: Seq<Seq<char>>,
    j: int,
) -> (at: (int, int))
    requires
        s.len() > 0,
        s.len() <= usize::MAX,
        replies.len() == 2 * chunks_of(s).len(),
        0 <= j < chunks_of(s).len(),
    ensures
        ({
            let names = joined(participants(s), ", "@);
            let bullets = replies[2 * j];
            &&& next_question(s, replies) matches Some(q)
            &&& 0 <= at.0 <= at.0 + names.len() <= at.1 <= at.1 + bullets.len() <= q.len()
            &&& q.subrange(at.0, at.0 + names.len()) == names
            &&& q.subrange(at.1, at.1 + bullets.len()) == bullets
        }),
{
    let n = chunks_of(s).len() as int;
    let names = joined(participants(s), ", "@);
    let each = bullets_among(replies, n);
    let bullets = replies[2 * j];
    let all = joined(each, "\n\n"@);
    let q = next_question(s, replies).unwrap();
    let head = "Below are bullet-point summaries of consecutive segments of a meeting with participants: "@;
    let middle = ". Produce a clean final summary with these sections in Markdown: Overview, Decisions, Action items (with owner where stated), Open questions.\n\nSegment bullets:\n"@;
    assert(q == final_question(all, participants(s)));
    law_joining_keeps_every_part(each, "\n\n"@, j);
    let inner = part_offset(each, "\n\n"@, j);
    let a = head.len() as int;
    let b = a + names.len() + middle.len();
    assert(q.subrange(a, a + names.len()) =~= names);
    assert(q.subrange(b, b + all.len()) =~= all);
    assert(each[j] == bullets);
    assert(q.subrange(b + inner, b + inner + bullets.len()) =~= all.subrange(
        inner,
        inner + bullets.len(),
    ));
    (a, b + inner)
}

/// A chunk lasts from the start of its first segment to the end of its last.
pub proof fn law_a_chunk_spans_its_segments(s: Seq<SegmentRow>, j: int)
    requires
        s.len() <= usize::MAX,
        0 <= j < chunks_of(s).len(),
    ensures
        ({
            let c = chunks_of(s)[j];
            &&& c.from < c.to <= s.len()
            &&& c.start_ns == s[c.from as int].start_ns
            &&& c.end_ns == s[c.to - 1].end_ns
        }),
{
    law_chunks_partition_the_transcript(s);
    if s.len() > 0 {
        lemma_chunk_starts(s);
        let starts = chunk_starts(s);
        if j + 1 < starts.len() {
            assert(starts[j] < starts[j + 1]);
        }
    }
}

/// Between two segments of a transcript a chunk ends if more than a second is silent between
/// them, and only then or where the chunk has lasted seven and a half minutes.
pub proof fn law_a_second_of_silence_parts_chunks(s: Seq<SegmentRow>, j: int, i: int)
    requires
        s.len() <= usize::MAX,
        0 <= j < chunks_of(s).len(),
        chunks_of(s)[j].from < i < s.len(),
        i <= chunks_of(s)[j].to,
    ensures
        i == chunks_of(s)[j].to <==> s[i].start_ns - s[i - 1].end_ns > 1_000_000_000
            || s[i].start_ns - s[chunks_of(s)[j].from as int].start_ns >= 450_000_000_000,
{
    law_chunks_partition_the_transcript(s);
    lemma_chunk_starts(s);
    let starts = chunk_starts(s);
    if j + 1 < starts.len() {
        assert(starts[j] < starts[j + 1]);
    }
    lemma_cuts_at_chunk_ends(s, j, i);
}

/// Every reply is stored whole and for its recording: the bullet points of a chunk with the times
/// of that chunk, the running summary with how far it reaches, and the final summary with the
/// model.
pub proof fn law_replies_are_stored_whole(
    recording_id: i64,
    model: Seq<char>,
    s: Seq<SegmentRow>,
    k: int,
    reply: Seq<char>,
    now: Seq<char>,
)
    requires
        s.len() <= usize::MAX,
        0 <= k <= 2 * chunks_of(s).len(),
    ensures
        k == 2 * chunks_of(s).len() ==> (saved(recording_id, model, s, k, reply, now)
            matches Stmt::PutSummary { recording_id: r, summary } && r == recording_id
            && summary.text == reply && summary.model == model && summary.generated_at == now),
        k < 2 * chunks_of(s).len() && k % 2 == 0 ==> (saved(recording_id, model, s, k, reply, now)
            matches Stmt::InsertSummaryChunk { chunk } && chunk.recording_id == recording_id
            && chunk.text == reply && chunk.generated_at == now && chunk.start_ns == s[chunks_of(
            s,
        )[k / 2].from as int].start_ns && chunk.end_ns == s[chunks_of(s)[k / 2].to - 1].end_ns),
        k < 2 * chunks_of(s).len() && k % 2 == 1 ==> (saved(recording_id, model, s, k, reply, now)
            matches Stmt::PutRollingSummary { recording_id: r, rolling } && r == recording_id
            && rolling.text == reply && rolling.updated_at == now && rolling.through_ns
            == s[chunks_of(s)[k / 2].to - 1].end_ns),
{
    if k < 2 * chunks_of(s).len() {
        law_a_chunk_spans_its_segments(s, k / 2);
    }
}

/// Of the server's address only slashes at the end are left out. The result gives how much of it
/// is kept.
pub proof fn law_only_slashes_at_the_end_are_left_out(base_url: Seq<char>) -> (n: int)
    ensures
        0 <= n <= base_url.len(),
        generator_url(base_url) == base_url.take(n) + "/api/generate"@,
        forall|i: int| n <= i < base_url.len() ==> #[trigger] base_url[i] == '/',
        n > 0 ==> base_url[n - 1] != '/',
    decreases base_url.len(),
{
    let len = base_url.len() as int;
    if len > 0 && base_url.last() == '/' {
        let front = base_url.drop_last();
        let n = law_only_slashes_at_the_end_are_left_out(front);
        assert(front.take(n) =~= base_url.take(n));
        assert forall|i: int| n <= i < len implies #[trigger] base_url[i] == '/' by {
            if i < len - 1 {
                assert(front[i] == base_url[i]);
            }
        }
        n
    } else {
        assert(base_url.take(len) =~= base_url);
        len
    }
}

/// Two questions of a kind differ in nothing but what they are about: the words around that are
/// the same, however long it is. The result gives where it begins in the question for a chunk,
/// where the running summary begins in the question for the next one, and where the names do in
/// the question for the final summary.
pub proof fn law_questions_differ_in_what_they_are_about(
    a: Seq<char>,
    b: Seq<char>,
    c: Seq<char>,
    d: Seq<char>,
    names: Seq<Seq<char>>,
    others: Seq<Seq<char>>,
) -> (at: (int, int, int))
    ensures
        ({
            let k = at.0;
            let x = chunk_question(a);
            let y = chunk_question(b);
            &&& 0 <= k <= k + a.len() <= x.len()
            &&& x.subrange(k, k + a.len()) == a
            &&& x.take(k) == y.take(k)
            &&& x.skip(k + a.len()) == y.skip(k + b.len())
        }),
        ({
            let k = at.1;
            let x = rolling_question(a, c);
            let y = rolling_question(b, d);
            let m = x.len() - y.len() - a.len() + b.len() - c.len() + d.len();
            &&& 0 <= k <= k + a.len() <= x.len()
            &&& m == 0
            &&& x.subrange(k, k + a.len()) == a
            &&& x.take(k) == y.take(k)
            &&& rolling_question(a, c).skip(k + a.len()) == rolling_question(b, c).skip(k + b.len())
        }),
        ({
            let k = at.2;
            let x = final_question(a, names);
            let y = final_question(b, others);
            let n = joined(names, ", "@).len() as int;
            let o = joined(others, ", "@).len() as int;
            &&& 0 <= k <= k + n <= x.len()
            &&& x.subrange(k, k + n) == joined(names, ", "@)
            &&& x.take(k) == y.take(k)
            &&& final_question(a, names).skip(k + n) == final_question(a, others).skip(k + o)
            &&& x.len() - n - a.len() == y.len() - o - b.len()
        }),
{
    let h0 = "You are summarising part of a meeting transcript. Output 3-6 bullet points covering the key decisions, action items, and topics discussed.\n\nTranscript:\n"@;
    let h1 = "You maintain a running summary of a meeting. Update the running summary by integrating new bullets. Stay concise; don't repeat.\n\nCurrent running summary:\n"@;
    let h2 = "Below are bullet-point summaries of consecutive segments of a meeting with participants: "@;
    let at = (h0.len() as int, h1.len() as int, h2.len() as int);
    let x = chunk_question(a);
    let y = chunk_question(b);
    assert(x.subrange(at.0, at.0 + a.len()) =~= a);
    assert(x.take(at.0) =~= y.take(at.0));
    assert(x.skip(at.0 + a.len()) =~= y.skip(at.0 + b.len()));
    let p = rolling_question(a, c);
    let q = rolling_question(b, d);
    assert(p.subrange(at.1, at.1 + a.len()) =~= a);
    assert(p.take(at.1) =~= q.take(at.1));
    assert(p.skip(at.1 + a.len()) =~= rolling_question(b, c).skip(at.1 + b.len()));
    let n = joined(names, ", "@);
    let o = joined(others, ", "@);
    let u = final_question(a, names);
    let v = final_question(b, others);
    assert(u.subrange(at.2, at.2 + n.len()) =~= n);
    assert(u.take(at.2) =~= v.take(at.2));
    assert(u.skip(at.2 + n.len()) =~= final_question(a, others).skip(at.2 + o.len()));
    at
}

} // verus!
