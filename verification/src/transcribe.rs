//! Transcripts: what is kept of the words that the speech model yields, and the channels of a
//! recording.

use vstd::prelude::*;

use crate::selection::{ascending, lemma_position_added};
use crate::text::{
    chars_of, is_white, law_trimming_takes_white_space_from_the_ends, trim, trimmed,
};
use crate::time::{centiseconds, clamped};

verus! {

/// What a transcription is for.
#[derive(Debug, Clone, Copy, PartialEq, Eq, Structural)]
pub enum Mode {
    /// Text that appears while the call goes on.
    Live,
    /// The transcript that is kept.
    Finalize,
}

/// A piece of a transcript. Times are in nanoseconds from the start; the confidence is the bit
/// pattern of a 64-bit floating-point number.
#[derive(Debug)]
pub struct TranscribedSegment {
    pub start_ns: i64,
    pub end_ns: i64,
    pub text: String,
    pub confidence: Option<u64>,
    pub channel: Option<u8>,
}

/// A piece of a transcript as a mathematical value.
pub struct Piece {
    pub start_ns: i64,
    pub end_ns: i64,
    pub text: Seq<char>,
    pub confidence: Option<u64>,
    pub channel: Option<u8>,
}

impl View for TranscribedSegment {
    type V = Piece;

    open spec fn view(&self) -> Piece {
        Piece {
            start_ns: self.start_ns,
            end_ns: self.end_ns,
            text: self.text@,
            confidence: self.confidence,
            channel: self.channel,
        }
    }
}

/// The mathematical values of pieces of a transcript.
pub open spec fn pieces(v: Seq<TranscribedSegment>) -> Seq<Piece> {
    Seq::new(v.len(), |i: int| v[i]@)
}

/// A piece of a transcript as the speech model yields it, timed in hundredths of a second.
#[derive(Debug)]
pub struct RawSegment {
    pub text: String,
    pub start_cs: i64,
    pub end_cs: i64,
}

/// Whether `c` opens a remark.
pub open spec fn opens(c: char) -> bool {
    c == '[' || c == '('
}

/// Whether `c` closes a remark.
pub open spec fn closes(c: char) -> bool {
    c == ']' || c == ')'
}

/// How many remarks are open behind `s`. What closes a remark where none is open counts for
/// nothing.
pub open spec fn depth(s: Seq<char>) -> nat
    decreases s.len(),
{
    if s.len() == 0 {
        0
    } else {
        let d = depth(s.drop_last());
        if opens(s.last()) {
            d + 1
        } else if closes(s.last()) && d > 0 {
            (d - 1) as nat
        } else {
            d
        }
    }
}

/// What of `s` stands outside all remarks in brackets or parentheses.
pub open spec fn spoken(s: Seq<char>) -> Seq<char>
    decreases s.len(),
{
    if s.len() == 0 {
        s
    } else {
        let front = s.drop_last();
        if opens(s.last()) || depth(front) > 0 {
            spoken(front)
        } else {
            spoken(front).push(s.last())
        }
    }
}

/// The text without remarks such as `[music]`, trimmed.
pub fn strip_artifacts(s: &str) -> (r: String)
    ensures
        r@ == trimmed(spoken(s@)),
{
    let v = chars_of(s);
    let mut out = String::new();
    let mut open: usize = 0;
    let mut i: usize = 0;
    assert(v@.take(0) =~= Seq::<char>::empty());
    while i < v.len()
        invariant
            i <= v@.len(),
            open == depth(v@.take(i as int)),
            open <= i,
            out@ == spoken(v@.take(i as int)),
        decreases v@.len() - i,
    {
        let c: char = v[i];
        assert(v@.take(i + 1).drop_last() =~= v@.take(i as int));
        if c == '[' || c == '(' {
            open = open + 1;
        } else if (c == ']' || c == ')') && open > 0 {
            open = open - 1;
        } else if open == 0 {
            out.push(c);
        }
        i = i + 1;
    }
    assert(v@.take(v@.len() as int) =~= s@);
    trim(out.as_str())
}

/// What is kept of the pieces that the speech model yields: those that say something, without
/// remarks, and timed in nanoseconds.
pub open spec fn collected(raw: Seq<RawSegment>) -> Seq<Piece>
    decreases raw.len(),
{
    if raw.len() == 0 {
        Seq::<Piece>::empty()
    } else {
        let front = collected(raw.drop_last());
        let text = trimmed(spoken(raw.last().text@));
        if text.len() == 0 {
            front
        } else {
            front.push(
                Piece {
                    start_ns: clamped(raw.last().start_cs * 10_000_000),
                    end_ns: clamped(raw.last().end_cs * 10_000_000),
                    text,
                    confidence: None,
                    channel: None,
                },
            )
        }
    }
}

/// The transcript made of what the speech model yields.
pub fn collect_segments(raw: &Vec<RawSegment>) -> (r: Vec<TranscribedSegment>)
    ensures
        pieces(r@) == collected(raw@),
{
    let mut out: Vec<TranscribedSegment> = Vec::new();
    let mut i: usize = 0;
    assert(pieces(out@) =~= Seq::<Piece>::empty());
    while i < raw.len()
        invariant
            i <= raw@.len(),
            pieces(out@) == collected(raw@.take(i as int)),
        decreases raw@.len() - i,
    {
        assert(raw@.take(i + 1).drop_last() =~= raw@.take(i as int));
        let ghost before = pieces(out@);
        let text = strip_artifacts(raw[i].text.as_str());
        if !text.as_str().is_empty() {
            let s = TranscribedSegment {
                start_ns: centiseconds(raw[i].start_cs),
                end_ns: centiseconds(raw[i].end_cs),
                text,
                confidence: None,
                channel: None,
            };
            out.push(s);
            assert(pieces(out@) =~= before.push(s@));
        }
        i = i + 1;
    }
    assert(raw@.take(raw@.len() as int) =~= raw@);
    out
}

/// Whether no remark is opened in `s`.
pub open spec fn opens_nothing(s: Seq<char>) -> bool {
    forall|i: int| 0 <= i < s.len() ==> !opens(#[trigger] s[i])
}

proof fn lemma_spoken_opens_nothing(s: Seq<char>)
    ensures
        opens_nothing(spoken(s)),
    decreases s.len(),
{
    if s.len() > 0 {
        lemma_spoken_opens_nothing(s.drop_last());
    }
}

proof fn lemma_trimmed_opens_nothing(s: Seq<char>)
    requires
        opens_nothing(s),
    ensures
        opens_nothing(trimmed(s)),
    decreases s.len(),
{
    if s.len() > 0 {
        if is_white(s.first()) {
            lemma_trimmed_opens_nothing(s.drop_first());
        } else if is_white(s.last()) {
            lemma_trimmed_opens_nothing(s.drop_last());
        }
    }
}

proof fn lemma_spoken_of_plain(s: Seq<char>)
    requires
        opens_nothing(s),
    ensures
        depth(s) == 0,
        spoken(s) == s,
    decreases s.len(),
{
    if s.len() > 0 {
        lemma_spoken_of_plain(s.drop_last());
        assert(!opens(s[s.len() - 1]));
        assert(s =~= s.drop_last().push(s.last()));
    }
}

proof fn lemma_trimmed_twice(s: Seq<char>)
    ensures
        trimmed(trimmed(s)) == trimmed(s),
    decreases s.len(),
{
    if s.len() > 0 {
        if is_white(s.first()) {
            lemma_trimmed_twice(s.drop_first());
        } else if is_white(s.last()) {
            lemma_trimmed_twice(s.drop_last());
        }
    }
}

/// A text in which nothing opens a remark is only trimmed.
pub proof fn law_plain_text_is_kept(s: Seq<char>)
    requires
        opens_nothing(s),
    ensures
        trimmed(spoken(s)) == trimmed(s),
{
    lemma_spoken_of_plain(s);
}

/// In a stripped text nothing opens a remark, and stripping it again changes nothing.
pub proof fn law_stripping_is_done_at_once(s: Seq<char>)
    ensures
        opens_nothing(trimmed(spoken(s))),
        trimmed(spoken(trimmed(spoken(s)))) == trimmed(spoken(s)),
{
    lemma_spoken_opens_nothing(s);
    lemma_trimmed_opens_nothing(spoken(s));
    lemma_spoken_of_plain(trimmed(spoken(s)));
    lemma_trimmed_twice(spoken(s));
}

/// The samples of the left channel of interleaved stereo samples; one left over at the end
/// belongs to no channel.
pub open spec fn left_of<T>(samples: Seq<T>) -> Seq<T> {
    Seq::new(samples.len() / 2, |i: int| samples[2 * i])
}

/// The samples of the right channel of interleaved stereo samples.
pub open spec fn right_of<T>(samples: Seq<T>) -> Seq<T> {
    Seq::new(samples.len() / 2, |i: int| samples[2 * i + 1])
}

/// Separates interleaved stereo samples into the left and the right channel.
pub fn split_channels<T: Copy>(samples: &Vec<T>) -> (r: (Vec<T>, Vec<T>))
    ensures
        r.0@ == left_of(samples@),
        r.1@ == right_of(samples@),
{
    let mut left: Vec<T> = Vec::new();
    let mut right: Vec<T> = Vec::new();
    let len: usize = samples.len();
    let n: usize = len / 2;
    let mut i: usize = 0;
    while i < n
        invariant
            i <= n,
            n == len / 2,
            len == samples@.len(),
            left@.len() == i,
            right@.len() == i,
            forall|k: int| 0 <= k < i ==> #[trigger] left@[k] == samples@[2 * k],
            forall|k: int| 0 <= k < i ==> #[trigger] right@[k] == samples@[2 * k + 1],
        decreases n - i,
    {
        left.push(samples[2 * i]);
        right.push(samples[2 * i + 1]);
        i = i + 1;
    }
    assert(left@ =~= left_of(samples@));
    assert(right@ =~= right_of(samples@));
    (left, right)
}

/// By how many more remarks are opened than closed in `s`.
pub open spec fn opened_more(s: Seq<char>) -> int
    decreases s.len(),
{
    if s.len() == 0 {
        0
    } else {
        opened_more(s.drop_last()) + (if s.last() == '[' || s.last() == '(' {
            1int
        } else if s.last() == ']' || s.last() == ')' {
            -1int
        } else {
            0int
        })
    }
}

/// Whether a remark that is opened ahead of position `i` is still open there: from some place on,
/// more are opened than closed.
pub open spec fn in_remark(s: Seq<char>, i: int) -> bool {
    exists|j: int| 0 <= j <= i && opened_more(#[trigger] s.subrange(j, i)) > 0
}

proof fn lemma_depth(s: Seq<char>) -> (j: int)
    ensures
        0 <= j <= s.len(),
        opened_more(s.subrange(j, s.len() as int)) == depth(s),
        forall|k: int|
            0 <= k <= s.len() ==> opened_more(#[trigger] s.subrange(k, s.len() as int)) <= depth(s),
    decreases s.len(),
{
    let n = s.len() as int;
    if n == 0 {
        assert(s.subrange(0, 0) =~= Seq::<char>::empty());
        0
    } else {
        let front = s.drop_last();
        let before = lemma_depth(front);
        assert forall|k: int| 0 <= k <= n implies opened_more(#[trigger] s.subrange(k, n)) <= depth(
            s,
        ) by {
            if k < n {
                assert(s.subrange(k, n).drop_last() =~= front.subrange(k, n - 1));
                assert(opened_more(front.subrange(k, n - 1)) <= depth(front));
            } else {
                assert(s.subrange(n, n) =~= Seq::<char>::empty());
            }
        }
        assert(s.subrange(before, n).drop_last() =~= front.subrange(before, n - 1));
        assert(s.subrange(n, n) =~= Seq::<char>::empty());
        if closes(s.last()) && depth(front) == 0 {
            n
        } else {
            before
        }
    }
}

proof fn lemma_spoken(s: Seq<char>, n: int) -> (p: Seq<int>)
    requires
        0 <= n <= s.len(),
    ensures
        ascending(p),
        forall|i: int| #[trigger]
            p.contains(i) <==> 0 <= i < n && s[i] != '[' && s[i] != '(' && !in_remark(s, i),
        spoken(s.take(n)).len() == p.len(),
        forall|k: int| 0 <= k < p.len() ==> #[trigger] spoken(s.take(n))[k] == s[p[k]],
    decreases n,
{
    if n == 0 {
        Seq::<int>::empty()
    } else {
        let q = lemma_spoken(s, n - 1);
        let t = s.take(n - 1);
        assert(s.take(n).drop_last() =~= t);
        assert(in_remark(s, n - 1) <==> depth(t) > 0) by {
            let m = n - 1;
            let j = lemma_depth(t);
            assert(t.len() == m);
            assert forall|k: int| 0 <= k <= m implies #[trigger] s.subrange(k, m) == t.subrange(
                k,
                t.len() as int,
            ) by {
                assert(s.subrange(k, m) =~= t.subrange(k, t.len() as int));
            }
            assert(s.subrange(j, m) == t.subrange(j, t.len() as int));
        }
        if s[n - 1] != '[' && s[n - 1] != '(' && !in_remark(s, n - 1) {
            lemma_position_added(q, n - 1);
            q.push(n - 1)
        } else {
            q
        }
    }
}

/// What is spoken are exactly the characters that stand outside all remarks and open none, each
/// once and in their order: nothing that is said is lost, and nothing of a remark is kept. The
/// result gives their positions.
pub proof fn law_exactly_what_is_outside_remarks_is_spoken(s: Seq<char>) -> (p: Seq<int>)
    ensures
        ascending(p),
        forall|i: int| #[trigger]
            p.contains(i) <==> 0 <= i < s.len() && s[i] != '[' && s[i] != '(' && !in_remark(s, i),
        spoken(s).len() == p.len(),
        forall|k: int| 0 <= k < p.len() ==> #[trigger] spoken(s)[k] == s[p[k]],
{
    assert(s.take(s.len() as int) =~= s);
    lemma_spoken(s, s.len() as int)
}

/// A remark that is closed, and in which no other is opened or closed, is left out, and all that
/// is around it is kept.
pub proof fn law_a_remark_is_left_out(
    before: Seq<char>,
    opening: char,
    remark: Seq<char>,
    closing: char,
    behind: Seq<char>,
)
    requires
        opening == '[' || opening == '(',
        closing == ']' || closing == ')',
        forall|i: int|
            0 <= i < before.len() ==> #[trigger] before[i] != '[' && before[i] != '(',
        forall|i: int|
            0 <= i < remark.len() ==> #[trigger] remark[i] != '[' && remark[i] != '('
                && remark[i] != ']' && remark[i] != ')',
        forall|i: int|
            0 <= i < behind.len() ==> #[trigger] behind[i] != '[' && behind[i] != '(',
    ensures
        spoken(before.push(opening) + remark.push(closing) + behind) == before + behind,
    decreases behind.len(), remark.len(),
{
    let s = before.push(opening) + remark.push(closing) + behind;
    if behind.len() > 0 {
        let b = behind.drop_last();
        law_a_remark_is_left_out(before, opening, remark, closing, b);
        lemma_depth_behind_remark(before, opening, remark, closing, b);
        assert(s.drop_last() =~= before.push(opening) + remark.push(closing) + b);
        assert(s.last() == behind[behind.len() - 1]);
        assert(before + behind =~= (before + b).push(behind.last()));
    } else {
        lemma_in_remark(before, opening, remark);
        let open = before.push(opening) + remark;
        assert(s =~= open.push(closing));
        assert(s.drop_last() =~= open);
        assert(before + behind =~= before);
    }
}

proof fn lemma_in_remark(before: Seq<char>, opening: char, remark: Seq<char>)
    requires
        opening == '[' || opening == '(',
        forall|i: int|
            0 <= i < before.len() ==> #[trigger] before[i] != '[' && before[i] != '(',
        forall|i: int|
            0 <= i < remark.len() ==> #[trigger] remark[i] != '[' && remark[i] != '('
                && remark[i] != ']' && remark[i] != ')',
    ensures
        depth(before.push(opening) + remark) == 1,
        spoken(before.push(opening) + remark) == before,
    decreases remark.len(),
{
    let s = before.push(opening) + remark;
    if remark.len() == 0 {
        assert(s =~= before.push(opening));
        assert(s.drop_last() =~= before);
        assert(opens_nothing(before));
        lemma_spoken_of_plain(before);
    } else {
        let r = remark.drop_last();
        lemma_in_remark(before, opening, r);
        assert(s.drop_last() =~= before.push(opening) + r);
        assert(s.last() == remark[remark.len() - 1]);
    }
}

proof fn lemma_depth_behind_remark(
    before: Seq<char>,
    opening: char,
    remark: Seq<char>,
    closing: char,
    behind: Seq<char>,
)
    requires
        opening == '[' || opening == '(',
        closing == ']' || closing == ')',
        forall|i: int|
            0 <= i < before.len() ==> #[trigger] before[i] != '[' && before[i] != '(',
        forall|i: int|
            0 <= i < remark.len() ==> #[trigger] remark[i] != '[' && remark[i] != '('
                && remark[i] != ']' && remark[i] != ')',
        forall|i: int|
            0 <= i < behind.len() ==> #[trigger] behind[i] != '[' && behind[i] != '(',
    ensures
        depth(before.push(opening) + remark.push(closing) + behind) == 0,
    decreases behind.len(),
{
    let s = before.push(opening) + remark.push(closing) + behind;
    if behind.len() == 0 {
        lemma_in_remark(before, opening, remark);
        let open = before.push(opening) + remark;
        assert(s =~= open.push(closing));
        assert(s.drop_last() =~= open);
    } else {
        let b = behind.drop_last();
        lemma_depth_behind_remark(before, opening, remark, closing, b);
        assert(s.drop_last() =~= before.push(opening) + remark.push(closing) + b);
        assert(s.last() == behind[behind.len() - 1]);
    }
}

proof fn lemma_collected(raw: Seq<RawSegment>, n: int) -> (p: Seq<int>)
    requires
        0 <= n <= raw.len(),
    ensures
        ascending(p),
        forall|i: int| #[trigger]
            p.contains(i) <==> 0 <= i < n && trimmed(spoken(raw[i].text@)).len() > 0,
        collected(raw.take(n)).len() == p.len(),
        forall|k: int|
            0 <= k < p.len() ==> {
                let piece = #[trigger] collected(raw.take(n))[k];
                let source = raw[p[k]];
                &&& piece.text == trimmed(spoken(source.text@))
                &&& piece.start_ns == clamped(source.start_cs * 10_000_000)
                &&& piece.end_ns == clamped(source.end_cs * 10_000_000)
                &&& piece.confidence is None
                &&& piece.channel is None
            },
    decreases n,
{
    if n == 0 {
        Seq::<int>::empty()
    } else {
        let q = lemma_collected(raw, n - 1);
        assert(raw.take(n).drop_last() =~= raw.take(n - 1));
        if trimmed(spoken(raw[n - 1].text@)).len() > 0 {
            lemma_position_added(q, n - 1);
            q.push(n - 1)
        } else {
            q
        }
    }
}

/// Each piece that the speech model yields and in which something is said, be it a single
/// character, yields exactly one piece of the transcript, in order, with what is said in it and
/// with its own start and end; only those in which nothing is said yield none. The result gives
/// the positions of those that do.
pub proof fn law_nothing_said_is_dropped(raw: Seq<RawSegment>) -> (p: Seq<int>)
    ensures
        ascending(p),
        forall|i: int| #[trigger]
            p.contains(i) <==> 0 <= i < raw.len() && trimmed(spoken(raw[i].text@)).len() > 0,
        collected(raw).len() == p.len(),
        forall|k: int|
            0 <= k < p.len() ==> {
                let piece = #[trigger] collected(raw)[k];
                let source = raw[p[k]];
                &&& piece.text == trimmed(spoken(source.text@))
                &&& i64::MIN <= source.start_cs * 10_000_000 <= i64::MAX ==> piece.start_ns
                    == source.start_cs * 10_000_000
                &&& i64::MIN <= source.end_cs * 10_000_000 <= i64::MAX ==> piece.end_ns
                    == source.end_cs * 10_000_000
                &&& piece.confidence is None
                &&& piece.channel is None
            },
{
    assert(raw.take(raw.len() as int) =~= raw);
    lemma_collected(raw, raw.len() as int)
}

/// A text is dropped only where nothing of it is left, and that is where all that is outside
/// remarks is white space.
pub proof fn law_only_silence_is_dropped(s: Seq<char>)
    ensures
        trimmed(spoken(s)).len() == 0 <==> forall|i: int|
            0 <= i < s.len() && #[trigger] s[i] != '[' && s[i] != '(' && !in_remark(s, i)
                ==> is_white(s[i]),
{
    let p = law_exactly_what_is_outside_remarks_is_spoken(s);
    let ends = law_trimming_takes_white_space_from_the_ends(spoken(s));
    let said = spoken(s);
    if trimmed(said).len() == 0 {
        assert forall|i: int|
            0 <= i < s.len() && #[trigger] s[i] != '[' && s[i] != '(' && !in_remark(
                s,
                i,
            ) implies is_white(s[i]) by {
            assert(p.contains(i));
            let k = choose|k: int| 0 <= k < p.len() && p[k] == i;
            assert(said[k] == s[i]);
        }
    } else if forall|i: int|
        0 <= i < s.len() && #[trigger] s[i] != '[' && s[i] != '(' && !in_remark(s, i) ==> is_white(
            s[i],
        ) {
        assert forall|k: int| 0 <= k < said.len() implies is_white(#[trigger] said[k]) by {
            assert(p.contains(p[k]));
        }
    }
}

/// The channels of stereo samples: of each pair the first is on the left and the second on the
/// right, and every whole pair counts.
pub proof fn law_the_first_of_a_pair_is_on_the_left<T>(samples: Seq<T>, i: int)
    requires
        0 <= i,
        2 * i + 1 < samples.len(),
    ensures
        i < left_of(samples).len() == right_of(samples).len(),
        left_of(samples)[i] == samples[2 * i],
        right_of(samples)[i] == samples[2 * i + 1],
        2 * left_of(samples).len() <= samples.len() < 2 * left_of(samples).len() + 2,
{
}

} // verus!
