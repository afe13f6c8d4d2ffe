//! Live transcription: the buffer of what was captured so far, which of the pieces that a window
//! yields are new, and what is done when a window is there, a transcription ends or fails, and the
//! run is stopped.

use vstd::prelude::*;

use crate::selection::{ascending, lemma_position_added};
use crate::time::{add_times, clamp_time, clamped, SECOND_NS};
use crate::transcribe::{pieces, Piece, TranscribedSegment};

verus! {

/// How often a window is transcribed, in seconds.
pub const LIVE_WINDOW_SECONDS: u64 = 8;

/// How far a window reaches back into the one before, in seconds.
pub const LIVE_OVERLAP_SECONDS: u64 = 2;

/// How many seconds of the past a window holds, with its overlap.
pub const LIVE_SPAN_SECONDS: u64 = LIVE_WINDOW_SECONDS + LIVE_OVERLAP_SECONDS;

/// The samples captured so far.
#[derive(Debug)]
pub struct LiveBuffer<T> {
    samples: Vec<T>,
    sample_rate: u32,
}

impl<T> View for LiveBuffer<T> {
    type V = Seq<T>;

    closed spec fn view(&self) -> Seq<T> {
        self.samples@
    }
}

/// The last `n` elements of `s`, or all where there are fewer.
pub open spec fn last_of<T>(s: Seq<T>, n: int) -> Seq<T> {
    if n < s.len() {
        s.skip(s.len() - n)
    } else {
        s
    }
}

impl<T: Copy> LiveBuffer<T> {
    /// The sample rate, in samples a second.
    pub closed spec fn rate(&self) -> u32 {
        self.sample_rate
    }

    /// A buffer without samples.
    pub fn new(sample_rate: u32) -> (r: Self)
        ensures
            r@ == Seq::<T>::empty(),
            r.rate() == sample_rate,
    {
        LiveBuffer { samples: Vec::new(), sample_rate }
    }

    /// The sample rate, in samples a second.
    pub fn sample_rate(&self) -> (r: u32)
        ensures
            r == self.rate(),
    {
        self.sample_rate
    }

    /// Appends samples.
    pub fn push(&mut self, samples: &[T])
        ensures
            final(self)@ == old(self)@ + samples@,
            final(self).rate() == old(self).rate(),
    {
        let ghost before = self@;
        let mut i: usize = 0;
        assert(samples@.take(0) =~= Seq::<T>::empty());
        while i < samples.len()
            invariant
                i <= samples@.len(),
                self@ == before + samples@.take(i as int),
                self.rate() == old(self).rate(),
            decreases samples@.len() - i,
        {
            self.samples.push(samples[i]);
            i = i + 1;
            assert(self@ =~= before + samples@.take(i as int));
        }
        assert(samples@.take(samples@.len() as int) =~= samples@);
    }

    /// The samples of the last seconds, or all where there are fewer.
    pub fn take_recent(&self, seconds: u64) -> (r: Vec<T>)
        requires
            seconds * self.rate() <= usize::MAX,
        ensures
            r@ == last_of(self@, seconds * self.rate()),
    {
        let want: u128 = seconds as u128 * self.sample_rate as u128;
        let len: usize = self.samples.len();
        let start: usize = if (len as u128) < want {
            0
        } else {
            len - want as usize
        };
        let mut r: Vec<T> = Vec::new();
        let mut i: usize = start;
        while i < len
            invariant
                start <= i <= len == self@.len(),
                r@ == self@.subrange(start as int, i as int),
            decreases len - i,
        {
            r.push(self.samples[i]);
            i = i + 1;
        }
        assert(r@ =~= last_of(self@, want as int));
        r
    }

    /// How many samples were captured.
    pub fn len_samples(&self) -> (r: usize)
        ensures
            r == self@.len(),
    {
        self.samples.len()
    }
}

/// Where a window begins that ends with sample `total`: the length of a window with its overlap
/// before the end, or at the start.
pub open spec fn window_offset(total: int, sample_rate: int) -> i64 {
    let length = LIVE_SPAN_SECONDS * SECOND_NS;
    let end = total * SECOND_NS / sample_rate;
    clamped(
        if end < length {
            0
        } else {
            end - length
        },
    )
}

/// Where the window begins that ends now, in nanoseconds.
pub fn window_offset_ns(total_samples: usize, sample_rate: u32) -> (r: i64)
    requires
        sample_rate > 0,
    ensures
        r == window_offset(total_samples as int, sample_rate as int),
{
    proof {
        let e = total_samples * SECOND_NS / sample_rate as int;
        assert(0 <= e <= total_samples * SECOND_NS) by (nonlinear_arith)
            requires
                e == total_samples * SECOND_NS / sample_rate as int,
                sample_rate > 0,
        ;
    }
    let end: i128 = total_samples as i128 * SECOND_NS as i128 / sample_rate as i128;
    let length: i128 = LIVE_SPAN_SECONDS as i128 * SECOND_NS as i128;
    if end < length {
        0
    } else {
        clamp_time(end - length)
    }
}

/// A piece that is timed from the start of a window, timed from the start of the recording.
pub open spec fn moved(p: Piece, offset: i64) -> Piece {
    Piece { start_ns: clamped(p.start_ns + offset), end_ns: clamped(p.end_ns + offset), ..p }
}

/// Which pieces of a window are new, where everything up to `last_end` has been shown, and up
/// to where everything has been shown then: a piece is new if it ends later than all before.
pub open spec fn new_pieces(last_end: i64, window: Seq<Piece>, offset: i64) -> (Seq<Piece>, i64)
    decreases window.len(),
{
    if window.len() == 0 {
        (window, last_end)
    } else {
        let (shown, end) = new_pieces(last_end, window.drop_last(), offset);
        let p = moved(window.last(), offset);
        if p.end_ns <= end {
            (shown, end)
        } else {
            (shown.push(p), p.end_ns)
        }
    }
}

/// How far the live transcript has come.
#[derive(Debug)]
pub struct LiveCursor {
    /// The end of the last piece that was shown, in nanoseconds.
    pub last_emit_end_ns: i64,
}

impl LiveCursor {
    /// Nothing has been shown.
    pub fn new() -> (r: Self)
        ensures
            r.last_emit_end_ns == 0,
    {
        LiveCursor { last_emit_end_ns: 0 }
    }

    /// The pieces of a window that are new, timed from the start of the recording.
    pub fn advance(&mut self, window: Vec<TranscribedSegment>, offset_ns: i64) -> (r: Vec<
        TranscribedSegment,
    >)
        ensures
            (pieces(r@), final(self).last_emit_end_ns) == new_pieces(
                old(self).last_emit_end_ns,
                pieces(window@),
                offset_ns,
            ),
    {
        let ghost all = window@;
        let ghost from = self.last_emit_end_ns;
        let mut rest = window;
        let n: usize = rest.len();
        let mut out: Vec<TranscribedSegment> = Vec::new();
        let mut i: usize = 0;
        assert(all.skip(0) =~= all);
        assert(pieces(all.take(0)) =~= Seq::<Piece>::empty());
        assert(pieces(out@) =~= Seq::<Piece>::empty());
        while i < n
            invariant
                i <= n == all.len(),
                rest@ == all.skip(i as int),
                (pieces(out@), self.last_emit_end_ns) == new_pieces(
                    from,
                    pieces(all.take(i as int)),
                    offset_ns,
                ),
            decreases n - i,
        {
            let mut s = rest.remove(0);
            let ghost given = s@;
            assert(given == all[i as int]@);
            assert(rest@ =~= all.skip(i + 1));
            assert(pieces(all.take(i + 1)).drop_last() =~= pieces(all.take(i as int)));
            assert(pieces(all.take(i + 1)).last() == given);
            let start: i64 = add_times(s.start_ns, offset_ns);
            let end: i64 = add_times(s.end_ns, offset_ns);
            if end > self.last_emit_end_ns {
                let ghost before = pieces(out@);
                s.start_ns = start;
                s.end_ns = end;
                self.last_emit_end_ns = end;
                assert(s@ == moved(given, offset_ns));
                out.push(s);
                assert(pieces(out@) =~= before.push(moved(given, offset_ns)));
            }
            i = i + 1;
        }
        assert(all.take(n as int) =~= all);
        out
    }
}

/// What a live run waits for.
#[derive(Debug, Clone, Copy, PartialEq, Eq, Structural)]
pub enum LivePhase {
    /// The next window.
    Waiting,
    /// The transcription of the window that begins at this time.
    Transcribing { offset_ns: i64 },
    /// Nothing: it has been stopped.
    Stopped,
}

/// How far a live run has come.
pub struct LiveState {
    /// The end of the last piece that was shown.
    pub last_end: i64,
    pub phase: LivePhase,
}

/// What happens to a live run.
pub enum LiveEvent {
    /// The time for a window has come, when so many samples have been captured.
    Window { total: int, sample_rate: int },
    /// A window has been transcribed.
    Text { window: Seq<Piece> },
    /// A window could not be transcribed.
    Failure,
    /// The run is stopped.
    Stop,
}

/// How a live run starts: nothing has been shown.
pub open spec fn live_start() -> LiveState {
    LiveState { last_end: 0, phase: LivePhase::Waiting }
}

/// What an event makes of a live run, and what is shown then.
pub open spec fn live_step(s: LiveState, event: LiveEvent) -> (LiveState, Seq<Piece>) {
    let nothing = Seq::<Piece>::empty();
    match (s.phase, event) {
        (LivePhase::Stopped, _) => (s, nothing),
        (_, LiveEvent::Stop) => (LiveState { phase: LivePhase::Stopped, ..s }, nothing),
        (_, LiveEvent::Window { total, sample_rate }) => if total > 0 && sample_rate > 0 {
            let offset_ns = window_offset(total, sample_rate);
            (LiveState { phase: LivePhase::Transcribing { offset_ns }, ..s }, nothing)
        } else {
            (s, nothing)
        },
        (_, LiveEvent::Failure) => (LiveState { phase: LivePhase::Waiting, ..s }, nothing),
        (LivePhase::Waiting, LiveEvent::Text { .. }) => (s, nothing),
        (LivePhase::Transcribing { offset_ns }, LiveEvent::Text { window }) => {
            let (shown, end) = new_pieces(s.last_end, window, offset_ns);
            (LiveState { last_end: end, phase: LivePhase::Waiting }, shown)
        },
    }
}

/// What events make of a live run one after another, and all that is shown.
pub open spec fn live_run(s: LiveState, events: Seq<LiveEvent>) -> (LiveState, Seq<Piece>)
    decreases events.len(),
{
    if events.len() == 0 {
        (s, Seq::<Piece>::empty())
    } else {
        let (before, shown) = live_run(s, events.drop_last());
        let (after, more) = live_step(before, events.last());
        (after, shown + more)
    }
}

/// A live run.
#[derive(Debug)]
pub struct LiveRun {
    cursor: LiveCursor,
    phase: LivePhase,
}

impl View for LiveRun {
    type V = LiveState;

    closed spec fn view(&self) -> LiveState {
        LiveState { last_end: self.cursor.last_emit_end_ns, phase: self.phase }
    }
}

impl LiveRun {
    /// A run of which nothing has been shown.
    pub fn new() -> (r: Self)
        ensures
            r@ == live_start(),
    {
        LiveRun { cursor: LiveCursor::new(), phase: LivePhase::Waiting }
    }

    /// The samples to transcribe when the time for a window has come; none where there are none,
    /// or where the run has been stopped.
    pub fn window<T: Copy>(&mut self, buffer: &LiveBuffer<T>) -> (r: Option<Vec<T>>)
        requires
            LIVE_SPAN_SECONDS * buffer.rate() <= usize::MAX,
        ensures
            final(self)@ == live_step(
                old(self)@,
                LiveEvent::Window { total: buffer@.len() as int, sample_rate: buffer.rate() as int },
            ).0,
            r is None <==> old(self)@.phase == LivePhase::Stopped || buffer@.len() == 0
                || buffer.rate() == 0,
            r matches Some(samples) ==> samples@ == last_of(
                buffer@,
                LIVE_SPAN_SECONDS * buffer.rate(),
            ),
    {
        let total: usize = buffer.len_samples();
        let sample_rate: u32 = buffer.sample_rate();
        match self.phase {
            LivePhase::Stopped => None,
            _ => {
                if total == 0 || sample_rate == 0 {
                    return None;
                }
                let offset_ns: i64 = window_offset_ns(total, sample_rate);
                self.phase = LivePhase::Transcribing { offset_ns };
                Some(buffer.take_recent(LIVE_SPAN_SECONDS))
            },
        }
    }

    /// What to show when the transcription of a window has ended, which is none where it failed.
    pub fn transcribed(&mut self, window: Option<Vec<TranscribedSegment>>) -> (r: Vec<
        TranscribedSegment,
    >)
        ensures
            (final(self)@, pieces(r@)) == live_step(
                old(self)@,
                match window {
                    Some(w) => LiveEvent::Text { window: pieces(w@) },
                    None => LiveEvent::Failure,
                },
            ),
    {
        let nothing: Vec<TranscribedSegment> = Vec::new();
        assert(pieces(nothing@) =~= Seq::<Piece>::empty());
        match self.phase {
            LivePhase::Stopped => nothing,
            LivePhase::Waiting => nothing,
            LivePhase::Transcribing { offset_ns } => {
                self.phase = LivePhase::Waiting;
                match window {
                    Some(w) => self.cursor.advance(w, offset_ns),
                    None => nothing,
                }
            },
        }
    }

    /// Stops the run.
    pub fn stop(&mut self)
        ensures
            (final(self)@, Seq::<Piece>::empty()) == live_step(old(self)@, LiveEvent::Stop),
    {
        self.phase = LivePhase::Stopped;
    }
}

/// What is shown ends later and later, and later than what was shown before: nothing is shown
/// twice.
pub proof fn law_live_text_only_moves_on(last_end: i64, window: Seq<Piece>, offset: i64)
    ensures
        ({
            let (shown, end) = new_pieces(last_end, window, offset);
            &&& end >= last_end
            &&& forall|i: int|
                0 <= i < shown.len() ==> last_end < (#[trigger] shown[i]).end_ns <= end
            &&& forall|i: int, j: int|
                0 <= i < j < shown.len() ==> (#[trigger] shown[i]).end_ns < (
                #[trigger] shown[j]).end_ns
        }),
    decreases window.len(),
{
    if window.len() > 0 {
        law_live_text_only_moves_on(last_end, window.drop_last(), offset);
    }
}

/// A window that is transcribed a second time adds nothing.
pub proof fn law_a_window_is_shown_once(last_end: i64, window: Seq<Piece>, offset: i64)
    ensures
        ({
            let end = new_pieces(last_end, window, offset).1;
            new_pieces(end, window, offset) == (Seq::<Piece>::empty(), end)
        }),
    decreases window.len(),
{
    lemma_nothing_new(new_pieces(last_end, window, offset).1, last_end, window, offset);
}

proof fn lemma_nothing_new(end: i64, last_end: i64, window: Seq<Piece>, offset: i64)
    requires
        end >= new_pieces(last_end, window, offset).1,
    ensures
        new_pieces(end, window, offset) == (Seq::<Piece>::empty(), end),
    decreases window.len(),
{
    if window.len() == 0 {
        assert(window =~= Seq::<Piece>::empty());
    } else {
        lemma_nothing_new(end, last_end, window.drop_last(), offset);
    }
}

/// Over a whole run, whatever happens in it, what is shown ends later and later, and after the
/// start: overlapping windows never show the same again.
pub proof fn law_live_text_rises_over_a_run(events: Seq<LiveEvent>)
    ensures
        ({
            let (s, shown) = live_run(live_start(), events);
            &&& s.last_end >= 0
            &&& forall|i: int|
                0 <= i < shown.len() ==> 0 < (#[trigger] shown[i]).end_ns <= s.last_end
            &&& forall|i: int, j: int|
                0 <= i < j < shown.len() ==> (#[trigger] shown[i]).end_ns < (
                #[trigger] shown[j]).end_ns
        }),
    decreases events.len(),
{
    if events.len() > 0 {
        law_live_text_rises_over_a_run(events.drop_last());
        let (before, shown) = live_run(live_start(), events.drop_last());
        if let (LivePhase::Transcribing { offset_ns }, LiveEvent::Text { window }) = (
            before.phase,
            events.last(),
        ) {
            law_live_text_only_moves_on(before.last_end, window, offset_ns);
        }
        let (after, all) = live_run(live_start(), events);
        let more = live_step(before, events.last()).1;
        assert forall|i: int| 0 <= i < all.len() implies 0 < (#[trigger] all[i]).end_ns
            <= after.last_end by {
            if i >= shown.len() {
                assert(all[i] == more[i - shown.len()]);
            } else {
                assert(all[i] == shown[i]);
            }
        }
        assert forall|i: int, j: int| 0 <= i < j < all.len() implies (#[trigger] all[i]).end_ns < (
        #[trigger] all[j]).end_ns by {
            if i >= shown.len() {
                assert(all[i] == more[i - shown.len()] && all[j] == more[j - shown.len()]);
            } else if j >= shown.len() {
                assert(all[i] == shown[i] && all[j] == more[j - shown.len()]);
            } else {
                assert(all[i] == shown[i] && all[j] == shown[j]);
            }
        }
    }
}

/// Nothing is shown once a run has been stopped, whatever happens then.
pub proof fn law_nothing_is_shown_after_a_stop(before: Seq<LiveEvent>, after: Seq<LiveEvent>)
    ensures
        ({
            let (s, shown) = live_run(live_start(), before.push(LiveEvent::Stop) + after);
            &&& s.phase == LivePhase::Stopped
            &&& shown == live_run(live_start(), before).1
        }),
    decreases after.len(),
{
    let stopped = before.push(LiveEvent::Stop);
    if after.len() == 0 {
        assert(stopped + after =~= stopped);
        assert(stopped.drop_last() =~= before);
        let shown = live_run(live_start(), before).1;
        assert(shown + Seq::<Piece>::empty() =~= shown);
    } else {
        law_nothing_is_shown_after_a_stop(before, after.drop_last());
        assert((stopped + after).drop_last() =~= stopped + after.drop_last());
        let shown = live_run(live_start(), before).1;
        assert(shown + Seq::<Piece>::empty() =~= shown);
    }
}

/// A window that cannot be transcribed shows nothing, and does not end the run: what was shown is
/// as it was, and the next window is transcribed.
pub proof fn law_a_failure_shows_nothing_and_ends_nothing(
    events: Seq<LiveEvent>,
    total: int,
    sample_rate: int,
)
    requires
        live_run(live_start(), events).0.phase != LivePhase::Stopped,
        total > 0,
        sample_rate > 0,
    ensures
        ({
            let (s, shown) = live_run(live_start(), events.push(LiveEvent::Failure));
            &&& shown == live_run(live_start(), events).1
            &&& s.last_end == live_run(live_start(), events).0.last_end
            &&& s.phase == LivePhase::Waiting
            &&& live_step(s, LiveEvent::Window { total, sample_rate }).0.phase
                == (LivePhase::Transcribing { offset_ns: window_offset(total, sample_rate) })
        }),
{
    let failed = events.push(LiveEvent::Failure);
    assert(failed.drop_last() =~= events);
    let shown = live_run(live_start(), events).1;
    assert(shown + Seq::<Piece>::empty() =~= shown);
}

/// When a piece of a window ends, timed from the start of the recording.
pub open spec fn absolute_end(p: Piece, offset: i64) -> int {
    if p.end_ns + offset > i64::MAX {
        i64::MAX as int
    } else if p.end_ns + offset < i64::MIN {
        i64::MIN as int
    } else {
        p.end_ns + offset
    }
}

proof fn lemma_shown(last_end: i64, window: Seq<Piece>, offset: i64, n: int) -> (p: Seq<int>)
    requires
        0 <= n <= window.len(),
    ensures
        ({
            let (shown, end) = new_pieces(last_end, window.take(n), offset);
            &&& ascending(p)
            &&& forall|i: int| #[trigger]
                p.contains(i) <==> 0 <= i < n && absolute_end(window[i], offset) > last_end
                    && forall|j: int|
                    0 <= j < i ==> absolute_end(#[trigger] window[j], offset) < absolute_end(
                        window[i],
                        offset,
                    )
            &&& shown.len() == p.len()
            &&& forall|k: int|
                0 <= k < p.len() ==> #[trigger] shown[k] == (Piece {
                    start_ns: clamped(window[p[k]].start_ns + offset),
                    end_ns: absolute_end(window[p[k]], offset) as i64,
                    ..window[p[k]]
                })
            &&& end >= last_end
            &&& forall|i: int|
                0 <= i < n ==> absolute_end(#[trigger] window[i], offset) <= end
            &&& end == last_end || exists|i: int|
                0 <= i < n && absolute_end(#[trigger] window[i], offset) == end
        }),
    decreases n,
{
    if n == 0 {
        Seq::<int>::empty()
    } else {
        let q = lemma_shown(last_end, window, offset, n - 1);
        assert(window.take(n).drop_last() =~= window.take(n - 1));
        let (before, reached) = new_pieces(last_end, window.take(n - 1), offset);
        let (shown, end) = new_pieces(last_end, window.take(n), offset);
        let last = absolute_end(window[n - 1], offset);
        assert(moved(window[n - 1], offset).end_ns == last);
        if last > reached {
            lemma_position_added(q, n - 1);
            let p = q.push(n - 1);
            assert forall|k: int| 0 <= k < p.len() implies #[trigger] shown[k] == (Piece {
                start_ns: clamped(window[p[k]].start_ns + offset),
                end_ns: absolute_end(window[p[k]], offset) as i64,
                ..window[p[k]]
            }) by {
                if k < q.len() {
                    assert(shown[k] == before[k]);
                }
            }
            p
        } else {
            if reached > last_end {
                let i = choose|i: int|
                    0 <= i < n - 1 && absolute_end(#[trigger] window[i], offset) == reached;
                assert(absolute_end(window[i], offset) >= last);
            }
            q
        }
    }
}

/// Live text is complete: a piece of a window is shown if and only if it ends later than
/// everything before it, in this window and in those before, wherever it starts; its words are
/// shown as they are, timed from the start of the recording. Afterwards everything has been
/// shown up to the latest end there was. The result gives the positions of what is shown.
pub proof fn law_everything_new_is_shown(last_end: i64, window: Seq<Piece>, offset: i64) -> (p: Seq<
    int,
>)
    ensures
        ({
            let (shown, end) = new_pieces(last_end, window, offset);
            &&& ascending(p)
            &&& forall|i: int| #[trigger]
                p.contains(i) <==> 0 <= i < window.len() && absolute_end(window[i], offset)
                    > last_end && forall|j: int|
                    0 <= j < i ==> absolute_end(#[trigger] window[j], offset) < absolute_end(
                        window[i],
                        offset,
                    )
            &&& shown.len() == p.len()
            &&& forall|k: int|
                0 <= k < p.len() ==> (#[trigger] shown[k]).text == window[p[k]].text
                    && shown[k].end_ns == absolute_end(window[p[k]], offset) && (i64::MIN
                    <= window[p[k]].start_ns + offset <= i64::MAX ==> shown[k].start_ns
                    == window[p[k]].start_ns + offset) && shown[k].confidence
                    == window[p[k]].confidence && shown[k].channel == window[p[k]].channel
            &&& end >= last_end
            &&& forall|i: int|
                0 <= i < window.len() ==> absolute_end(#[trigger] window[i], offset) <= end
            &&& end == last_end || exists|i: int|
                0 <= i < window.len() && absolute_end(#[trigger] window[i], offset) == end
        }),
{
    assert(window.take(window.len() as int) =~= window);
    lemma_shown(last_end, window, offset, window.len() as int)
}

/// Over a whole run nothing new is withheld: when a window has been transcribed while the run
/// waits for it, each of its pieces that ends later than everything shown and everything ahead of
/// it is shown now, timed by where the window begins.
pub proof fn law_a_transcribed_window_is_shown(s: LiveState, window: Seq<Piece>, i: int) -> (k: int)
    requires
        s.phase is Transcribing,
        0 <= i < window.len(),
        absolute_end(window[i], s.phase->offset_ns) > s.last_end,
        forall|j: int|
            0 <= j < i ==> absolute_end(#[trigger] window[j], s.phase->offset_ns) < absolute_end(
                window[i],
                s.phase->offset_ns,
            ),
    ensures
        ({
            let (after, shown) = live_step(s, LiveEvent::Text { window });
            &&& 0 <= k < shown.len()
            &&& shown[k].text == window[i].text
            &&& shown[k].end_ns == absolute_end(window[i], s.phase->offset_ns)
            &&& after.last_end >= shown[k].end_ns
            &&& after.phase == LivePhase::Waiting
        }),
{
    let p = law_everything_new_is_shown(s.last_end, window, s.phase->offset_ns);
    assert(p.contains(i));
    choose|k: int| 0 <= k < p.len() && p[k] == i
}

/// A window begins ten seconds before its end, to the nanosecond, or with the recording where
/// that is not as long.
pub proof fn law_a_window_begins_ten_seconds_back(total: int, sample_rate: int)
    requires
        0 <= total <= usize::MAX,
        0 < sample_rate <= u32::MAX,
    ensures
        total < 10 * sample_rate ==> window_offset(total, sample_rate) == 0,
        ({
            let offset = window_offset(total, sample_rate);
            total >= 10 * sample_rate && offset < i64::MAX ==> offset * sample_rate <= (total - 10
                * sample_rate) * 1_000_000_000 < (offset + 1) * sample_rate
        }),
{
    let whole = total * 1_000_000_000;
    let end = whole / sample_rate;
    let part = whole % sample_rate;
    assert(whole == end * sample_rate + part && 0 <= part < sample_rate) by (nonlinear_arith)
        requires
            end == whole / sample_rate,
            part == whole % sample_rate,
            sample_rate > 0,
    ;
    if total < 10 * sample_rate {
        assert(end < 10_000_000_000) by (nonlinear_arith)
            requires
                whole == total * 1_000_000_000,
                total < 10 * sample_rate,
                whole == end * sample_rate + part,
                0 <= part,
                sample_rate > 0,
        ;
    } else {
        assert(end >= 10_000_000_000) by (nonlinear_arith)
            requires
                whole == total * 1_000_000_000,
                total >= 10 * sample_rate,
                whole == end * sample_rate + part,
                part < sample_rate,
                sample_rate > 0,
        ;
        let o = end - 10_000_000_000;
        assert(o * sample_rate <= (total - 10 * sample_rate) * 1_000_000_000 < (o + 1)
            * sample_rate) by (nonlinear_arith)
            requires
                o == end - 10_000_000_000,
                whole == total * 1_000_000_000,
                whole == end * sample_rate + part,
                0 <= part < sample_rate,
        ;
    }
}

/// What is taken of a buffer is its end: as much as is asked for, or all.
pub proof fn law_the_last_samples_are_taken<T>(s: Seq<T>, n: int)
    requires
        n >= 0,
    ensures
        last_of(s, n).len() == if n < s.len() {
            n
        } else {
            s.len() as int
        },
        forall|i: int|
            0 <= i < last_of(s, n).len() ==> #[trigger] last_of(s, n)[i] == s[s.len() - last_of(
                s,
                n,
            ).len() + i],
{
}

/// A run that has not been stopped transcribes every window of which there are samples, also
/// where it still waits for the one before, and nothing is shown or forgotten by that. Text that
/// it does not wait for is not shown, and a stop forgets nothing.
pub proof fn law_every_window_is_transcribed(
    s: LiveState,
    total: int,
    sample_rate: int,
    window: Seq<Piece>,
)
    requires
        s.phase != LivePhase::Stopped,
    ensures
        total > 0 && sample_rate > 0 ==> live_step(s, LiveEvent::Window { total, sample_rate }).0.phase
            == (LivePhase::Transcribing { offset_ns: window_offset(total, sample_rate) }),
        total <= 0 || sample_rate <= 0 ==> live_step(s, LiveEvent::Window { total, sample_rate }).0
            == s,
        live_step(s, LiveEvent::Window { total, sample_rate }).0.last_end == s.last_end,
        live_step(s, LiveEvent::Window { total, sample_rate }).1.len() == 0,
        s.phase == LivePhase::Waiting ==> live_step(s, LiveEvent::Text { window }) == (
            s,
            Seq::<Piece>::empty(),
        ),
        live_step(s, LiveEvent::Stop).0.phase == LivePhase::Stopped,
        live_step(s, LiveEvent::Stop).0.last_end == s.last_end,
        live_step(s, LiveEvent::Stop).1.len() == 0,
{
}

} // verus!
