//! Capturing a call: where the two channels come from, and how they are brought together.

use vstd::prelude::*;

use crate::text::same;
use crate::transcribe::{left_of, right_of};

verus! {

/// The sample rate of a recording, in samples a second.
pub const TARGET_SR: u32 = 16_000;

/// Where the loopback channel comes from.
#[derive(Debug)]
pub enum LoopbackSource {
    /// What an output device plays: the one of this name, or the default one.
    Device { name: Option<String> },
    /// What a process and those that it has started play.
    Process { pid: u32, label: String },
}

impl Default for LoopbackSource {
    /// The default output device.
    fn default() -> (r: Self)
        ensures
            r == (LoopbackSource::Device { name: None }),
    {
        LoopbackSource::Device { name: None }
    }
}

/// The devices to capture from.
#[derive(Debug)]
pub struct CaptureDevices {
    /// The name of the microphone; the default input device where there is none.
    pub mic_name: Option<String>,
    /// Where the loopback channel comes from.
    pub loopback: LoopbackSource,
}

impl Default for CaptureDevices {
    /// The default input and output devices.
    fn default() -> (r: Self)
        ensures
            r.mic_name is None,
            r.loopback == (LoopbackSource::Device { name: None }),
    {
        CaptureDevices { mic_name: None, loopback: LoopbackSource::Device { name: None } }
    }
}

/// Which device to open.
#[derive(Debug, Clone, Copy, PartialEq, Eq, Structural)]
pub enum DeviceChoice {
    /// The device at this position of the list.
    Listed(usize),
    /// The default device, as none was asked for.
    Default,
    /// The default device, as the one that was asked for is not on the list.
    Fallback,
}

/// Whether the device at position `i` of the list has this name.
pub open spec fn has_name(listed: Seq<Option<String>>, i: int, name: Seq<char>) -> bool {
    listed[i] matches Some(n) && n@ == name
}

/// Chooses the first device on the list that has the wanted name, and the default device where
/// there is none or none is wanted. A device whose name cannot be read is listed without one.
pub fn pick_device(listed: &Vec<Option<String>>, wanted: &Option<String>) -> (r: DeviceChoice)
    ensures
        match wanted {
            None => r == DeviceChoice::Default,
            Some(name) => match r {
                DeviceChoice::Listed(i) => {
                    &&& i < listed@.len()
                    &&& has_name(listed@, i as int, name@)
                    &&& forall|k: int| 0 <= k < i ==> !has_name(listed@, k, name@)
                },
                DeviceChoice::Default => false,
                DeviceChoice::Fallback => forall|k: int|
                    0 <= k < listed@.len() ==> !has_name(listed@, k, name@),
            },
        },
{
    match wanted {
        None => DeviceChoice::Default,
        Some(name) => {
            let mut i: usize = 0;
            while i < listed.len()
                invariant
                    i <= listed@.len(),
                    *wanted == Some(*name),
                    forall|k: int| 0 <= k < i ==> !has_name(listed@, k, name@),
                decreases listed@.len() - i,
            {
                match &listed[i] {
                    Some(n) => {
                        if same(n.as_str(), name.as_str()) {
                            return DeviceChoice::Listed(i);
                        }
                    },
                    None => {},
                }
                i = i + 1;
            }
            DeviceChoice::Fallback
        },
    }
}

/// The samples of two channels of the same length, one of each in turn.
pub open spec fn interleaved<T>(left: Seq<T>, right: Seq<T>) -> Seq<T> {
    Seq::new(
        2 * left.len(),
        |i: int|
            if i % 2 == 0 {
                left[i / 2]
            } else {
                right[i / 2]
            },
    )
}

/// The lesser of two lengths.
pub open spec fn shorter(a: nat, b: nat) -> nat {
    if a < b {
        a
    } else {
        b
    }
}

/// Removes and returns the first `n` elements.
fn take_front<T: Copy>(v: &mut Vec<T>, n: usize) -> (r: Vec<T>)
    requires
        n <= old(v)@.len(),
    ensures
        r@ == old(v)@.take(n as int),
        final(v)@ == old(v)@.skip(n as int),
{
    let ghost all = v@;
    let mut front: Vec<T> = Vec::new();
    let mut rest: Vec<T> = Vec::new();
    let mut i: usize = 0;
    while i < v.len()
        invariant
            i <= all.len(),
            n <= all.len(),
            v@ == all,
            i <= n ==> front@ == all.take(i as int) && rest@ == Seq::<T>::empty(),
            i > n ==> front@ == all.take(n as int) && rest@ == all.subrange(n as int, i as int),
        decreases all.len() - i,
    {
        let x: T = v[i];
        if i < n {
            front.push(x);
        } else {
            rest.push(x);
        }
        i = i + 1;
    }
    assert(rest@ =~= all.skip(n as int));
    assert(front@ =~= all.take(n as int));
    *v = rest;
    front
}

/// Takes from the two channel buffers as many samples as both have, and returns them
/// interleaved, the microphone on the left. What one buffer has more stays in it.
pub fn take_frames<T: Copy>(mic: &mut Vec<T>, loopback: &mut Vec<T>) -> (r: Vec<T>)
    requires
        old(mic)@.len() <= usize::MAX / 2,
    ensures
        ({
            let n = shorter(old(mic)@.len(), old(loopback)@.len()) as int;
            &&& r@ == interleaved(old(mic)@.take(n), old(loopback)@.take(n))
            &&& final(mic)@ == old(mic)@.skip(n)
            &&& final(loopback)@ == old(loopback)@.skip(n)
        }),
{
    let n: usize = if mic.len() < loopback.len() {
        mic.len()
    } else {
        loopback.len()
    };
    let left = take_front(mic, n);
    let right = take_front(loopback, n);
    let mut out: Vec<T> = Vec::new();
    let mut i: usize = 0;
    while i < n
        invariant
            i <= n == left@.len() == right@.len(),
            n <= usize::MAX / 2,
            out@.len() == 2 * i,
            forall|k: int|
                0 <= k < 2 * i ==> #[trigger] out@[k] == interleaved(left@, right@)[k],
        decreases n - i,
    {
        out.push(left[i]);
        out.push(right[i]);
        i = i + 1;
    }
    assert(out@ =~= interleaved(left@, right@));
    out
}

/// The two channels of what was interleaved are the two channels that were given.
pub proof fn law_channels_are_read_back<T>(left: Seq<T>, right: Seq<T>)
    requires
        left.len() == right.len(),
    ensures
        left_of(interleaved(left, right)) == left,
        right_of(interleaved(left, right)) == right,
{
    assert(left_of(interleaved(left, right)) =~= left);
    assert(right_of(interleaved(left, right)) =~= right);
}

/// No sample is lost or moved between buffers: what was taken from a channel and what stays are
/// together what was there.
pub proof fn law_no_sample_is_lost<T>(mic: Seq<T>, loopback: Seq<T>)
    ensures
        ({
            let n = shorter(mic.len(), loopback.len()) as int;
            let frames = interleaved(mic.take(n), loopback.take(n));
            &&& left_of(frames) + mic.skip(n) == mic
            &&& right_of(frames) + loopback.skip(n) == loopback
        }),
{
    let n = shorter(mic.len(), loopback.len()) as int;
    law_channels_are_read_back(mic.take(n), loopback.take(n));
    assert(mic.take(n) + mic.skip(n) =~= mic);
    assert(loopback.take(n) + loopback.skip(n) =~= loopback);
}

/// A capture under way: what has been written, and what is in the buffers of the two channels.
#[verifier::ext_equal]
pub struct CaptureFlow<T> {
    pub written: Seq<T>,
    pub mic: Seq<T>,
    pub loopback: Seq<T>,
}

/// The capture after samples have come in on both channels, and the frames that both have then
/// have been taken and written.
pub open spec fn drained<T>(
    f: CaptureFlow<T>,
    mic_samples: Seq<T>,
    loopback_samples: Seq<T>,
) -> CaptureFlow<T> {
    let mic = f.mic + mic_samples;
    let loopback = f.loopback + loopback_samples;
    let n = shorter(mic.len(), loopback.len()) as int;
    CaptureFlow {
        written: f.written + interleaved(mic.take(n), loopback.take(n)),
        mic: mic.skip(n),
        loopback: loopback.skip(n),
    }
}

/// A capture from its start, where frames have been taken as often as samples have come in:
/// `mic[i]` and `loopback[i]` are those that came in before they were taken for the time after
/// `i` others.
pub open spec fn captured<T>(mic: Seq<Seq<T>>, loopback: Seq<Seq<T>>) -> CaptureFlow<T>
    decreases mic.len(),
{
    if mic.len() == 0 {
        CaptureFlow {
            written: Seq::<T>::empty(),
            mic: Seq::<T>::empty(),
            loopback: Seq::<T>::empty(),
        }
    } else {
        drained(captured(mic.drop_last(), loopback.drop_last()), mic.last(), loopback.last())
    }
}

/// All samples of a channel, in the order in which they came in.
pub open spec fn stream<T>(samples: Seq<Seq<T>>) -> Seq<T>
    decreases samples.len(),
{
    if samples.len() == 0 {
        Seq::<T>::empty()
    } else {
        stream(samples.drop_last()) + samples.last()
    }
}

proof fn lemma_interleaved_pieces<T>(a: Seq<T>, b: Seq<T>, c: Seq<T>, d: Seq<T>)
    requires
        a.len() == b.len(),
        c.len() == d.len(),
    ensures
        interleaved(a, b) + interleaved(c, d) == interleaved(a + c, b + d),
{
    let whole = interleaved(a + c, b + d);
    let pieces = interleaved(a, b) + interleaved(c, d);
    assert forall|i: int| 0 <= i < whole.len() implies pieces[i] == whole[i] by {
        if i >= 2 * a.len() {
            assert((i - 2 * a.len()) / 2 == i / 2 - a.len());
            assert((i - 2 * a.len()) % 2 == i % 2);
        }
    }
    assert(pieces =~= whole);
}

/// Whenever frames have been taken, however often and whatever came in in between, all samples
/// that both channels have are written, interleaved and in order, and what one channel has more
/// is in its buffer: nothing is lost, doubled or moved against the other channel.
pub proof fn law_a_capture_loses_nothing<T>(mic: Seq<Seq<T>>, loopback: Seq<Seq<T>>)
    requires
        mic.len() == loopback.len(),
    ensures
        ({
            let f = captured(mic, loopback);
            let k = shorter(stream(mic).len(), stream(loopback).len()) as int;
            &&& f.written == interleaved(stream(mic).take(k), stream(loopback).take(k))
            &&& f.mic == stream(mic).skip(k)
            &&& f.loopback == stream(loopback).skip(k)
        }),
    decreases mic.len(),
{
    let f = captured(mic, loopback);
    let left = stream(mic);
    let right = stream(loopback);
    let k = shorter(left.len(), right.len()) as int;
    if mic.len() == 0 {
        assert(f.written =~= interleaved(left.take(k), right.take(k)));
        assert(f.mic =~= left.skip(k));
        assert(f.loopback =~= right.skip(k));
    } else {
        law_a_capture_loses_nothing(mic.drop_last(), loopback.drop_last());
        let before = captured(mic.drop_last(), loopback.drop_last());
        let l = stream(mic.drop_last());
        let r = stream(loopback.drop_last());
        let j = shorter(l.len(), r.len()) as int;
        let m = before.mic + mic.last();
        let p = before.loopback + loopback.last();
        let n = shorter(m.len(), p.len()) as int;
        assert(m =~= left.skip(j));
        assert(p =~= right.skip(j));
        assert(n == k - j);
        lemma_interleaved_pieces(l.take(j), r.take(j), m.take(n), p.take(n));
        assert(l.take(j) + m.take(n) =~= left.take(k));
        assert(r.take(j) + p.take(n) =~= right.take(k));
        assert(f.mic =~= left.skip(k));
        assert(f.loopback =~= right.skip(k));
    }
}

/// The microphone is on the left and the other side on the right, sample by sample.
pub proof fn law_the_microphone_is_on_the_left<T>(left: Seq<T>, right: Seq<T>, i: int)
    requires
        left.len() == right.len(),
        0 <= i < left.len(),
    ensures
        interleaved(left, right).len() == left.len() + right.len(),
        interleaved(left, right)[2 * i] == left[i],
        interleaved(left, right)[2 * i + 1] == right[i],
{
}

/// Frames are taken until one of the channels has no samples left.
pub proof fn law_frames_are_taken_while_both_have_samples<T>(
    f: CaptureFlow<T>,
    mic_samples: Seq<T>,
    loopback_samples: Seq<T>,
)
    ensures
        ({
            let g = drained(f, mic_samples, loopback_samples);
            &&& g.mic.len() == 0 || g.loopback.len() == 0
            &&& f.written.is_prefix_of(g.written)
            &&& g.written.len() - f.written.len() == 2 * (f.mic.len() + mic_samples.len()
                - g.mic.len())
            &&& g.written.len() - f.written.len() == 2 * (f.loopback.len() + loopback_samples.len()
                - g.loopback.len())
        }),
{
    let g = drained(f, mic_samples, loopback_samples);
    assert(f.written =~= g.written.take(f.written.len() as int));
}

/// A device is known by its whole name, letter by letter, and one without a name by none.
pub proof fn law_a_device_is_known_by_its_whole_name(
    listed: Seq<Option<String>>,
    i: int,
    name: Seq<char>,
)
    ensures
        has_name(listed, i, name) <==> listed[i] is Some && listed[i].unwrap()@.len() == name.len()
            && forall|k: int|
            0 <= k < name.len() ==> #[trigger] listed[i].unwrap()@[k] == name[k],
{
    if listed[i] is Some {
        let n = listed[i].unwrap()@;
        if n.len() == name.len() && forall|k: int|
            0 <= k < name.len() ==> #[trigger] listed[i].unwrap()@[k] == name[k] {
            assert(n =~= name);
        }
    }
}

} // verus!
