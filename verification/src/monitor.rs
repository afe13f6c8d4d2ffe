//! The level meters that run while nothing is captured.

use vstd::prelude::*;

verus! {

/// How many frames a level is taken over, about a twentieth of a second.
pub const METER_FRAMES: u64 = 2400;

/// How many frames `samples` interleaved samples of `channels` channels are; an incomplete last
/// frame counts.
pub open spec fn frames_in(samples: int, channels: int) -> int {
    (samples + channels - 1) / channels
}

/// The frames since a level was last shown.
#[derive(Debug)]
pub struct MeterWindow {
    count: u64,
}

impl MeterWindow {
    /// How many frames there are.
    pub closed spec fn frames(&self) -> u64 {
        self.count
    }

    #[verifier::type_invariant]
    spec fn is_short(self) -> bool {
        self.count < METER_FRAMES
    }

    /// No frames yet.
    pub fn new() -> (r: Self)
        ensures
            r.frames() == 0,
    {
        MeterWindow { count: 0 }
    }

    /// Takes note of interleaved samples. If there are frames enough now, returns how many, and
    /// starts over; the level is to be shown then.
    pub fn feed(&mut self, samples: usize, channels: usize) -> (r: Option<u64>)
        requires
            channels > 0,
            samples <= isize::MAX,
        ensures
            ({
                let now = old(self).frames() + frames_in(samples as int, channels as int);
                if now >= METER_FRAMES {
                    r == Some(now as u64) && now <= u64::MAX && final(self).frames() == 0
                } else {
                    r is None && final(self).frames() == now
                }
            }),
    {
        proof {
            use_type_invariant(&*self);
            assert(0 <= frames_in(samples as int, channels as int) <= samples) by (nonlinear_arith)
                requires
                    channels > 0,
                    samples >= 0,
            ;
        }
        let frames: u64 = ((samples as u128 + channels as u128 - 1) / channels as u128) as u64;
        let now: u64 = self.count + frames;
        if now >= METER_FRAMES {
            self.count = 0;
            Some(now)
        } else {
            self.count = now;
            None
        }
    }
}

/// Whether monitoring the levels is to be started: not while a call is captured, which shows
/// them anyway, and not twice.
pub fn starts_monitoring(capturing: bool, monitoring: bool) -> (r: bool)
    ensures
        r == (!capturing && !monitoring),
{
    !capturing && !monitoring
}

/// Frames are whole: as many as hold all samples, the last perhaps not full.
pub proof fn law_frames_hold_all_samples(samples: int, channels: int)
    requires
        samples >= 0,
        channels > 0,
    ensures
        (frames_in(samples, channels) - 1) * channels < samples <= frames_in(samples, channels)
            * channels || (samples == 0 && frames_in(samples, channels) == 0),
{
    let f = frames_in(samples, channels);
    assert(f * channels <= samples + channels - 1 < (f + 1) * channels) by (nonlinear_arith)
        requires
            f == (samples + channels - 1) / channels,
            channels > 0,
    ;
    assert((f - 1) * channels == f * channels - channels) by (nonlinear_arith);
    assert((f + 1) * channels == f * channels + channels) by (nonlinear_arith);
    if samples == 0 {
        assert(f == 0) by (nonlinear_arith)
            requires
                f * channels <= channels - 1 < (f + 1) * channels,
                channels > 0,
        ;
    }
}

} // verus!
