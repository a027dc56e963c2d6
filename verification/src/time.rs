//! Frame indices and timestamps.

use vstd::arithmetic::div_mod::{
    lemma_div_is_ordered, lemma_fundamental_div_mod, lemma_fundamental_div_mod_converse,
};
use vstd::prelude::*;

verus! {

/// The sample rate taken for a track that does not tell its own.
pub const DEFAULT_SAMPLE_RATE: u32 = 44100;

/// The length of one timestamp tick: `numer / denom` seconds, neither of the two zero.
#[derive(Debug, Clone, Copy)]
pub struct TimeBase {
    numer: u32,
    denom: u32,
}

impl TimeBase {
    pub closed spec fn numer(self) -> nat {
        self.numer as nat
    }

    pub closed spec fn denom(self) -> nat {
        self.denom as nat
    }

    #[verifier::type_invariant]
    pub open spec fn valid(self) -> bool {
        &&& 0 < self.numer() <= u32::MAX
        &&& 0 < self.denom() <= u32::MAX
    }

    /// The timebase of `numer / denom` seconds, unless one of the two is zero.
    pub fn try_new(numer: u32, denom: u32) -> (time_base: Option<TimeBase>)
        ensures
            time_base is Some <==> numer != 0 && denom != 0,
            time_base matches Some(tb) ==> tb.numer() == numer && tb.denom() == denom,
    {
        if numer == 0 || denom == 0 {
            None
        } else {
            Some(TimeBase { numer, denom })
        }
    }
}

/// The sample rate that timestamps are computed with.
pub open spec fn rate_or_default(sample_rate: Option<u32>) -> nat {
    match sample_rate {
        Some(rate) => rate as nat,
        None => DEFAULT_SAMPLE_RATE as nat,
    }
}

/// `a / n`, rounded to the nearest integer, and upwards from halfway between two.
pub open spec fn nearest(a: nat, n: nat) -> nat {
    ((2 * a + n) / (2 * n)) as nat
}

/// The number of timebase ticks that `frame` frames last, rounded to the nearest tick. Without a
/// timebase a tick is a frame. A sample rate of zero counts as one.
pub open spec fn frame_ticks(frame: nat, sample_rate: nat, time_base: Option<TimeBase>) -> nat {
    match time_base {
        Some(tb) => {
            let rate = if sample_rate == 0 { 1 } else { sample_rate };
            nearest(frame * tb.denom(), tb.numer() * rate)
        },
        None => frame,
    }
}

/// The timestamp at which `frame` begins, or the last timestamp there is if that is too late to
/// be written as one.
pub open spec fn frame_timestamp(frame: nat, sample_rate: nat, time_base: Option<TimeBase>) -> int {
    let ticks = frame_ticks(frame, sample_rate, time_base);
    if ticks <= i64::MAX {
        ticks as int
    } else {
        i64::MAX as int
    }
}

/// Converts an audio-frame index into a timestamp in the track's timebase units.
///
/// One audio frame lasts `1 / sample_rate` seconds and one timebase tick lasts `numer / denom`
/// seconds, so one frame is `denom / (numer * sample_rate)` ticks. For the usual audio timebase
/// of `1 / sample_rate` this is exactly `frame`. The division is rounded to the nearest tick.
pub fn frame_to_ts(frame: u64, sample_rate: u32, time_base: Option<TimeBase>) -> (ts: i64)
    ensures
        ts == frame_timestamp(frame as nat, sample_rate as nat, time_base),
{
    let ticks: u128 = match time_base {
        Some(tb) => {
            proof {
                use_type_invariant(&tb);
            }
            let rate: u32 = if sample_rate == 0 {
                1
            } else {
                sample_rate
            };
            assert(0 < tb.numer * rate <= u32::MAX * u32::MAX) by (nonlinear_arith)
                requires
                    0 < tb.numer <= u32::MAX,
                    0 < rate <= u32::MAX,
            ;
            assert(0 <= frame * tb.denom <= u64::MAX * u32::MAX) by (nonlinear_arith)
                requires
                    0 < tb.denom <= u32::MAX,
                    0 <= frame <= u64::MAX,
            ;
            let numer: u128 = tb.numer as u128 * rate as u128;
            let denom: u128 = tb.denom as u128;
            proof {
                lemma_nearest_by_half(frame as nat * tb.denom as nat, numer as nat);
            }
            (frame as u128 * denom + numer / 2) / numer
        },
        // Without a timebase, assume one tick per audio frame.
        None => frame as u128,
    };

    if ticks <= i64::MAX as u128 {
        ticks as i64
    } else {
        i64::MAX
    }
}

/// The number of audio frames that `ts` ticks last, rounded to the nearest frame. Without a
/// timebase a tick is a frame. A sample rate of zero counts as one.
pub open spec fn timestamp_frame(ts: nat, sample_rate: nat, time_base: Option<TimeBase>) -> nat {
    match time_base {
        Some(tb) => {
            let rate = if sample_rate == 0 { 1 } else { sample_rate };
            nearest(ts * (tb.numer() * rate), tb.denom())
        },
        None => ts,
    }
}

/// Converts a timestamp in the track's timebase units into the index of the audio frame that is
/// nearest to it, or the last index there is if it is too large to be written as one.
pub fn ts_to_frame(ts: i64, sample_rate: u32, time_base: Option<TimeBase>) -> (frame: u64)
    requires
        ts >= 0,
    ensures
        ({
            let exact = timestamp_frame(ts as nat, sample_rate as nat, time_base);
            frame == if exact <= u64::MAX {
                exact
            } else {
                u64::MAX as nat
            }
        }),
{
    ticks_to_frames(ts as u64, sample_rate, time_base)
}

/// The same for a number of ticks that may be one more than the last timestamp.
fn ticks_to_frames(ticks: u64, sample_rate: u32, time_base: Option<TimeBase>) -> (frames: u64)
    requires
        ticks <= i64::MAX + 1,
    ensures
        ({
            let exact = timestamp_frame(ticks as nat, sample_rate as nat, time_base);
            frames == if exact <= u64::MAX {
                exact
            } else {
                u64::MAX as nat
            }
        }),
{
    let frames: u128 = match time_base {
        Some(tb) => {
            proof {
                use_type_invariant(&tb);
            }
            let rate: u32 = if sample_rate == 0 {
                1
            } else {
                sample_rate
            };
            assert(0 < tb.numer * rate <= u32::MAX * u32::MAX) by (nonlinear_arith)
                requires
                    0 < tb.numer <= u32::MAX,
                    0 < rate <= u32::MAX,
            ;
            let numer: u128 = tb.numer as u128 * rate as u128;
            let denom: u128 = tb.denom as u128;
            assert(0 <= ticks * numer <= (i64::MAX + 1) * (u32::MAX * u32::MAX))
                by (nonlinear_arith)
                requires
                    0 <= ticks <= i64::MAX + 1,
                    0 <= numer <= u32::MAX * u32::MAX,
            ;
            proof {
                lemma_nearest_by_half(ticks as nat * numer as nat, denom as nat);
            }
            (ticks as u128 * numer + denom / 2) / denom
        },
        // Without a timebase, assume one tick per audio frame.
        None => ticks as u128,
    };

    if frames <= u64::MAX as u128 {
        frames as u64
    } else {
        u64::MAX
    }
}

/// The frame that is nearest to timestamp `ts`. Before the begin of the track frames are counted
/// backwards.
pub open spec fn timestamp_position(ts: int, sample_rate: nat, time_base: Option<TimeBase>) -> int {
    if ts >= 0 {
        timestamp_frame(ts as nat, sample_rate, time_base) as int
    } else {
        -timestamp_frame((-ts) as nat, sample_rate, time_base)
    }
}

/// The number of frames from timestamp `ts` to the begin of `frame`: none if the timestamp is the
/// later of the two, and the largest number of frames there is if there are more.
pub open spec fn frames_between(
    ts: int,
    frame: nat,
    sample_rate: nat,
    time_base: Option<TimeBase>,
) -> nat {
    let n = frame - timestamp_position(ts, sample_rate, time_base);
    if n < 0 {
        0
    } else if n <= usize::MAX {
        n as nat
    } else {
        usize::MAX as nat
    }
}

/// Counts the frames from timestamp `ts` to the begin of `frame`.
pub fn count_frames_between(
    ts: i64,
    frame: usize,
    sample_rate: u32,
    time_base: Option<TimeBase>,
) -> (n: usize)
    ensures
        n == frames_between(ts as int, frame as nat, sample_rate as nat, time_base),
{
    if ts >= 0 {
        let begin: u64 = ts_to_frame(ts, sample_rate, time_base);
        if begin < frame as u64 {
            (frame as u64 - begin) as usize
        } else {
            0
        }
    } else {
        let ticks: u64 = (-(ts + 1)) as u64 + 1;
        let early: u64 = ticks_to_frames(ticks, sample_rate, time_base);
        let n: u128 = frame as u128 + early as u128;
        if n <= usize::MAX as u128 {
            n as usize
        } else {
            usize::MAX
        }
    }
}

/// Adding half the divisor before a division rounds to the nearest.
proof fn lemma_nearest_by_half(a: nat, n: nat)
    requires
        n > 0,
    ensures
        nearest(a, n) == (a + n / 2) / n,
{
    let q = nearest(a, n) as int;
    lemma_nearest_bounds(a, n);
    let half = (n / 2) as int;
    let r = a + half - q * n;
    assert(0 <= r < n) by {
        assert(2 * (q * n) == (2 * n) * q) by (nonlinear_arith);
    }
    lemma_fundamental_div_mod_converse(a + half, n as int, q, r);
}

/// `nearest` is at most half a unit away from the exact quotient.
pub proof fn lemma_nearest_bounds(a: nat, n: nat)
    requires
        n > 0,
    ensures
        2 * a - n < 2 * (nearest(a, n) * n) <= 2 * a + n,
{
    let q = nearest(a, n) as int;
    let m = 2 * n as int;
    lemma_fundamental_div_mod(2 * a + n as int, m);
    assert(m * q == 2 * (q * n)) by (nonlinear_arith)
        requires
            m == 2 * n,
    ;
}

/// One timebase tick lasts as long as one audio frame: there is no timebase, or it is the
/// reciprocal of the sample rate.
pub open spec fn tick_per_frame(sample_rate: nat, time_base: Option<TimeBase>) -> bool {
    time_base matches Some(tb) ==> tb.valid() && tb.denom() == tb.numer() * sample_rate
}

/// Where one tick lasts as long as one frame, the timestamp of a frame is its index.
pub proof fn lemma_frame_timestamp_exact(
    frame: nat,
    sample_rate: nat,
    time_base: Option<TimeBase>,
)
    requires
        tick_per_frame(sample_rate, time_base),
        frame <= i64::MAX,
    ensures
        frame_timestamp(frame, sample_rate, time_base) == frame,
{
    if let Some(tb) = time_base {
        let n = tb.denom();
        if sample_rate == 0 {
            assert(tb.numer() * sample_rate == 0) by (nonlinear_arith)
                requires
                    sample_rate == 0,
            ;
        }
        lemma_nearest_exact(frame, n);
    }
}

/// A timestamp is at most half a tick away from the begin of its frame, unless that is too late to
/// be written as a timestamp.
pub proof fn lemma_frame_timestamp_nearest(frame: nat, sample_rate: nat, time_base: TimeBase)
    requires
        time_base.valid(),
        frame_ticks(frame, sample_rate, Some(time_base)) <= i64::MAX,
    ensures
        ({
            let rate: nat = if sample_rate == 0 { 1 } else { sample_rate };
            let begin = frame * time_base.denom();
            let tick = time_base.numer() * rate;
            let ts = frame_timestamp(frame, sample_rate, Some(time_base));
            2 * begin - tick < 2 * (ts * tick) <= 2 * begin + tick
        }),
{
    let rate: nat = if sample_rate == 0 { 1 } else { sample_rate };
    let tick = time_base.numer() * rate;
    assert(tick > 0) by (nonlinear_arith)
        requires
            tick == time_base.numer() * rate,
            time_base.numer() > 0,
            rate > 0,
    ;
    lemma_nearest_bounds(frame * time_base.denom(), tick);
}

/// A later frame has no earlier timestamp.
pub proof fn lemma_frame_timestamp_monotonic(
    frame: nat,
    later: nat,
    sample_rate: nat,
    time_base: Option<TimeBase>,
)
    requires
        time_base matches Some(tb) ==> tb.valid(),
        frame <= later,
    ensures
        0 <= frame_timestamp(frame, sample_rate, time_base) <= frame_timestamp(
            later,
            sample_rate,
            time_base,
        ) <= i64::MAX,
{
    if let Some(tb) = time_base {
        let rate: nat = if sample_rate == 0 { 1 } else { sample_rate };
        let tick = tb.numer() * rate;
        assert(tick > 0) by (nonlinear_arith)
            requires
                tick == tb.numer() * rate,
                tb.numer() > 0,
                rate > 0,
        ;
        assert(frame * tb.denom() <= later * tb.denom()) by (nonlinear_arith)
            requires
                frame <= later,
        ;
        lemma_div_is_ordered(
            2 * (frame * tb.denom()) + tick as int,
            2 * (later * tb.denom()) + tick as int,
            2 * tick as int,
        );
    }
}

/// A frame is found again from its timestamp wherever a tick is no longer than a frame, and in any
/// timebase if the frame begins just at a tick.
pub proof fn lemma_timestamp_frame_inverse(
    frame: nat,
    sample_rate: nat,
    time_base: Option<TimeBase>,
)
    requires
        time_base matches Some(tb) ==> {
            let rate: nat = if sample_rate == 0 { 1 } else { sample_rate };
            &&& tb.valid()
            &&& tb.numer() * rate <= tb.denom() || (frame * tb.denom()) % (tb.numer() * rate) == 0
        },
    ensures
        timestamp_frame(frame_ticks(frame, sample_rate, time_base), sample_rate, time_base)
            == frame,
{
    if let Some(tb) = time_base {
        let rate: nat = if sample_rate == 0 { 1 } else { sample_rate };
        let n = tb.numer() * rate;
        let d = tb.denom();
        let begin = frame * d;
        assert(n > 0) by (nonlinear_arith)
            requires
                n == tb.numer() * rate,
                tb.numer() > 0,
                rate > 0,
        ;
        let ticks = nearest(begin, n);
        lemma_nearest_bounds(begin, n);
        if begin % n == 0 {
            lemma_nearest_exact(begin / n, n);
            lemma_fundamental_div_mod(begin as int, n as int);
            assert((begin / n) * n == n * (begin / n)) by (nonlinear_arith);
            assert(ticks * n == begin);
        } else if n == d {
            lemma_nearest_exact(frame, n);
        }
        let r = 2 * (ticks * n) + d - frame * (2 * d);
        assert(frame * (2 * d) == 2 * begin) by (nonlinear_arith)
            requires
                begin == frame * d,
        ;
        assert(0 <= r < 2 * d);
        lemma_fundamental_div_mod_converse(
            2 * (ticks * n) + d as int,
            2 * d as int,
            frame as int,
            r as int,
        );
    }
}

/// The frame that is found from the timestamp of a frame is at most half a tick and half a frame
/// away from it.
pub proof fn lemma_timestamp_frame_nearest(frame: nat, sample_rate: nat, time_base: TimeBase)
    requires
        time_base.valid(),
    ensures
        ({
            let rate: nat = if sample_rate == 0 { 1 } else { sample_rate };
            let tick = time_base.numer() * rate;
            let d = time_base.denom();
            let found = timestamp_frame(
                frame_ticks(frame, sample_rate, Some(time_base)),
                sample_rate,
                Some(time_base),
            );
            -(tick + d) < 2 * ((found - frame) * d) <= tick + d
        }),
{
    let rate: nat = if sample_rate == 0 { 1 } else { sample_rate };
    let tick = time_base.numer() * rate;
    let d = time_base.denom();
    assert(tick > 0) by (nonlinear_arith)
        requires
            tick == time_base.numer() * rate,
            time_base.numer() > 0,
            rate > 0,
    ;
    let ticks = frame_ticks(frame, sample_rate, Some(time_base));
    let found = timestamp_frame(ticks, sample_rate, Some(time_base));
    lemma_nearest_bounds(frame * d, tick);
    lemma_nearest_bounds(ticks * tick, d);
    assert((found - frame) * d == found * d - frame * d) by (nonlinear_arith);
}

/// A quotient that is an integer is not rounded.
proof fn lemma_nearest_exact(q: nat, n: nat)
    requires
        n > 0,
    ensures
        nearest(q * n, n) == q,
{
    assert(2 * (q * n) + n == q * (2 * n) + n) by (nonlinear_arith);
    lemma_fundamental_div_mod_converse(
        2 * (q * n) + n as int,
        2 * n as int,
        q as int,
        n as int,
    );
}

} // verus!
