//! How exact the timestamps are that a reader is asked for, and how near to the frame that was
//! asked for a decoder then goes on.
//!
//! A timestamp and a frame are compared in a unit of time that divides both a tick and a frame:
//! `tick_len` of it are a tick, and `frame_len` of it are a frame.

use crate::laws::{
    after, begins_at, block_end, carries, ends, in_step, lemma_decode_reads_file,
    lemma_opened_at_start_frame, lemma_opened_near_start_frame, lemma_seek_is_frame_accurate,
    lemma_seek_is_near, run, stream, upcoming,
};
use crate::open::Opening;
use crate::packet::{Arrival, SeekedTo};
use crate::state::DecoderState;
use crate::time::{
    frame_ticks, frame_timestamp, lemma_nearest_bounds, rate_or_default, timestamp_frame, TimeBase,
};
use vstd::prelude::*;

verus! {

/// How long a tick lasts. A track that does not tell its sample rate is taken to have 44100 frames
/// a second, and one that tells zero to have one.
pub open spec fn tick_len(sample_rate: Option<u32>, time_base: Option<TimeBase>) -> int {
    match time_base {
        Some(tb) => match sample_rate {
            Some(rate) => if rate == 0 {
                tb.numer() as int
            } else {
                tb.numer() * rate
            },
            None => tb.numer() * 44100int,
        },
        None => 1,
    }
}

/// How long a frame lasts.
pub open spec fn frame_len(time_base: Option<TimeBase>) -> int {
    match time_base {
        Some(tb) => tb.denom() as int,
        None => 1,
    }
}

/// Both a tick and a frame last some time.
proof fn lemma_lengths(sample_rate: Option<u32>, time_base: Option<TimeBase>)
    requires
        time_base matches Some(tb) ==> tb.valid(),
    ensures
        tick_len(sample_rate, time_base) > 0,
        frame_len(time_base) > 0,
{
    if let Some(tb) = time_base {
        if let Some(rate) = sample_rate {
            assert(rate > 0 ==> tb.numer() * rate > 0) by (nonlinear_arith)
                requires
                    tb.numer() > 0,
            ;
        }
    }
}

/// Only one integer is the nearest.
proof fn lemma_nearest_is_unique(a: int, b: int, unit: int, x: int)
    requires
        -unit < 2 * (a * unit - x) <= unit,
        -unit < 2 * (b * unit - x) <= unit,
    ensures
        a == b,
{
    assert(a == b) by (nonlinear_arith)
        requires
            -unit < 2 * (a * unit - x) <= unit,
            -unit < 2 * (b * unit - x) <= unit,
    ;
}

/// The ticks that frames last are the nearest number of ticks.
proof fn lemma_ticks_are_nearest(
    frame: nat,
    sample_rate: Option<u32>,
    time_base: Option<TimeBase>,
)
    requires
        time_base matches Some(tb) ==> tb.valid(),
    ensures
        ({
            let tick = tick_len(sample_rate, time_base);
            let ticks = frame_ticks(frame, rate_or_default(sample_rate), time_base);
            -tick < 2 * (ticks * tick - frame * frame_len(time_base)) <= tick
        }),
{
    lemma_lengths(sample_rate, time_base);
    if let Some(tb) = time_base {
        lemma_nearest_bounds(frame * tb.denom(), tick_len(sample_rate, time_base) as nat);
    }
}

/// The timestamp of a frame is the tick that is nearest to its begin, or the later one from halfway
/// between two, and the last one there is if the frame begins after that. It is the index of the
/// frame where one tick lasts one frame.
pub proof fn lemma_timestamp_of_frame(
    frame: nat,
    sample_rate: Option<u32>,
    time_base: Option<TimeBase>,
)
    requires
        time_base matches Some(tb) ==> tb.valid(),
    ensures
        ({
            let ts = frame_timestamp(frame, rate_or_default(sample_rate), time_base);
            let tick = tick_len(sample_rate, time_base);
            let off = ts * tick - frame * frame_len(time_base);
            &&& 0 <= ts <= i64::MAX
            &&& 2 * off <= tick
            &&& ts < i64::MAX ==> -tick < 2 * off
            &&& tick == frame_len(time_base) && frame <= i64::MAX ==> ts == frame
        }),
{
    let ts = frame_timestamp(frame, rate_or_default(sample_rate), time_base);
    let ticks = frame_ticks(frame, rate_or_default(sample_rate), time_base);
    let tick = tick_len(sample_rate, time_base);
    lemma_lengths(sample_rate, time_base);
    lemma_ticks_are_nearest(frame, sample_rate, time_base);
    assert(ts * tick <= ticks * tick) by (nonlinear_arith)
        requires
            ts <= ticks,
            tick > 0,
    ;
    if tick == frame_len(time_base) {
        lemma_nearest_is_unique(ticks as int, frame as int, tick, frame * tick);
    }
}

/// The frame of a timestamp is the nearest one, or the later one from halfway between two.
pub proof fn lemma_frame_of_timestamp(
    ts: nat,
    sample_rate: Option<u32>,
    time_base: Option<TimeBase>,
)
    requires
        time_base matches Some(tb) ==> tb.valid(),
    ensures
        ({
            let frame = timestamp_frame(ts, rate_or_default(sample_rate), time_base);
            let off = frame * frame_len(time_base) - ts * tick_len(sample_rate, time_base);
            -frame_len(time_base) < 2 * off <= frame_len(time_base)
        }),
{
    if let Some(tb) = time_base {
        let tick = tick_len(sample_rate, time_base);
        lemma_lengths(sample_rate, time_base);
        assert(ts * tick >= 0) by (nonlinear_arith)
            requires
                tick > 0,
        ;
        lemma_nearest_bounds((ts * tick) as nat, tb.denom());
    }
}

/// A seek to a frame of the file asks for the tick of the track that is nearest to the begin of the
/// frame, which is the index of the frame where one tick lasts one frame. A seek to any other frame
/// asks for nothing.
pub proof fn lemma_seek_request<T>(state: DecoderState<T>, frame: nat)
    requires
        state.time_base matches Some(tb) ==> tb.valid(),
    ensures
        frame >= state.num_frames ==> state.seek_target(frame) is None,
        frame < state.num_frames ==> {
            let tick = tick_len(state.sample_rate, state.time_base);
            let begin = frame * frame_len(state.time_base);
            &&& state.seek_target(frame) matches Some(target)
            &&& target.track_id == state.track_id
            &&& 0 <= target.ts
            &&& 2 * (target.ts * tick - begin) <= tick
            &&& target.ts < i64::MAX ==> -tick < 2 * (target.ts * tick - begin)
            &&& tick == frame_len(state.time_base) && frame <= i64::MAX ==> target.ts == frame
        },
{
    lemma_timestamp_of_frame(frame, state.sample_rate, state.time_base);
}

/// An opening asks for the tick of the track that is nearest to the begin of its start frame, which
/// is the index of the frame where one tick lasts one frame.
pub proof fn lemma_opening_request(opening: Opening)
    requires
        opening.time_base matches Some(tb) ==> tb.valid(),
    ensures
        ({
            let ts = opening.start_timestamp();
            let tick = tick_len(opening.sample_rate, opening.time_base);
            let begin = opening.start_frame * frame_len(opening.time_base);
            &&& 0 <= ts <= i64::MAX
            &&& 2 * (ts * tick - begin) <= tick
            &&& ts < i64::MAX ==> -tick < 2 * (ts * tick - begin)
            &&& tick == frame_len(opening.time_base) && opening.start_frame <= i64::MAX ==> ts
                == opening.start_frame
        }),
{
    lemma_timestamp_of_frame(
        opening.start_frame as nat,
        opening.sample_rate,
        opening.time_base,
    );
}

/// Opening a track at a frame and seeking to that frame of the same track ask for the same
/// timestamp.
pub proof fn lemma_requests_agree<T>(opening: Opening, state: DecoderState<T>)
    requires
        state.sample_rate == opening.sample_rate,
        state.time_base == opening.time_base,
        opening.start_frame < state.num_frames,
    ensures
        state.seek_target(opening.start_frame as nat) matches Some(target) && target.ts
            == opening.start_timestamp() as i64,
{
}

/// Once a seek to a frame has moved the reader, the frames before the frame are dropped: none if
/// the reader is just where it was asked to be. Otherwise as many as lie between the timestamp that
/// the reader tells and the begin of the frame, to the nearest frame, as far as a number of frames
/// can tell. There are none to be dropped if the reader is later than the frame.
pub proof fn lemma_frames_to_drop<T>(state: DecoderState<T>, seeked: SeekedTo)
    requires
        state.time_base matches Some(tb) ==> tb.valid(),
    ensures
        seeked.actual_ts == seeked.required_ts ==> state.frames_before(seeked) == 0,
        seeked.actual_ts != seeked.required_ts ==> {
            let n = state.frames_before(seeked);
            let one = frame_len(state.time_base);
            let between = state.playhead * one - seeked.actual_ts * tick_len(
                state.sample_rate,
                state.time_base,
            );
            &&& 0 <= n <= usize::MAX
            &&& n > 0 ==> 2 * (n * one - between) <= one
            &&& n < usize::MAX ==> -one <= 2 * (n * one - between)
            // Halfway between two frames a timestamp counts as the one farther from the begin.
            &&& n > 0 && seeked.actual_ts >= 0 ==> 2 * (n * one - between) < one
            &&& n < usize::MAX && seeked.actual_ts < 0 ==> -one < 2 * (n * one - between)
        },
{
    lemma_drop(
        seeked,
        state.playhead,
        state.sample_rate,
        state.time_base,
        state.frames_before(seeked),
    );
}

/// The same for the opening of a track at a frame.
pub proof fn lemma_frames_to_drop_at_opening(opening: Opening, seeked: SeekedTo)
    requires
        opening.time_base matches Some(tb) ==> tb.valid(),
    ensures
        seeked.actual_ts == seeked.required_ts ==> opening.frames_before(seeked) == 0,
        seeked.actual_ts != seeked.required_ts ==> {
            let n = opening.frames_before(seeked);
            let one = frame_len(opening.time_base);
            let between = opening.start_frame * one - seeked.actual_ts * tick_len(
                opening.sample_rate,
                opening.time_base,
            );
            &&& 0 <= n <= usize::MAX
            &&& n > 0 ==> 2 * (n * one - between) <= one
            &&& n < usize::MAX ==> -one <= 2 * (n * one - between)
            &&& n > 0 && seeked.actual_ts >= 0 ==> 2 * (n * one - between) < one
            &&& n < usize::MAX && seeked.actual_ts < 0 ==> -one < 2 * (n * one - between)
        },
{
    lemma_drop(
        seeked,
        opening.start_frame as nat,
        opening.sample_rate,
        opening.time_base,
        opening.frames_before(seeked),
    );
}

proof fn lemma_drop(
    seeked: SeekedTo,
    frame: nat,
    sample_rate: Option<u32>,
    time_base: Option<TimeBase>,
    n: nat,
)
    requires
        time_base matches Some(tb) ==> tb.valid(),
        n == seeked.frames_before(frame, rate_or_default(sample_rate), time_base),
    ensures
        seeked.actual_ts == seeked.required_ts ==> n == 0,
        seeked.actual_ts != seeked.required_ts ==> {
            let one = frame_len(time_base);
            let between = frame * one - seeked.actual_ts * tick_len(sample_rate, time_base);
            &&& 0 <= n <= usize::MAX
            &&& n > 0 ==> 2 * (n * one - between) <= one
            &&& n < usize::MAX ==> -one <= 2 * (n * one - between)
            &&& n > 0 && seeked.actual_ts >= 0 ==> 2 * (n * one - between) < one
            &&& n < usize::MAX && seeked.actual_ts < 0 ==> -one < 2 * (n * one - between)
        },
{
    let one = frame_len(time_base);
    let tick = tick_len(sample_rate, time_base);
    let ts = seeked.actual_ts as int;
    let ticks = if ts >= 0 { ts as nat } else { (-ts) as nat };
    lemma_lengths(sample_rate, time_base);
    lemma_frame_of_timestamp(ticks, sample_rate, time_base);
    let q = timestamp_frame(ticks, rate_or_default(sample_rate), time_base);
    if ts != seeked.required_ts {
        // The number of frames before it is limited.
        let exact = if ts >= 0 { frame - q } else { frame + q as int };
        assert(exact * one == if ts >= 0 { frame * one - q * one } else { frame * one + q * one })
            by (nonlinear_arith)
            requires
                exact == if ts >= 0 { frame - q } else { frame + q as int },
        ;
        assert(ts < 0 ==> ts * tick == -(ticks * tick)) by (nonlinear_arith)
            requires
                ts < 0 ==> ts == -ticks,
        ;
        assert(n > 0 ==> n <= exact);
        assert(n < usize::MAX ==> n >= exact);
        assert(n <= exact ==> n * one <= exact * one) by (nonlinear_arith)
            requires
                one > 0,
        ;
        assert(n >= exact ==> n * one >= exact * one) by (nonlinear_arith)
            requires
                one > 0,
        ;
    }
}

/// A reader that tells where its packet begins, by less than half a frame, tells the frame: it is
/// just where it was asked to be and goes on with the frame, or it is earlier and goes on with the
/// frame that is nearest to its timestamp.
pub open spec fn tells(
    seeked: SeekedTo,
    packet: int,
    frame: nat,
    sample_rate: Option<u32>,
    time_base: Option<TimeBase>,
) -> bool {
    let off = seeked.actual_ts * tick_len(sample_rate, time_base) - packet * frame_len(time_base);
    if seeked.actual_ts == seeked.required_ts {
        packet == frame
    } else {
        -frame_len(time_base) < 2 * off < frame_len(time_base)
    }
}

/// The frame that the timestamps tell is the one with which the packet begins.
proof fn lemma_tells(
    seeked: SeekedTo,
    packet: int,
    frame: nat,
    sample_rate: Option<u32>,
    time_base: Option<TimeBase>,
)
    requires
        time_base matches Some(tb) ==> tb.valid(),
        tells(seeked, packet, frame, sample_rate, time_base),
    ensures
        seeked.first_frame(frame, rate_or_default(sample_rate), time_base) == packet,
{
    if seeked.actual_ts != seeked.required_ts {
        let one = frame_len(time_base);
        let tick = tick_len(sample_rate, time_base);
        let ts = seeked.actual_ts as int;
        let ticks = if ts >= 0 { ts as nat } else { (-ts) as nat };
        lemma_lengths(sample_rate, time_base);
        lemma_frame_of_timestamp(ticks, sample_rate, time_base);
        let q = timestamp_frame(ticks, rate_or_default(sample_rate), time_base);
        assert(ts < 0 ==> ts * tick == -(ticks * tick)) by (nonlinear_arith)
            requires
                ts < 0 ==> ts == -ticks,
        ;
        let from_begin = if ts >= 0 { packet } else { -packet };
        assert(from_begin * one == if ts >= 0 { packet * one } else { -(packet * one) })
            by (nonlinear_arith)
            requires
                from_begin == if ts >= 0 { packet } else { -packet },
        ;
        lemma_nearest_is_unique(q as int, from_begin, one, ticks * tick);
    }
}

/// A seek is accurate to the frame, in any timebase and wherever the reader lands, as long as the
/// timestamp that it tells is less than half a frame off the begin of its packet.
pub proof fn lemma_seek_reaches_frame<T>(
    state: DecoderState<T>,
    frame: nat,
    seeked: SeekedTo,
    packet: int,
    arrivals: Seq<Arrival<T>>,
    c: int,
    file: Seq<T>,
    data: Seq<Seq<T>>,
)
    requires
        state.valid(),
        state.time_base matches Some(tb) ==> tb.valid(),
        frame < state.num_frames,
        file.len() == state.num_frames,
        frame - usize::MAX <= packet <= frame,
        tells(seeked, packet, frame, state.sample_rate, state.time_base),
        carries(arrivals, c),
        ends(arrivals),
        begins_at(stream(arrivals, c), file, packet),
        0 <= c < data.len(),
    ensures
        ({
            let moved = state.sought(frame);
            let sought = moved.landed(moved.frames_before(seeked));
            let (end, left) = run(sought.start(data), arrivals);
            let position = block_end(frame, state.block_size, state.num_frames);
            &&& sought.playhead == frame
            &&& in_step(sought, arrivals, c, file)
            &&& end.next is None
            &&& end.data[c] == data[c] + file.subrange(frame as int, position as int)
            &&& end.state.playhead == position
        }),
{
    lemma_tells(seeked, packet, frame, state.sample_rate, state.time_base);
    lemma_seek_is_frame_accurate(state, frame, seeked, arrivals, c, file, data);
    let moved = state.sought(frame);
    let sought = moved.landed(moved.frames_before(seeked));
    lemma_decode_reads_file(sought, arrivals, c, file, data);
}

/// A track that is opened at a frame is read from that frame on, in any timebase and wherever the
/// reader lands, as long as the timestamp that it tells is less than half a frame off the begin of
/// its packet.
pub proof fn lemma_opening_reaches_frame<T>(
    opening: Opening,
    seeked: SeekedTo,
    packet: int,
    planes: Seq<Seq<T>>,
    frames: nat,
    arrivals: Seq<Arrival<T>>,
    c: int,
    file: Seq<T>,
    data: Seq<Seq<T>>,
)
    requires
        opening.time_base matches Some(tb) ==> tb.valid(),
        opening.start_frame <= opening.num_frames,
        file.len() == opening.num_frames,
        opening.seek_diff == opening.frames_before(seeked),
        opening.start_frame - usize::MAX <= packet <= opening.start_frame,
        tells(
            seeked,
            packet,
            opening.start_frame as nat,
            opening.sample_rate,
            opening.time_base,
        ),
        forall|i: int| 0 <= i < planes.len() ==> (#[trigger] planes[i]).len() == frames,
        0 <= c < planes.len(),
        carries(arrivals, c),
        ends(arrivals),
        begins_at(planes[c] + stream(arrivals, c), file, packet),
        0 <= c < data.len(),
    ensures
        ({
            let opened = opening.waiting::<T>(planes.len()).loaded(planes, frames);
            let (end, left) = run(opened.start(data), arrivals);
            let start = opening.start_frame as nat;
            let position = block_end(start, opening.block_size as nat, opening.num_frames as nat);
            &&& opened.playhead == start
            &&& in_step(opened, arrivals, c, file)
            &&& end.next is None
            &&& end.data[c] == data[c] + file.subrange(start as int, position as int)
            &&& end.state.playhead == position
        }),
{
    lemma_tells(
        seeked,
        packet,
        opening.start_frame as nat,
        opening.sample_rate,
        opening.time_base,
    );
    lemma_opened_at_start_frame(
        opening,
        Some(seeked),
        planes,
        frames,
        arrivals,
        c,
        file,
        data,
    );
    let opened = opening.waiting::<T>(planes.len()).loaded(planes, frames);
    lemma_decode_reads_file(opened, arrivals, c, file, data);
}

/// A timestamp that is nearest to a frame is the number of ticks that the frames before it last.
proof fn lemma_told_ticks(
    ts: int,
    frame: nat,
    sample_rate: Option<u32>,
    time_base: Option<TimeBase>,
)
    requires
        time_base matches Some(tb) ==> tb.valid(),
        ({
            let tick = tick_len(sample_rate, time_base);
            -tick < 2 * (ts * tick - frame * frame_len(time_base)) <= tick
        }),
    ensures
        ts == frame_ticks(frame, rate_or_default(sample_rate), time_base),
{
    let tick = tick_len(sample_rate, time_base);
    lemma_ticks_are_nearest(frame, sample_rate, time_base);
    lemma_nearest_is_unique(
        ts,
        frame_ticks(frame, rate_or_default(sample_rate), time_base) as int,
        tick,
        frame * frame_len(time_base),
    );
}

/// `first` is less than a tick off `frame` if the reader is just where it was asked to be, otherwise
/// at most half a tick and half a frame, and not at all where a tick is no longer than a frame.
pub open spec fn close(
    first: nat,
    frame: nat,
    seeked: SeekedTo,
    sample_rate: Option<u32>,
    time_base: Option<TimeBase>,
) -> bool {
    let tick = tick_len(sample_rate, time_base);
    let one = frame_len(time_base);
    let off = (first - frame) * one;
    &&& if seeked.actual_ts == seeked.required_ts {
        -tick < off < tick
    } else {
        -(tick + one) <= 2 * off <= tick + one
    }
    &&& tick <= one ==> first == frame
}

/// From the request of a seek to the next block: if a reader moves to some packet no later than it
/// was asked to, and tells the tick that is nearest to the begin of the packet, the next block
/// begins close to the frame, and just with it where a tick is no longer than a frame.
pub proof fn lemma_seek_request_leads_to_frame<T>(
    state: DecoderState<T>,
    frame: nat,
    seeked: SeekedTo,
    packet: nat,
    arrivals: Seq<Arrival<T>>,
    c: int,
    file: Seq<T>,
    data: Seq<Seq<T>>,
)
    requires
        state.valid(),
        state.time_base matches Some(tb) ==> tb.valid(),
        frame < state.num_frames,
        // The reader does what it is asked to.
        state.seek_target(frame) matches Some(target) && target.ts == seeked.required_ts
            && target.ts < i64::MAX,
        seeked.actual_ts <= seeked.required_ts,
        ({
            let tick = tick_len(state.sample_rate, state.time_base);
            let off = seeked.actual_ts * tick - packet * frame_len(state.time_base);
            -tick < 2 * off <= tick
        }),
        carries(arrivals, c),
        ends(arrivals),
        stream(arrivals, c) == after(file, packet),
        0 <= c < data.len(),
    ensures
        ({
            let moved = state.sought(frame);
            let sought = moved.landed(moved.frames_before(seeked));
            let first = packet + moved.frames_before(seeked);
            let end = run(sought.start(data), arrivals).0;
            let position = block_end(first, state.block_size, file.len());
            &&& close(first, frame, seeked, state.sample_rate, state.time_base)
            &&& upcoming(sought, arrivals, c) == after(file, first)
            &&& end.next is None
            &&& first <= file.len() ==> end.data[c] == data[c] + file.subrange(
                first as int,
                position as int,
            )
            &&& first > file.len() ==> end.data[c] == data[c]
        }),
{
    lemma_seek_request(state, frame);
    lemma_told_ticks(seeked.required_ts as int, frame, state.sample_rate, state.time_base);
    lemma_told_ticks(seeked.actual_ts as int, packet, state.sample_rate, state.time_base);
    lemma_seek_is_near(state, frame, seeked, packet, arrivals, c, file, data);
    lemma_lengths(state.sample_rate, state.time_base);
}

/// From the request of an opening to the first block, in the same way.
pub proof fn lemma_opening_request_leads_to_frame<T>(
    opening: Opening,
    seeked: SeekedTo,
    packet: nat,
    planes: Seq<Seq<T>>,
    frames: nat,
    arrivals: Seq<Arrival<T>>,
    c: int,
    file: Seq<T>,
    data: Seq<Seq<T>>,
)
    requires
        opening.time_base matches Some(tb) ==> tb.valid(),
        opening.start_frame < opening.num_frames,
        // The reader does what it is asked to.
        opening.start_timestamp() == seeked.required_ts < i64::MAX,
        seeked.actual_ts <= seeked.required_ts,
        ({
            let tick = tick_len(opening.sample_rate, opening.time_base);
            let off = seeked.actual_ts * tick - packet * frame_len(opening.time_base);
            -tick < 2 * off <= tick
        }),
        opening.seek_diff == opening.frames_before(seeked),
        forall|i: int| 0 <= i < planes.len() ==> (#[trigger] planes[i]).len() == frames,
        0 <= c < planes.len(),
        carries(arrivals, c),
        ends(arrivals),
        planes[c] + stream(arrivals, c) == after(file, packet),
        0 <= c < data.len(),
    ensures
        ({
            let opened = opening.waiting::<T>(planes.len()).loaded(planes, frames);
            let start = opening.start_frame as nat;
            let first = packet + opening.frames_before(seeked);
            let end = run(opened.start(data), arrivals).0;
            let position = block_end(first, opening.block_size as nat, file.len());
            &&& close(first, start, seeked, opening.sample_rate, opening.time_base)
            &&& opened.playhead == start
            &&& upcoming(opened, arrivals, c) == after(file, first)
            &&& end.next is None
            &&& first <= file.len() ==> end.data[c] == data[c] + file.subrange(
                first as int,
                position as int,
            )
            &&& first > file.len() ==> end.data[c] == data[c]
        }),
{
    lemma_opening_request(opening);
    lemma_told_ticks(
        seeked.required_ts as int,
        opening.start_frame as nat,
        opening.sample_rate,
        opening.time_base,
    );
    lemma_told_ticks(seeked.actual_ts as int, packet, opening.sample_rate, opening.time_base);
    lemma_opened_near_start_frame(
        opening,
        seeked,
        packet,
        planes,
        frames,
        arrivals,
        c,
        file,
        data,
    );
    lemma_lengths(opening.sample_rate, opening.time_base);
}

} // verus!
