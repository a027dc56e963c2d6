//! What a decoder keeps of its track whatever is done with it, and what each of its steps does with
//! the frames that it is given.

use crate::accuracy::{frame_len, lemma_seek_request, tick_len};
use crate::channels::ChannelLayout;
use crate::data::{channels_view, DataBlock};
use crate::laws::run;
use crate::open::Opening;
use crate::packet::{Arrival, DecodeAction, DecodedAudio, PacketEvent, SeekedTo};
use crate::state::{DecoderState, Step};
use crate::symphonia_decoder::{
    DEFAULT_BLOCK_SIZE, DEFAULT_NUM_CACHE_BLOCKS, DEFAULT_NUM_LOOK_AHEAD_BLOCKS,
};
use crate::time::DEFAULT_SAMPLE_RATE;
use vstd::prelude::*;

verus! {

/// The two are decoders of one track, with blocks of one size.
pub open spec fn same_track<T>(a: DecoderState<T>, b: DecoderState<T>) -> bool {
    &&& a.num_frames == b.num_frames
    &&& a.num_channels == b.num_channels
    &&& a.block_size == b.block_size
    &&& a.sample_rate == b.sample_rate
    &&& a.time_base == b.time_base
    &&& a.track_id == b.track_id
}

/// A decoder stays with its track through any packet event.
pub proof fn lemma_event_keeps_track<T>(
    state: DecoderState<T>,
    filled: nat,
    arrival: Arrival<T>,
    data: Seq<Seq<T>>,
)
    ensures
        same_track(state.start(data).state, state),
        same_track(state.receive(filled, arrival, data).state, state),
{
}

/// A decoder stays with its track through any call of `decode`, whatever arrives, also the end of
/// the file, and whether or not the call is done.
pub proof fn lemma_decode_keeps_track<T>(step: Step<T>, arrivals: Seq<Arrival<T>>)
    ensures
        same_track(run(step, arrivals).0.state, step.state),
    decreases arrivals.len(),
{
    if step.next is Some && arrivals.len() > 0 {
        let next = step.state.receive(step.next->0, arrivals[0], step.data);
        lemma_event_keeps_track(step.state, step.next->0, arrivals[0], step.data);
        lemma_decode_keeps_track(next, arrivals.drop_first());
    }
}

/// A decoder stays with its track through any seek, whether or not the reader could be moved.
pub proof fn lemma_seek_keeps_track<T>(state: DecoderState<T>, frame: nat, seeked: SeekedTo)
    ensures
        same_track(state.sought(frame), state),
        same_track(state.landed(state.frames_before(seeked)), state),
{
}

/// A seek asks for the same timestamp of the same track whatever has been decoded before, also
/// after the end of the file.
pub proof fn lemma_decode_keeps_seek_requests<T>(
    state: DecoderState<T>,
    data: Seq<Seq<T>>,
    arrivals: Seq<Arrival<T>>,
    frame: nat,
)
    ensures
        run(state.start(data), arrivals).0.state.seek_target(frame) == state.seek_target(frame),
{
    lemma_event_keeps_track(state, 0, Arrival::End, data);
    lemma_decode_keeps_track(state.start(data), arrivals);
}

/// A seek asks for the same timestamp of the same track whatever seek came before.
pub proof fn lemma_seek_keeps_seek_requests<T>(
    state: DecoderState<T>,
    before: nat,
    seeked: SeekedTo,
    frame: nat,
)
    ensures
        state.sought(before).seek_target(frame) == state.seek_target(frame),
        ({
            let moved = state.sought(before);
            moved.landed(moved.frames_before(seeked)).seek_target(frame) == state.seek_target(frame)
        }),
{
    lemma_seek_keeps_track(state, before, seeked);
    lemma_seek_keeps_track(state.sought(before), before, seeked);
}

/// A track that has been opened is the one that was to be opened: it has the length, the sample
/// rate, the timebase and the identifier that the container tells and as many channels as its first
/// packet, it is read from the start frame on in blocks of the size that was asked for, and its
/// seeks ask for the ticks of that track that are nearest.
pub proof fn lemma_opened_is_the_track<T>(
    opening: Opening,
    planes: Seq<Seq<T>>,
    frames: nat,
    frame: nat,
)
    requires
        opening.time_base matches Some(tb) ==> tb.valid(),
    ensures
        ({
            let opened = opening.waiting::<T>(planes.len()).loaded(planes, frames);
            &&& opened.num_frames == opening.num_frames
            &&& opened.num_channels == planes.len()
            &&& opened.block_size == opening.block_size
            &&& opened.sample_rate == opening.sample_rate
            &&& opened.time_base == opening.time_base
            &&& opened.track_id == opening.track_id
            &&& opened.playhead == opening.start_frame
            &&& frame < opening.num_frames ==> {
                let tick = tick_len(opening.sample_rate, opening.time_base);
                let begin = frame * frame_len(opening.time_base);
                &&& opened.seek_target(frame) matches Some(target)
                &&& target.track_id == opening.track_id
                &&& 0 <= target.ts
                &&& 2 * (target.ts * tick - begin) <= tick
                &&& target.ts < i64::MAX ==> -tick < 2 * (target.ts * tick - begin)
            }
        }),
{
    lemma_seek_request(opening.waiting::<T>(planes.len()).loaded(planes, frames), frame);
}

/// At the end of the file, or beyond it, a call of `decode` does nothing.
pub proof fn lemma_nothing_is_decoded_at_end<T>(
    state: DecoderState<T>,
    data: Seq<Seq<T>>,
    arrivals: Seq<Arrival<T>>,
)
    requires
        state.playhead >= state.num_frames,
    ensures
        run(state.start(data), arrivals) == (Step { state, data, next: None }, arrivals),
{
}

/// A call of `decode` before the end of the file begins with what is left of the packet before, as
/// much of it as fits into the block. The rest of it stays. A channel that the packet does not have
/// is given nothing. If that fills the block the call is done and the read position moves on by a
/// block, otherwise a packet is wanted.
pub proof fn lemma_decode_begins_with_rest<T>(state: DecoderState<T>, data: Seq<Seq<T>>)
    requires
        state.valid(),
        state.playhead < state.num_frames,
    ensures
        ({
            let step = state.start(data);
            let full = state.ready >= state.block_size;
            let n = if full { state.block_size } else { state.ready };
            &&& step.data.len() == data.len()
            &&& forall|c: int|
                0 <= c < data.len() ==> #[trigger] step.data[c] == if c < state.pending.len() {
                    data[c] + state.pending[c].take(n as int)
                } else {
                    data[c]
                }
            &&& step.state.ready == state.ready - n
            &&& step.state.pending.len() == state.pending.len()
            &&& forall|c: int|
                0 <= c < state.pending.len() ==> #[trigger] step.state.pending[c]
                    == state.pending[c].skip(n as int)
            &&& step.state.skip == state.skip
            &&& full ==> step.next is None && step.state.playhead == if state.playhead
                + state.block_size <= usize::MAX {
                state.playhead + state.block_size
            } else {
                usize::MAX as nat
            }
            &&& !full ==> step.next == Some(n) && step.state.playhead == state.playhead
        }),
{
    let step = state.start(data);
    let n = if state.ready >= state.block_size { state.block_size } else { state.ready };
    assert forall|c: int| 0 <= c < data.len() implies #[trigger] step.data[c] == if c
        < state.pending.len() {
        data[c] + state.pending[c].take(n as int)
    } else {
        data[c]
    } by {
        if c < state.pending.len() {
            assert(state.pending[c].len() == state.ready);
            assert(state.pending[c].take(n as int) =~= state.pending[c].subrange(0, n as int));
        }
    }
    assert forall|c: int| 0 <= c < state.pending.len() implies #[trigger] step.state.pending[c]
        == state.pending[c].skip(n as int) by {
        assert(state.pending[c].len() == state.ready);
        assert(state.pending[c].skip(n as int) =~= state.pending[c].subrange(
            n as int,
            state.ready as int,
        ));
    }
}

/// The frames of a packet are dropped as long as there are some to be dropped, then put into the
/// block as long as there is room, and kept for the next call after that: nothing else happens to
/// them. Every channel of the block that the packet has too is given its part, and any other one
/// nothing. If the block is full the call is done and the read position moves on by a block,
/// otherwise the next packet is wanted.
pub proof fn lemma_packet_is_split<T>(
    state: DecoderState<T>,
    filled: nat,
    planes: Seq<Seq<T>>,
    frames: nat,
    data: Seq<Seq<T>>,
)
    requires
        state.valid(),
        state.ready == 0,
        filled < state.block_size,
        forall|c: int| 0 <= c < planes.len() ==> (#[trigger] planes[c]).len() == frames,
    ensures
        ({
            let step = state.receive(filled, Arrival::Decoded { planes, frames }, data);
            let dropped = if state.skip < frames { state.skip } else { frames };
            let room = state.block_size - filled;
            let full = frames - dropped >= room;
            let given = if full { room } else { frames - dropped };
            &&& step.state.skip == state.skip - dropped
            &&& step.state.ready == frames - dropped - given
            &&& step.data.len() == data.len()
            &&& forall|c: int|
                0 <= c < data.len() ==> #[trigger] step.data[c] == if c < planes.len() {
                    data[c] + planes[c].skip(dropped as int).take(given)
                } else {
                    data[c]
                }
            &&& dropped < frames ==> step.state.pending.len() == planes.len() && forall|c: int|
                0 <= c < planes.len() ==> #[trigger] step.state.pending[c] == planes[c].skip(
                    dropped + given,
                )
            &&& full ==> step.next is None && step.state.playhead == if state.playhead
                + state.block_size <= usize::MAX {
                state.playhead + state.block_size
            } else {
                usize::MAX as nat
            }
            &&& !full ==> step.next == Some((filled + given) as nat) && step.state.playhead
                == state.playhead
        }),
{
    let step = state.receive(filled, Arrival::Decoded { planes, frames }, data);
    let dropped = if state.skip < frames { state.skip } else { frames };
    let room = state.block_size - filled;
    let given = if frames - dropped >= room { room } else { frames - dropped };
    assert forall|c: int| 0 <= c < data.len() implies #[trigger] step.data[c] == if c
        < planes.len() {
        data[c] + planes[c].skip(dropped as int).take(given)
    } else {
        data[c]
    } by {
        if c < planes.len() {
            assert(planes[c].len() == frames);
            let part = planes[c].skip(dropped as int).take(given);
            if state.skip < frames {
                let kept = planes[c].subrange(dropped as int, frames as int);
                assert(part =~= kept.subrange(0, 0 + given));
            } else {
                assert(data[c] + part =~= data[c]);
            }
        }
    }
    if dropped < frames {
        assert forall|c: int| 0 <= c < planes.len() implies #[trigger] step.state.pending[c]
            == planes[c].skip(dropped + given) by {
            assert(planes[c].len() == frames);
            let kept = planes[c].subrange(dropped as int, frames as int);
            assert(planes[c].skip(dropped + given) =~= kept.subrange(
                given,
                frames - dropped,
            ));
        }
    }
}

/// Neither a malformed packet nor the end of the file puts anything into the block or takes away
/// anything. The former leaves the call as it is. The latter ends it, with the read position at the
/// end of the file.
pub proof fn lemma_no_frames_without_a_packet<T>(
    state: DecoderState<T>,
    filled: nat,
    data: Seq<Seq<T>>,
)
    ensures
        state.receive(filled, Arrival::Undecodable, data) == (Step {
            state,
            data,
            next: Some(filled),
        }),
        ({
            let step = state.receive(filled, Arrival::End, data);
            &&& step.data == data
            &&& step.next is None
            &&& step.state.playhead == state.num_frames
            &&& step.state.pending == state.pending
            &&& step.state.ready == state.ready
            &&& step.state.skip == state.skip
            &&& same_track(step.state, state)
        }),
{
}

/// A seek sets the read position to the frame, or to the end of the file if the frame lies outside
/// of it. As long as the reader has not been moved nothing else changes.
pub proof fn lemma_seek_sets_position<T>(state: DecoderState<T>, frame: nat)
    ensures
        ({
            let moved = state.sought(frame);
            &&& frame < state.num_frames ==> moved.playhead == frame
            &&& frame >= state.num_frames ==> moved.playhead == state.num_frames
            &&& moved.pending == state.pending
            &&& moved.ready == state.ready
            &&& moved.skip == state.skip
            &&& same_track(moved, state)
        }),
{
}

/// Once the reader has been moved nothing is left of what had been decoded before, and the read
/// position stays. How many frames are then dropped is said by `lemma_frames_to_drop`.
pub proof fn lemma_landing_drops_what_was_decoded<T>(state: DecoderState<T>, seeked: SeekedTo)
    ensures
        ({
            let landed = state.landed(state.frames_before(seeked));
            &&& landed.valid() || state.num_frames > usize::MAX
            &&& landed.ready == 0
            &&& forall|c: int|
                0 <= c < landed.pending.len() ==> (#[trigger] landed.pending[c]).len() == 0
            &&& landed.skip == state.frames_before(seeked)
            &&& landed.playhead == state.playhead
            &&& same_track(landed, state)
        }),
{
}

/// A decoded packet arrives with all of its samples, channel by channel, and every other packet
/// event as what it is.
pub proof fn lemma_events_arrive<T>(event: PacketEvent<T>)
    ensures
        match event {
            PacketEvent::Decoded(audio) => {
                &&& event@ matches Arrival::Decoded { planes, frames }
                &&& frames == audio.frames
                &&& planes.len() == audio.planes.len()
                &&& forall|c: int|
                    0 <= c < planes.len() ==> #[trigger] planes[c] == audio.planes[c]@
            },
            PacketEvent::Undecodable => event@ is Undecodable,
            PacketEvent::End => event@ is End,
            PacketEvent::Failed(_) => event@ is Failed,
        },
        event.valid() ==> event@.valid(),
{
}

/// The contents of a block are the samples of its channels.
pub proof fn lemma_block_holds_its_channels<T>(data_block: DataBlock<T>)
    ensures
        data_block@.len() == data_block.block.len(),
        forall|c: int|
            0 <= c < data_block@.len() ==> #[trigger] data_block@[c] == data_block.block[c]@,
        data_block@ == channels_view(data_block.block@),
{
}

/// A packet is wanted just as long as a call of `decode` is not done, and the number that goes with
/// the wish is the number of frames in the block.
pub proof fn lemma_actions_tell_the_block(action: DecodeAction)
    ensures
        match action {
            DecodeAction::NextPacket { block_start_frame } => action@ == Some(
                block_start_frame as nat,
            ),
            DecodeAction::Finished => action@ is None,
        },
{
}

/// Nothing more is asked of what a decoder is told than that every channel has as many samples as
/// there are frames and that a reader does not go beyond the timestamp it was given.
pub proof fn lemma_what_may_be_told<T>(
    audio: DecodedAudio<T>,
    event: PacketEvent<T>,
    seeked: SeekedTo,
)
    ensures
        audio.valid() <==> forall|c: int|
            0 <= c < audio.planes.len() ==> (#[trigger] audio.planes[c]).len() == audio.frames,
        event.valid() <==> (event matches PacketEvent::Decoded(audio) ==> forall|c: int|
            0 <= c < audio.planes.len() ==> (#[trigger] audio.planes[c]).len() == audio.frames),
        seeked.valid() <==> seeked.actual_ts <= seeked.required_ts,
{
}

/// Channel layouts are the same just if they are equal, channel by channel.
pub proof fn lemma_layouts_are_the_same(a: ChannelLayout, b: ChannelLayout, c: ChannelLayout)
    ensures
        a == b ==> a.same(&b),
        a.same(&b) ==> b.same(&a),
        a.same(&b) && b.same(&c) ==> a.same(&c),
        a.same(&b) ==> match a {
            ChannelLayout::Custom(labels) => b matches ChannelLayout::Custom(others) && labels@
                == others@,
            _ => a == b,
        },
        a matches ChannelLayout::Custom(labels) ==> (b matches ChannelLayout::Custom(others)
            && labels@ == others@ ==> a.same(&b)),
{
}

/// What is taken where nothing else is told.
pub proof fn lemma_defaults()
    ensures
        DEFAULT_BLOCK_SIZE == 16384,
        DEFAULT_NUM_CACHE_BLOCKS == 0,
        DEFAULT_NUM_LOOK_AHEAD_BLOCKS == 8,
        DEFAULT_SAMPLE_RATE == 44100,
{
}

} // verus!
