//! How the results of several calls relate.

use crate::accuracy::{
    frame_len, lemma_frame_of_timestamp, lemma_frames_to_drop_at_opening, lemma_opening_request,
    lemma_seek_request, lemma_timestamp_of_frame, tick_len,
};
use crate::data::{DataBlock, FileInfo};
use crate::info::metadata_revisions;
use crate::open::{OpenAction, OpenError, Opening, TrackInfo};
use crate::packet::{Arrival, DecodeAction, DecodedAudio, PacketEvent, SeekTarget, SeekedTo};
use crate::symphonia_decoder::SymphoniaDecoder;
use crate::time::{
    frame_to_ts, lemma_timestamp_frame_inverse, timestamp_frame, ts_to_frame, TimeBase,
};
use crate::track::{
    lemma_actions_tell_the_block, lemma_block_holds_its_channels, lemma_decode_begins_with_rest,
    lemma_event_keeps_track, lemma_events_arrive, lemma_landing_drops_what_was_decoded,
    lemma_no_frames_without_a_packet, lemma_nothing_is_decoded_at_end, lemma_packet_is_split,
    lemma_seek_sets_position, same_track,
};
use vstd::prelude::*;

verus! {

/// Once a track has been opened, the file information tells what the container tells of it: its
/// number of frames and its sample rate, if there is one. It tells as many channels as the first
/// packet that could be decoded has. What else it is given it hands on.
pub proof fn lemma_file_info_tells_the_track<T: Copy, Params>(
    track: TrackInfo,
    start_frame: usize,
    block_size: usize,
    opening: Opening,
    audio: DecodedAudio<T>,
    decoder: SymphoniaDecoder<T>,
    params: Params,
    info: FileInfo<Params>,
)
    requires
        call_ensures(
            Opening::new,
            (Some(track), start_frame, block_size),
            Ok::<Opening, OpenError>(opening),
        ),
        call_ensures(
            Opening::first_packet::<T>,
            (&opening, PacketEvent::Decoded(audio)),
            Ok::<OpenAction<T>, OpenError>(OpenAction::Opened { decoder }),
        ),
        call_ensures(SymphoniaDecoder::<T>::file_info::<Params>, (&decoder, params), info),
    ensures
        track.codec_params matches Some(codec) && info.sample_rate == codec.sample_rate,
        track.num_frames matches Some(n) && (n <= usize::MAX ==> info.num_frames == n),
        audio.planes.len() <= u16::MAX ==> info.num_channels == audio.planes.len(),
        info.params == params,
{
}

/// An opening at a frame asks the reader for the tick of the track that is nearest to the begin of
/// the frame, which is the index of the frame where one tick lasts one frame. Only an opening at
/// the begin of the track asks for nothing.
pub proof fn lemma_opening_asks_for_the_start_frame(
    track: TrackInfo,
    start_frame: usize,
    block_size: usize,
    opening: Opening,
    target: Option<SeekTarget>,
)
    requires
        call_ensures(
            Opening::new,
            (Some(track), start_frame, block_size),
            Ok::<Opening, OpenError>(opening),
        ),
        call_ensures(Opening::seek_target, (&opening,), target),
        track.time_base matches Some(tb) ==> tb.valid(),
    ensures
        target is None <==> start_frame == 0,
        target matches Some(target) ==> {
            let tick = tick_len(track.codec_params->0.sample_rate, track.time_base);
            let begin = start_frame * frame_len(track.time_base);
            &&& target.track_id == track.id
            &&& 0 <= target.ts
            &&& 2 * (target.ts * tick - begin) <= tick
            &&& target.ts < i64::MAX ==> -tick < 2 * (target.ts * tick - begin)
            &&& tick == frame_len(track.time_base) && start_frame <= i64::MAX ==> target.ts
                == start_frame
        },
{
    lemma_opening_request(opening);
}

/// A seek to a frame of the file asks the reader for the tick of the track that is nearest to the
/// begin of the frame, which is the index of the frame where one tick lasts one frame, and the
/// decoder then tells the frame as its position. A seek to any other frame asks for nothing, and
/// the position is the end of the file.
pub proof fn lemma_seek_asks_for_the_frame<T: Copy, Params>(
    before: SymphoniaDecoder<T>,
    params: Params,
    info: FileInfo<Params>,
    frame: usize,
    target: Option<SeekTarget>,
    after: SymphoniaDecoder<T>,
    position: usize,
)
    requires
        call_ensures(SymphoniaDecoder::<T>::file_info::<Params>, (&before, params), info),
        exists|d: &mut SymphoniaDecoder<T>|
            *d == before && *final(d) == after && #[trigger] call_ensures(
                SymphoniaDecoder::<T>::seek,
                (d, frame),
                target,
            ),
        call_ensures(SymphoniaDecoder::<T>::current_frame, (&after,), position),
        before@.time_base matches Some(tb) ==> tb.valid(),
    ensures
        target is Some <==> frame < info.num_frames,
        position == if frame < info.num_frames {
            frame
        } else {
            info.num_frames
        },
        target matches Some(target) ==> {
            let tick = tick_len(info.sample_rate, before@.time_base);
            let begin = frame * frame_len(before@.time_base);
            &&& target.track_id == before@.track_id
            &&& 0 <= target.ts
            &&& 2 * (target.ts * tick - begin) <= tick
            &&& target.ts < i64::MAX ==> -tick < 2 * (target.ts * tick - begin)
            &&& tick == frame_len(before@.time_base) && frame <= i64::MAX ==> target.ts == frame
        },
{
    lemma_seek_request(before@, frame as nat);
    lemma_seek_sets_position(before@, frame as nat);
}

/// A decoder that has been opened seeks in the track that was opened: to the tick of that track, by
/// its sample rate and its timebase, that is nearest to the begin of the frame.
pub proof fn lemma_opened_decoder_seeks_in_the_track<T: Copy>(
    track: TrackInfo,
    start_frame: usize,
    block_size: usize,
    opening: Opening,
    audio: DecodedAudio<T>,
    decoder: SymphoniaDecoder<T>,
    frame: usize,
    target: Option<SeekTarget>,
    after: SymphoniaDecoder<T>,
)
    requires
        call_ensures(
            Opening::new,
            (Some(track), start_frame, block_size),
            Ok::<Opening, OpenError>(opening),
        ),
        call_ensures(
            Opening::first_packet::<T>,
            (&opening, PacketEvent::Decoded(audio)),
            Ok::<OpenAction<T>, OpenError>(OpenAction::Opened { decoder }),
        ),
        exists|d: &mut SymphoniaDecoder<T>|
            *d == decoder && *final(d) == after && #[trigger] call_ensures(
                SymphoniaDecoder::<T>::seek,
                (d, frame),
                target,
            ),
        track.time_base matches Some(tb) ==> tb.valid(),
    ensures
        track.num_frames->0 <= usize::MAX ==> (target is Some <==> frame < track.num_frames->0),
        target matches Some(target) ==> {
            let tick = tick_len(track.codec_params->0.sample_rate, track.time_base);
            let begin = frame * frame_len(track.time_base);
            &&& target.track_id == track.id
            &&& 0 <= target.ts
            &&& 2 * (target.ts * tick - begin) <= tick
            &&& target.ts < i64::MAX ==> -tick < 2 * (target.ts * tick - begin)
            &&& tick == frame_len(track.time_base) && frame <= i64::MAX ==> target.ts == frame
        },
{
    lemma_seek_request(decoder@, frame as nat);
}

/// Opening a track at a frame and seeking to that frame of the opened track ask for the same
/// timestamp.
pub proof fn lemma_opening_and_seeking_ask_alike<T: Copy>(
    opening: Opening,
    start: Option<SeekTarget>,
    audio: DecodedAudio<T>,
    decoder: SymphoniaDecoder<T>,
    target: Option<SeekTarget>,
    after: SymphoniaDecoder<T>,
)
    requires
        call_ensures(Opening::seek_target, (&opening,), start),
        call_ensures(
            Opening::first_packet::<T>,
            (&opening, PacketEvent::Decoded(audio)),
            Ok::<OpenAction<T>, OpenError>(OpenAction::Opened { decoder }),
        ),
        exists|d: &mut SymphoniaDecoder<T>|
            *d == decoder && *final(d) == after && #[trigger] call_ensures(
                SymphoniaDecoder::<T>::seek,
                (d, opening.start_frame),
                target,
            ),
        0 < opening.start_frame < opening.num_frames,
    ensures
        start is Some,
        target == start,
{
}

/// A call of `decode` changes nothing in what a seek to a frame asks for, nor in what the file
/// information tells.
pub proof fn lemma_decode_keeps_requests<T: Copy>(
    before: SymphoniaDecoder<T>,
    data_block: DataBlock<T>,
    action: DecodeAction,
    after: SymphoniaDecoder<T>,
    block: DataBlock<T>,
)
    requires
        exists|d: &mut SymphoniaDecoder<T>, data: &mut DataBlock<T>|
            *d == before && *final(d) == after && *data == data_block && *final(data)
                == block && #[trigger] call_ensures(
                SymphoniaDecoder::<T>::decode,
                (d, data),
                action,
            ),
    ensures
        same_track(after@, before@),
        forall|other: nat| #[trigger]
            after@.seek_target(other) == before@.seek_target(other),
{
    lemma_event_keeps_track(before@, 0, Arrival::End, data_block@);
}

/// Nor does any packet event, also the end of the file or a failure.
pub proof fn lemma_packet_keeps_requests<T: Copy>(
    before: SymphoniaDecoder<T>,
    filled: usize,
    event: PacketEvent<T>,
    data_block: DataBlock<T>,
    result: Result<DecodeAction, symphonia::core::errors::Error>,
    after: SymphoniaDecoder<T>,
    block: DataBlock<T>,
)
    requires
        exists|d: &mut SymphoniaDecoder<T>, data: &mut DataBlock<T>|
            *d == before && *final(d) == after && *data == data_block && *final(data)
                == block && #[trigger] call_ensures(
                SymphoniaDecoder::<T>::decode_packet,
                (d, filled, event, data),
                result,
            ),
    ensures
        same_track(after@, before@),
        forall|other: nat| #[trigger]
            after@.seek_target(other) == before@.seek_target(other),
{
    lemma_event_keeps_track(before@, filled as nat, event@, data_block@);
}

/// Nor does a seek.
pub proof fn lemma_seek_keeps_requests<T: Copy>(
    before: SymphoniaDecoder<T>,
    frame: usize,
    target: Option<SeekTarget>,
    after: SymphoniaDecoder<T>,
)
    requires
        exists|d: &mut SymphoniaDecoder<T>|
            *d == before && *final(d) == after && #[trigger] call_ensures(
                SymphoniaDecoder::<T>::seek,
                (d, frame),
                target,
            ),
    ensures
        same_track(after@, before@),
        forall|other: nat| #[trigger]
            after@.seek_target(other) == before@.seek_target(other),
{
    lemma_seek_sets_position(before@, frame as nat);
}

/// Nor does the end of a seek, whether or not the reader could be moved.
pub proof fn lemma_seek_done_keeps_requests<T: Copy>(
    before: SymphoniaDecoder<T>,
    result: Result<SeekedTo, symphonia::core::errors::Error>,
    done: Result<(), symphonia::core::errors::Error>,
    after: SymphoniaDecoder<T>,
)
    requires
        exists|d: &mut SymphoniaDecoder<T>|
            *d == before && *final(d) == after && #[trigger] call_ensures(
                SymphoniaDecoder::<T>::seek_done,
                (d, result),
                done,
            ),
    ensures
        same_track(after@, before@),
        forall|other: nat| #[trigger]
            after@.seek_target(other) == before@.seek_target(other),
{
    if let Ok(seeked) = result {
        lemma_landing_drops_what_was_decoded(before@, seeked);
    }
}

/// Two seeks to one frame ask for the same, whatever call lies between them that keeps the track,
/// and the file information stays the same.
pub proof fn lemma_seeks_ask_alike<T: Copy, Params>(
    before: SymphoniaDecoder<T>,
    later: SymphoniaDecoder<T>,
    frame: usize,
    target: Option<SeekTarget>,
    after: SymphoniaDecoder<T>,
    later_target: Option<SeekTarget>,
    later_after: SymphoniaDecoder<T>,
    params: Params,
    info: FileInfo<Params>,
    later_info: FileInfo<Params>,
)
    requires
        same_track(later@, before@),
        exists|d: &mut SymphoniaDecoder<T>|
            *d == before && *final(d) == after && #[trigger] call_ensures(
                SymphoniaDecoder::<T>::seek,
                (d, frame),
                target,
            ),
        exists|d: &mut SymphoniaDecoder<T>|
            *d == later && *final(d) == later_after && #[trigger] call_ensures(
                SymphoniaDecoder::<T>::seek,
                (d, frame),
                later_target,
            ),
        call_ensures(SymphoniaDecoder::<T>::file_info::<Params>, (&before, params), info),
        call_ensures(SymphoniaDecoder::<T>::file_info::<Params>, (&later, params), later_info),
    ensures
        later_target == target,
        later_info.num_frames == info.num_frames,
        later_info.num_channels == info.num_channels,
        later_info.sample_rate == info.sample_rate,
{
}

/// The end of a seek hands on the error of a reader that could not be moved, and then changes
/// nothing. Otherwise nothing that had been decoded is left, the position stays, and as many frames
/// will be dropped as `lemma_frames_to_drop` says.
pub proof fn lemma_seek_ends<T: Copy>(
    before: SymphoniaDecoder<T>,
    result: Result<SeekedTo, symphonia::core::errors::Error>,
    done: Result<(), symphonia::core::errors::Error>,
    after: SymphoniaDecoder<T>,
)
    requires
        exists|d: &mut SymphoniaDecoder<T>|
            *d == before && *final(d) == after && #[trigger] call_ensures(
                SymphoniaDecoder::<T>::seek_done,
                (d, result),
                done,
            ),
    ensures
        match result {
            Ok(seeked) => {
                &&& done is Ok
                &&& after@.ready == 0
                &&& after@.skip == before@.frames_before(seeked)
                &&& after@.playhead == before@.playhead
            },
            Err(error) => {
                &&& done == Err::<(), _>(error)
                &&& after@ == before@
            },
        },
{
    if let Ok(seeked) = result {
        lemma_landing_drops_what_was_decoded(before@, seeked);
    }
}

/// A call of `decode` does nothing at the end of the file. Before that, every channel is given what
/// is left of its packet, as much of it as fits into the block. If that fills the block the call is
/// done, otherwise a packet is wanted, and the number that goes with the wish is the number of
/// frames that the block was given.
pub proof fn lemma_decode_gives_the_rest<T: Copy>(
    before: SymphoniaDecoder<T>,
    data_block: DataBlock<T>,
    action: DecodeAction,
    after: SymphoniaDecoder<T>,
    block: DataBlock<T>,
    c: int,
)
    requires
        before.inv(),
        exists|d: &mut SymphoniaDecoder<T>, data: &mut DataBlock<T>|
            *d == before && *final(d) == after && *data == data_block && *final(data)
                == block && #[trigger] call_ensures(
                SymphoniaDecoder::<T>::decode,
                (d, data),
                action,
            ),
        0 <= c < data_block.block.len(),
    ensures
        block.block.len() == data_block.block.len(),
        before@.playhead >= before@.num_frames ==> {
            &&& action is Finished
            &&& after@ == before@
            &&& block.block[c]@ == data_block.block[c]@
        },
        before@.playhead < before@.num_frames ==> {
            let full = before@.ready >= before@.block_size;
            let n = if full { before@.block_size } else { before@.ready };
            &&& full ==> action is Finished
            &&& !full ==> (action matches DecodeAction::NextPacket { block_start_frame }
                && block_start_frame == n)
            &&& block.block[c]@ == if c < before@.pending.len() {
                data_block.block[c]@ + before@.pending[c].take(n as int)
            } else {
                data_block.block[c]@
            }
        },
{
    before.lemma_inv();
    lemma_block_holds_its_channels(data_block);
    lemma_block_holds_its_channels(block);
    lemma_actions_tell_the_block(action);
    if before@.playhead < before@.num_frames {
        lemma_decode_begins_with_rest(before@, data_block@);
    }
    assert(block@.len() == data_block@.len());
    assert(block@[c] == block.block[c]@);
    assert(data_block@[c] == data_block.block[c]@);
}

/// A packet gives every channel its samples: those before the read position are dropped, then the
/// block is filled as far as there is room. If it is full the call is done, otherwise the next
/// packet is wanted. An error is handed on, and changes nothing.
pub proof fn lemma_packet_gives_its_frames<T: Copy>(
    before: SymphoniaDecoder<T>,
    filled: usize,
    event: PacketEvent<T>,
    data_block: DataBlock<T>,
    result: Result<DecodeAction, symphonia::core::errors::Error>,
    after: SymphoniaDecoder<T>,
    block: DataBlock<T>,
    c: int,
)
    requires
        before.inv(),
        before@.ready == 0,
        filled < before@.block_size,
        event.valid(),
        exists|d: &mut SymphoniaDecoder<T>, data: &mut DataBlock<T>|
            *d == before && *final(d) == after && *data == data_block && *final(data)
                == block && #[trigger] call_ensures(
                SymphoniaDecoder::<T>::decode_packet,
                (d, filled, event, data),
                result,
            ),
        0 <= c < data_block.block.len(),
    ensures
        block.block.len() == data_block.block.len(),
        match event {
            PacketEvent::Decoded(audio) => {
                let frames = audio.frames as int;
                let dropped = if before@.skip < frames { before@.skip as int } else { frames };
                let room = before@.block_size - filled;
                let full = frames - dropped >= room;
                let given = if full { room } else { frames - dropped };
                &&& result matches Ok(action)
                &&& full ==> action is Finished
                &&& !full ==> (action matches DecodeAction::NextPacket { block_start_frame }
                    && block_start_frame == filled + given)
                &&& after@.skip == before@.skip - dropped
                &&& after@.ready == frames - dropped - given
                &&& block.block[c]@ == if c < audio.planes.len() {
                    data_block.block[c]@ + audio.planes[c]@.skip(dropped).take(given)
                } else {
                    data_block.block[c]@
                }
            },
            PacketEvent::Undecodable => {
                &&& result matches Ok(DecodeAction::NextPacket { block_start_frame })
                    && block_start_frame == filled
                &&& after@ == before@
                &&& block.block[c]@ == data_block.block[c]@
            },
            PacketEvent::End => {
                &&& result matches Ok(DecodeAction::Finished)
                &&& after@.playhead == before@.num_frames
                &&& block.block[c]@ == data_block.block[c]@
            },
            PacketEvent::Failed(error) => {
                &&& result == Err::<DecodeAction, _>(error)
                &&& after@ == before@
                &&& block.block[c]@ == data_block.block[c]@
            },
        },
{
    before.lemma_inv();
    lemma_events_arrive(event);
    lemma_block_holds_its_channels(data_block);
    lemma_block_holds_its_channels(block);
    lemma_no_frames_without_a_packet(before@, filled as nat, data_block@);
    if let Ok(action) = result {
        lemma_actions_tell_the_block(action);
    }
    if let Arrival::Decoded { planes, frames } = event@ {
        lemma_packet_is_split(before@, filled as nat, planes, frames, data_block@);
    }
    assert(block@.len() == data_block@.len());
    assert(block@[c] == block.block[c]@);
    assert(data_block@[c] == data_block.block[c]@);
}

/// A packet is wanted just if `decode` or `decode_packet` says so: what they ask for can be handed
/// in.
pub proof fn lemma_wish_is_wanted<T: Copy>(
    before: SymphoniaDecoder<T>,
    data_block: DataBlock<T>,
    block_start_frame: usize,
    after: SymphoniaDecoder<T>,
    block: DataBlock<T>,
    wants: bool,
)
    requires
        before.inv(),
        exists|d: &mut SymphoniaDecoder<T>, data: &mut DataBlock<T>|
            *d == before && *final(d) == after && *data == data_block && *final(data) == block
                && #[trigger] call_ensures(
                SymphoniaDecoder::<T>::decode,
                (d, data),
                DecodeAction::NextPacket { block_start_frame },
            ),
        call_ensures(SymphoniaDecoder::<T>::wants_packet, (&after, block_start_frame), wants),
    ensures
        wants,
        after.inv(),
{
    before.lemma_inv();
    if before@.playhead < before@.num_frames {
        lemma_decode_begins_with_rest(before@, data_block@);
    } else {
        lemma_nothing_is_decoded_at_end(before@, data_block@, Seq::empty());
    }
}

/// The same holds in the middle of a call.
pub proof fn lemma_further_wish_is_wanted<T: Copy>(
    before: SymphoniaDecoder<T>,
    filled: usize,
    event: PacketEvent<T>,
    data_block: DataBlock<T>,
    block_start_frame: usize,
    after: SymphoniaDecoder<T>,
    block: DataBlock<T>,
    wanted: bool,
    wants: bool,
)
    requires
        before.inv(),
        event.valid(),
        call_ensures(SymphoniaDecoder::<T>::wants_packet, (&before, filled), wanted),
        wanted,
        exists|d: &mut SymphoniaDecoder<T>, data: &mut DataBlock<T>|
            *d == before && *final(d) == after && *data == data_block && *final(data) == block
                && #[trigger] call_ensures(
                SymphoniaDecoder::<T>::decode_packet,
                (d, filled, event, data),
                Ok::<DecodeAction, symphonia::core::errors::Error>(
                    DecodeAction::NextPacket { block_start_frame },
                ),
            ),
        call_ensures(SymphoniaDecoder::<T>::wants_packet, (&after, block_start_frame), wants),
    ensures
        wants,
        after.inv(),
{
    before.lemma_inv();
    lemma_events_arrive(event);
    lemma_no_frames_without_a_packet(before@, filled as nat, data_block@);
    if let Arrival::Decoded { planes, frames } = event@ {
        lemma_packet_is_split(before@, filled as nat, planes, frames, data_block@);
    }
}

/// A track can be opened just if there is one, for audio, whose number of frames is known. The
/// opening then is one of that track at that frame, with nothing to be dropped yet.
pub proof fn lemma_opening_needs_a_known_track(
    track: Option<TrackInfo>,
    start_frame: usize,
    block_size: usize,
    result: Result<Opening, OpenError>,
)
    requires
        call_ensures(Opening::new, (track, start_frame, block_size), result),
    ensures
        result is Ok <==> (track matches Some(track) && track.codec_params is Some
            && track.num_frames is Some),
        result matches Err(error) ==> if track is Some && track->0.codec_params is Some {
            error is NoNumFrames
        } else {
            error is NoDefaultTrack
        },
        result matches Ok(opening) ==> {
            let track = track->0;
            &&& opening.start_frame == start_frame
            &&& opening.block_size == block_size
            &&& track.num_frames->0 <= usize::MAX ==> opening.num_frames == track.num_frames->0
            &&& opening.sample_rate == track.codec_params->0.sample_rate
            &&& opening.channels == track.codec_params->0.channels
            &&& opening.time_base == track.time_base
            &&& opening.track_id == track.id
            &&& opening.seek_diff == 0
        },
{
}

/// Once the reader has been moved for an opening, as many frames are to be dropped as lie between
/// its timestamp and the begin of the start frame, to the nearest frame, and none if it is just
/// where it was asked to be. Nothing else changes. If it could not be moved its error is handed on.
pub proof fn lemma_opening_drops_what_comes_before(
    before: Opening,
    result: Result<SeekedTo, symphonia::core::errors::Error>,
    done: Result<(), OpenError>,
    after: Opening,
)
    requires
        exists|o: &mut Opening|
            *o == before && *final(o) == after && #[trigger] call_ensures(
                Opening::seek_done,
                (o, result),
                done,
            ),
        before.time_base matches Some(tb) ==> tb.valid(),
    ensures
        after == (Opening { seek_diff: after.seek_diff, ..before }),
        match result {
            Ok(seeked) => {
                let n = after.seek_diff as int;
                let one = frame_len(before.time_base);
                let between = before.start_frame * one - seeked.actual_ts * tick_len(
                    before.sample_rate,
                    before.time_base,
                );
                &&& done is Ok
                &&& if seeked.actual_ts == seeked.required_ts {
                    n == 0
                } else {
                    &&& n > 0 ==> 2 * (n * one - between) <= one
                    &&& n < usize::MAX ==> -one <= 2 * (n * one - between)
                }
            },
            Err(error) => {
                &&& done == Err::<(), _>(OpenError::Format(error))
                &&& after.seek_diff == before.seek_diff
            },
        },
{
    if let Ok(seeked) = result {
        lemma_frames_to_drop_at_opening(before, seeked);
    }
}

/// Packets that cannot be decoded are passed over in an opening. The end of the file and any other
/// failure end it.
pub proof fn lemma_opening_waits_for_a_packet<T: Copy>(
    opening: Opening,
    event: PacketEvent<T>,
    action: Result<OpenAction<T>, OpenError>,
)
    requires
        call_ensures(Opening::first_packet::<T>, (&opening, event), action),
    ensures
        match event {
            PacketEvent::Decoded(_) => action matches Ok(OpenAction::Opened { decoder })
                && decoder.inv(),
            PacketEvent::Undecodable => action matches Ok(OpenAction::NextPacket),
            PacketEvent::End => action matches Err(OpenError::NoAudioPackets),
            PacketEvent::Failed(error) => action == Err::<OpenAction<T>, _>(
                OpenError::Format(error),
            ),
        },
{
}

/// `frame_to_ts` gives the tick that is nearest to the begin of the frame, and `ts_to_frame` the
/// frame that is nearest to the begin of the tick, as far as either can be written. Where a tick is
/// no longer than a frame the one undoes the other.
pub proof fn lemma_frames_and_timestamps(
    frame: u64,
    ts: i64,
    found: u64,
    sample_rate: u32,
    time_base: Option<TimeBase>,
)
    requires
        time_base matches Some(tb) ==> tb.valid(),
        call_ensures(frame_to_ts, (frame, sample_rate, time_base), ts),
        call_ensures(ts_to_frame, (ts, sample_rate, time_base), found),
    ensures
        ({
            let tick = tick_len(Some(sample_rate), time_base);
            let one = frame_len(time_base);
            &&& 0 <= ts
            &&& 2 * (ts * tick - frame * one) <= tick
            &&& ts < i64::MAX ==> -tick < 2 * (ts * tick - frame * one)
            &&& 2 * (found * one - ts * tick) <= one
            &&& found < u64::MAX ==> -one < 2 * (found * one - ts * tick)
            &&& tick <= one && ts < i64::MAX ==> found == frame
        }),
{
    let tick = tick_len(Some(sample_rate), time_base);
    let one = frame_len(time_base);
    lemma_timestamp_of_frame(frame as nat, Some(sample_rate), time_base);
    lemma_frame_of_timestamp(ts as nat, Some(sample_rate), time_base);
    let exact = timestamp_frame(ts as nat, sample_rate as nat, time_base);
    assert(found * one <= exact * one) by (nonlinear_arith)
        requires
            found <= exact,
            one > 0,
    ;
    if tick <= one && ts < i64::MAX {
        lemma_timestamp_frame_inverse(frame as nat, sample_rate as nat, time_base);
    }
}

/// The frame that is nearest to any timestamp, also one that is not that of a frame.
pub proof fn lemma_frame_is_nearest(
    ts: i64,
    frame: u64,
    sample_rate: u32,
    time_base: Option<TimeBase>,
)
    requires
        time_base matches Some(tb) ==> tb.valid(),
        ts >= 0,
        call_ensures(ts_to_frame, (ts, sample_rate, time_base), frame),
    ensures
        ({
            let off = frame * frame_len(time_base) - ts * tick_len(Some(sample_rate), time_base);
            &&& 2 * off <= frame_len(time_base)
            &&& frame < u64::MAX ==> -frame_len(time_base) < 2 * off
        }),
{
    let one = frame_len(time_base);
    lemma_frame_of_timestamp(ts as nat, Some(sample_rate), time_base);
    let exact = timestamp_frame(ts as nat, sample_rate as nat, time_base);
    assert(frame * one <= exact * one) by (nonlinear_arith)
        requires
            frame <= exact,
            one > 0,
    ;
}

/// The latest metadata can be asked for again and again.
pub proof fn lemma_latest_metadata_stays<'a, T: Copy>(
    before: symphonia::core::meta::Metadata<'a>,
    latest: Option<symphonia::core::meta::MetadataRevision>,
    after: symphonia::core::meta::Metadata<'a>,
    again: Option<symphonia::core::meta::MetadataRevision>,
    end: symphonia::core::meta::Metadata<'a>,
)
    requires
        exists|m: &mut symphonia::core::meta::Metadata<'a>|
            *m == before && *final(m) == after && #[trigger] call_ensures(
                SymphoniaDecoder::<T>::get_metadata,
                (m,),
                latest,
            ),
        exists|m: &mut symphonia::core::meta::Metadata<'a>|
            *m == after && *final(m) == end && #[trigger] call_ensures(
                SymphoniaDecoder::<T>::get_metadata,
                (m,),
                again,
            ),
    ensures
        latest == if metadata_revisions(before).len() == 0 {
            None
        } else {
            Some(metadata_revisions(before).last())
        },
        again == latest,
        metadata_revisions(end) == metadata_revisions(after),
{
}

/// A new block has as many channels as were asked for, and all of them are empty.
pub proof fn lemma_new_block_is_empty<T: Copy>(
    num_channels: usize,
    block_size: usize,
    block: DataBlock<T>,
)
    requires
        call_ensures(DataBlock::<T>::new, (num_channels, block_size), block),
    ensures
        block.block.len() == num_channels,
        forall|c: int| 0 <= c < num_channels ==> (#[trigger] block.block[c]).len() == 0,
{
    lemma_block_holds_its_channels(block);
    assert forall|c: int| 0 <= c < num_channels implies (#[trigger] block.block[c]).len() == 0 by {
        assert(block@[c] == block.block[c]@);
    }
}

/// A block that has been cleared has the channels that it had, and all of them are empty.
pub proof fn lemma_cleared_block_is_empty<T: Copy>(before: DataBlock<T>, after: DataBlock<T>)
    requires
        exists|d: &mut DataBlock<T>|
            *d == before && *final(d) == after && #[trigger] call_ensures(
                DataBlock::<T>::clear,
                (d,),
                (),
            ),
    ensures
        after.block.len() == before.block.len(),
        forall|c: int| 0 <= c < after.block.len() ==> (#[trigger] after.block[c]).len() == 0,
{
    lemma_block_holds_its_channels(before);
    lemma_block_holds_its_channels(after);
    assert forall|c: int| 0 <= c < after.block.len() implies (#[trigger] after.block[c]).len()
        == 0 by {
        assert(after@[c] == after.block[c]@);
    }
}

/// There is a timebase for any two numbers that are not zero, and its tick lasts as long as they
/// say.
pub proof fn lemma_timebase_is_as_told(
    numer: u32,
    denom: u32,
    time_base: Option<TimeBase>,
    sample_rate: u32,
)
    requires
        call_ensures(TimeBase::try_new, (numer, denom), time_base),
    ensures
        time_base is None <==> numer == 0 || denom == 0,
        time_base is Some ==> {
            &&& frame_len(time_base) == denom
            &&& sample_rate > 0 ==> tick_len(Some(sample_rate), time_base) == numer * sample_rate
        },
{
}

} // verus!
