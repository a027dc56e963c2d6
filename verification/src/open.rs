//! How a track is opened.

use crate::channels::ChannelLayout;
use crate::data::channels_view;
use crate::packet::{PacketEvent, SeekTarget, SeekedTo};
use crate::state::DecoderState;
use crate::symphonia_decoder::SymphoniaDecoder;
use crate::time::{
    frame_timestamp, frame_to_ts, rate_or_default, TimeBase, DEFAULT_SAMPLE_RATE,
};
use vstd::prelude::*;

verus! {

/// What a container tells about the codec of an audio track.
#[derive(Debug, Clone)]
pub struct AudioParams {
    /// The sample rate, if it is known.
    pub sample_rate: Option<u32>,
    /// The channels, if they are known.
    pub channels: Option<ChannelLayout>,
}

/// What a container tells about a track.
#[derive(Debug, Clone)]
pub struct TrackInfo {
    /// The identifier of the track.
    pub id: u32,
    /// The codec, if it is known and one for audio.
    pub codec_params: Option<AudioParams>,
    /// The number of frames, if it is known.
    pub num_frames: Option<u64>,
    /// The timebase, if there is one.
    pub time_base: Option<TimeBase>,
}

/// Why a track could not be opened.
#[derive(Debug)]
pub enum OpenError {
    /// The file has no default audio track.
    NoDefaultTrack,
    /// The number of frames in the track is not known.
    NoNumFrames,
    /// The file ended before there was a packet that could be decoded.
    NoAudioPackets,
    /// The file could not be read or decoded.
    Format(symphonia::core::errors::Error),
}

/// A track that is being opened.
pub struct Opening {
    /// The first frame to be handed out.
    pub start_frame: usize,
    /// The number of frames in a block.
    pub block_size: usize,
    /// The number of frames in the track.
    pub num_frames: usize,
    /// The sample rate, if it is known.
    pub sample_rate: Option<u32>,
    /// The channels that the track is said to have, if they are known.
    pub channels: Option<ChannelLayout>,
    /// The timebase of the track, if there is one.
    pub time_base: Option<TimeBase>,
    /// The identifier of the track.
    pub track_id: u32,
    /// The number of leading frames that lie before `start_frame`.
    pub seek_diff: usize,
}

/// How the opening of a track goes on.
pub enum OpenAction<T> {
    /// The next packet is to be decoded and handed in.
    NextPacket,
    /// The track is open.
    Opened { decoder: SymphoniaDecoder<T> },
}

impl Opening {
    /// Begins to open the default audio track of a file, to be read from `start_frame` on in
    /// blocks of `block_size` frames.
    pub fn new(track: Option<TrackInfo>, start_frame: usize, block_size: usize) -> (opening: Result<
        Opening,
        OpenError,
    >)
        ensures
            opening matches Err(error) ==> error is NoDefaultTrack || error is NoNumFrames,
            (opening matches Err(error) && error is NoDefaultTrack) <==> (track is None
                || track->0.codec_params is None),
            (opening matches Err(error) && error is NoNumFrames) <==> (track is Some
                && track->0.codec_params is Some && track->0.num_frames is None),
            opening matches Ok(opening) ==> opening == (Opening {
                start_frame,
                block_size,
                num_frames: track->0.num_frames->0 as usize,
                sample_rate: track->0.codec_params->0.sample_rate,
                channels: track->0.codec_params->0.channels,
                time_base: track->0.time_base,
                track_id: track->0.id,
                seek_diff: 0,
            }),
    {
        let track = match track {
            Some(track) => track,
            None => return Err(OpenError::NoDefaultTrack),
        };
        let params = match track.codec_params {
            Some(params) => params,
            None => return Err(OpenError::NoDefaultTrack),
        };
        let num_frames: usize = match track.num_frames {
            Some(num_frames) => num_frames as usize,
            None => return Err(OpenError::NoNumFrames),
        };
        Ok(
            Opening {
                start_frame,
                block_size,
                num_frames,
                sample_rate: params.sample_rate,
                channels: params.channels,
                time_base: track.time_base,
                track_id: track.id,
                seek_diff: 0,
            },
        )
    }

    /// The timestamp at which `start_frame` begins.
    pub open spec fn start_timestamp(&self) -> int {
        frame_timestamp(
            self.start_frame as nat,
            rate_or_default(self.sample_rate),
            self.time_base,
        )
    }

    /// The number of frames that come before `start_frame`, now that a seek to it has moved the
    /// reader.
    pub open spec fn frames_before(&self, seeked: SeekedTo) -> nat {
        seeked.frames_before(
            self.start_frame as nat,
            rate_or_default(self.sample_rate),
            self.time_base,
        )
    }

    /// Where the reader has to be moved before the first packet is read. It stays where it is if
    /// the track is to be read from its begin.
    pub fn seek_target(&self) -> (target: Option<SeekTarget>)
        ensures
            self.start_frame == 0 ==> target is None,
            self.start_frame != 0 ==> target == Some(
                SeekTarget { ts: self.start_timestamp() as i64, track_id: self.track_id },
            ),
    {
        if self.start_frame == 0 {
            return None;
        }
        let sample_rate: u32 = self.sample_rate.unwrap_or(DEFAULT_SAMPLE_RATE);
        Some(
            SeekTarget {
                ts: frame_to_ts(self.start_frame as u64, sample_rate, self.time_base),
                track_id: self.track_id,
            },
        )
    }

    /// Notes where the reader has been moved, or hands its error on. A reader moves to the begin
    /// of a packet, so that some frames that lie before `start_frame` may come first.
    pub fn seek_done(&mut self, result: Result<SeekedTo, symphonia::core::errors::Error>) -> (done:
        Result<(), OpenError>)
        requires
            result matches Ok(seeked) ==> seeked.valid(),
        ensures
            match result {
                Ok(seeked) => done is Ok && *final(self) == (Opening {
                    seek_diff: old(self).frames_before(seeked) as usize,
                    ..*old(self)
                }),
                Err(error) => done == Err::<(), _>(OpenError::Format(error)) && *final(self) == *old(
                    self,
                ),
            },
    {
        match result {
            Ok(seeked) => {
                let sample_rate: u32 = self.sample_rate.unwrap_or(DEFAULT_SAMPLE_RATE);
                self.seek_diff =
                    seeked.frames_to_skip(self.start_frame, sample_rate, self.time_base);
                Ok(())
            },
            Err(error) => Err(OpenError::Format(error)),
        }
    }

    /// The decoder before its first packet, which is to have `num_channels` channels.
    pub open spec fn waiting<T>(&self, num_channels: nat) -> DecoderState<T> {
        DecoderState {
            pending: Seq::empty(),
            ready: 0,
            skip: self.seek_diff as nat,
            playhead: self.start_frame as nat,
            num_frames: self.num_frames as nat,
            num_channels,
            block_size: self.block_size as nat,
            sample_rate: self.sample_rate,
            time_base: self.time_base,
            track_id: self.track_id,
        }
    }

    /// Goes on with the opening, now that the next packet has been asked for. The first packet
    /// that can be decoded ends it.
    ///
    /// A track might not tell its channels. They are those of the first decoded packet. If it does
    /// tell them, they have to be the same.
    pub fn first_packet<T: Copy>(&self, event: PacketEvent<T>) -> (action: Result<
        OpenAction<T>,
        OpenError,
    >)
        requires
            event.valid(),
            self.channels matches Some(channels) ==> (event matches PacketEvent::Decoded(audio)
                ==> channels.same(&audio.channels)),
        ensures
            match event {
                PacketEvent::Decoded(audio) => action matches Ok(
                    OpenAction::Opened { decoder },
                ) && decoder.inv() && decoder@ == self.waiting::<T>(
                    audio.planes.len() as nat,
                ).loaded(channels_view(audio.planes@), audio.frames as nat)
                    && decoder@.num_channels == audio.planes.len() && decoder@.num_frames
                    == self.num_frames && decoder@.sample_rate == self.sample_rate
                    && decoder@.time_base == self.time_base && decoder@.track_id == self.track_id
                    && decoder@.block_size == self.block_size && decoder@.playhead
                    == self.start_frame,
                PacketEvent::Undecodable => action == Ok::<_, OpenError>(OpenAction::<T>::NextPacket),
                PacketEvent::End => action == Err::<OpenAction<T>, _>(OpenError::NoAudioPackets),
                PacketEvent::Failed(error) => action == Err::<OpenAction<T>, _>(
                    OpenError::Format(error),
                ),
            },
    {
        match event {
            PacketEvent::Decoded(audio) => {
                let mut decoder = SymphoniaDecoder::waiting(self, audio.planes.len());
                let _ = decoder.load(audio);
                Ok(OpenAction::Opened { decoder })
            },
            // Decode errors are not fatal. Continue by decoding the next packet.
            PacketEvent::Undecodable => Ok(OpenAction::NextPacket),
            PacketEvent::End => Err(OpenError::NoAudioPackets),
            PacketEvent::Failed(error) => Err(OpenError::Format(error)),
        }
    }
}

} // verus!
