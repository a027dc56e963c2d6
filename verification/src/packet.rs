//! What a decoder is told about the packets of a track and about seeks in it, and what it asks for.

use crate::channels::ChannelLayout;
use crate::data::channels_view;
use crate::time::{count_frames_between, frames_between, timestamp_position, TimeBase};
use vstd::prelude::*;

verus! {

/// The error of the `symphonia` crate, carried through unread.
#[verifier::external_type_specification]
#[verifier::external_body]
pub struct ExError(symphonia::core::errors::Error);

/// The audio that was decoded out of one packet.
pub struct DecodedAudio<T> {
    /// What the channels are.
    pub channels: ChannelLayout,
    /// The samples of each channel.
    pub planes: Vec<Vec<T>>,
    /// The number of frames, which is the number of samples in every channel.
    pub frames: usize,
}

impl<T> DecodedAudio<T> {
    pub open spec fn valid(&self) -> bool {
        forall|c: int| 0 <= c < self.planes.len() ==> (#[trigger] self.planes[c]).len() == self.frames
    }
}

/// What came of asking for the next packet and decoding it.
pub enum PacketEvent<T> {
    /// There was a packet, and this is its audio.
    Decoded(DecodedAudio<T>),
    /// There was a packet, but its contents are malformed. This is not fatal.
    Undecodable,
    /// There are no more packets.
    End,
    /// Reading or decoding failed for good.
    Failed(symphonia::core::errors::Error),
}

impl<T> PacketEvent<T> {
    pub open spec fn valid(&self) -> bool {
        self matches PacketEvent::Decoded(audio) ==> audio.valid()
    }
}

impl<T> View for PacketEvent<T> {
    type V = Arrival<T>;

    open spec fn view(&self) -> Arrival<T> {
        match self {
            PacketEvent::Decoded(audio) => Arrival::Decoded {
                planes: channels_view(audio.planes@),
                frames: audio.frames as nat,
            },
            PacketEvent::Undecodable => Arrival::Undecodable,
            PacketEvent::End => Arrival::End,
            PacketEvent::Failed(_) => Arrival::Failed,
        }
    }
}

/// A packet event as a mathematical value.
pub enum Arrival<T> {
    Decoded { planes: Seq<Seq<T>>, frames: nat },
    Undecodable,
    End,
    Failed,
}

impl<T> Arrival<T> {
    /// Every channel has as many samples as there are frames.
    pub open spec fn valid(self) -> bool {
        self matches Arrival::Decoded { planes, frames } ==> forall|c: int|
            0 <= c < planes.len() ==> (#[trigger] planes[c]).len() == frames
    }
}

/// A request to move the reader to a timestamp of a track.
#[derive(Debug, Clone, Copy)]
pub struct SeekTarget {
    /// The timestamp, in timebase ticks.
    pub ts: i64,
    /// The track whose timebase it is.
    pub track_id: u32,
}

/// Where a seek has moved the reader.
#[derive(Debug, Clone, Copy)]
pub struct SeekedTo {
    /// The timestamp that was asked for.
    pub required_ts: i64,
    /// The timestamp of the packet that comes next.
    pub actual_ts: i64,
}

impl SeekedTo {
    /// The next packet is no later than what was asked for, as is always so for an accurate
    /// seek.
    pub open spec fn valid(&self) -> bool {
        self.actual_ts <= self.required_ts
    }

    /// The frame with which the reader goes on after a seek to `frame`, as far as timestamps tell
    /// it: the frame itself if the reader is just at the timestamp that was asked for, otherwise
    /// the frame that is nearest to its timestamp.
    pub open spec fn first_frame(
        &self,
        frame: nat,
        sample_rate: nat,
        time_base: Option<TimeBase>,
    ) -> int {
        if self.actual_ts == self.required_ts {
            frame as int
        } else {
            timestamp_position(self.actual_ts as int, sample_rate, time_base)
        }
    }

    /// The number of frames that come before `frame`.
    pub open spec fn frames_before(
        &self,
        frame: nat,
        sample_rate: nat,
        time_base: Option<TimeBase>,
    ) -> nat {
        if self.actual_ts == self.required_ts {
            0
        } else {
            frames_between(self.actual_ts as int, frame, sample_rate, time_base)
        }
    }

    /// The number of frames to drop after a seek to `frame`. There are none if the reader is just
    /// at the timestamp that was asked for: both may have been rounded to it, so that it does not
    /// tell the frame from the begin of the packet.
    pub fn frames_to_skip(
        &self,
        frame: usize,
        sample_rate: u32,
        time_base: Option<TimeBase>,
    ) -> (n: usize)
        ensures
            n == self.frames_before(frame as nat, sample_rate as nat, time_base),
    {
        if self.actual_ts == self.required_ts {
            0
        } else {
            count_frames_between(self.actual_ts, frame, sample_rate, time_base)
        }
    }
}

/// How a call of `decode` goes on.
#[derive(Debug, Clone, Copy, PartialEq, Eq)]
pub enum DecodeAction {
    /// The next packet is to be decoded and handed in, with the number of frames that the block
    /// holds so far.
    NextPacket { block_start_frame: usize },
    /// The block is done.
    Finished,
}

impl View for DecodeAction {
    type V = Option<nat>;

    /// The number of frames in the block, as long as a packet is wanted.
    open spec fn view(&self) -> Option<nat> {
        match self {
            DecodeAction::NextPacket { block_start_frame } => Some(*block_start_frame as nat),
            DecodeAction::Finished => None,
        }
    }
}

} // verus!
