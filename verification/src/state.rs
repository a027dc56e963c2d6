//! The state of a decoder as a mathematical value, and how it moves on.

use crate::data::appended;
use crate::packet::{Arrival, SeekTarget, SeekedTo};
use crate::time::{frame_timestamp, rate_or_default, TimeBase};
use vstd::prelude::*;

verus! {

/// All that decides how a decoder goes on.
#[verifier::ext_equal]
pub struct DecoderState<T> {
    /// The frames that have been decoded and not yet been handed out, channel by channel.
    pub pending: Seq<Seq<T>>,
    /// The number of those frames.
    pub ready: nat,
    /// The number of frames still to be thrown away, counted from the next packet on.
    pub skip: nat,
    /// The current read position.
    pub playhead: nat,
    /// The number of frames in the file.
    pub num_frames: nat,
    /// The number of channels in the file.
    pub num_channels: nat,
    /// The number of frames that one block takes.
    pub block_size: nat,
    /// The sample rate, if the track tells it.
    pub sample_rate: Option<u32>,
    /// The timebase, if the track has one.
    pub time_base: Option<TimeBase>,
    /// The track that is decoded.
    pub track_id: u32,
}

/// A decoder in the middle of a call of `decode`.
#[verifier::ext_equal]
pub struct Step<T> {
    /// The decoder.
    pub state: DecoderState<T>,
    /// The block that is being filled.
    pub data: Seq<Seq<T>>,
    /// The number of frames in the block as long as a packet is wanted, nothing once the call is
    /// done.
    pub next: Option<nat>,
}

impl<T> DecoderState<T> {
    /// Every channel has the same number of undelivered frames, and there are none as long as
    /// frames are to be thrown away.
    pub open spec fn valid(self) -> bool {
        &&& forall|c: int|
            0 <= c < self.pending.len() ==> (#[trigger] self.pending[c]).len() == self.ready
        &&& self.ready > 0 ==> self.skip == 0
        &&& self.num_frames <= usize::MAX
    }

    /// The end of the file has been reached.
    pub open spec fn at_end(self) -> bool {
        self.playhead >= self.num_frames
    }

    /// The state once `n` frames have been handed out.
    pub open spec fn delivered(self, n: int) -> Self {
        DecoderState {
            pending: Seq::new(
                self.pending.len(),
                |c: int| self.pending[c].subrange(n, self.ready as int),
            ),
            ready: (self.ready - n) as nat,
            ..self
        }
    }

    /// The state with nothing left to hand out.
    pub open spec fn emptied(self) -> Self {
        DecoderState {
            pending: Seq::new(self.pending.len(), |c: int| Seq::<T>::empty()),
            ready: 0,
            ..self
        }
    }

    /// The state once a packet has come in: if it reaches beyond the frames to be thrown away, the
    /// rest of it is next to be handed out, otherwise all of it is thrown away.
    pub open spec fn loaded(self, planes: Seq<Seq<T>>, frames: nat) -> Self {
        if self.skip < frames {
            DecoderState {
                pending: Seq::new(
                    planes.len(),
                    |c: int| planes[c].subrange(self.skip as int, frames as int),
                ),
                ready: (frames - self.skip) as nat,
                skip: 0,
                ..self
            }
        } else {
            DecoderState { skip: (self.skip - frames) as nat, ..self }
        }
    }

    /// The read position after a whole block, as far as it can be written as one.
    pub open spec fn next_playhead(self) -> nat {
        if self.playhead + self.block_size <= usize::MAX {
            self.playhead + self.block_size
        } else {
            usize::MAX as nat
        }
    }

    /// Moves undelivered frames into a block that holds `filled` frames, until the block is full
    /// or there are none left. If the block is full the call is done, otherwise a packet is
    /// wanted.
    pub open spec fn fill(self, filled: nat, data: Seq<Seq<T>>) -> Step<T> {
        let room = self.block_size - filled;
        let n = if self.ready < room { self.ready as int } else { room };
        let state = self.delivered(n);
        let data = appended(data, self.pending, 0, n);
        if n == room {
            Step {
                state: DecoderState { playhead: self.next_playhead(), ..state },
                data,
                next: None,
            }
        } else {
            Step { state, data, next: Some((filled + n) as nat) }
        }
    }

    /// The begin of a call of `decode`, which does nothing at the end of the file.
    pub open spec fn start(self, data: Seq<Seq<T>>) -> Step<T> {
        if self.at_end() {
            Step { state: self, data, next: None }
        } else {
            self.fill(0, data)
        }
    }

    /// A packet event in the middle of a call of `decode`, while the block holds `filled` frames.
    pub open spec fn receive(self, filled: nat, arrival: Arrival<T>, data: Seq<Seq<T>>) -> Step<T> {
        match arrival {
            Arrival::Decoded { planes, frames } => if self.skip < frames {
                self.loaded(planes, frames).fill(filled, data)
            } else {
                Step { state: self.loaded(planes, frames), data, next: Some(filled) }
            },
            Arrival::Undecodable => Step { state: self, data, next: Some(filled) },
            Arrival::End => Step {
                state: DecoderState { playhead: self.num_frames, ..self },
                data,
                next: None,
            },
            Arrival::Failed => Step { state: self, data, next: None },
        }
    }

    /// The read position that a seek to `frame` sets: the frame, or the end of the file if the
    /// frame lies outside of it.
    pub open spec fn sought(self, frame: nat) -> Self {
        DecoderState {
            playhead: if frame < self.num_frames {
                frame
            } else {
                self.num_frames
            },
            ..self
        }
    }

    /// Where the reader has to go for a seek to `frame`. Nowhere if the frame lies outside of
    /// the file.
    pub open spec fn seek_target(self, frame: nat) -> Option<SeekTarget> {
        if frame < self.num_frames {
            Some(SeekTarget { ts: self.timestamp(frame) as i64, track_id: self.track_id })
        } else {
            None
        }
    }

    /// The timestamp at which `frame` begins.
    pub open spec fn timestamp(self, frame: nat) -> int {
        frame_timestamp(frame, rate_or_default(self.sample_rate), self.time_base)
    }

    /// The number of frames that come before the read position, now that a seek to it has moved
    /// the reader.
    pub open spec fn frames_before(self, seeked: SeekedTo) -> nat {
        seeked.frames_before(self.playhead, rate_or_default(self.sample_rate), self.time_base)
    }

    /// The state once the reader has moved, `skip` frames short of the read position.
    pub open spec fn landed(self, skip: nat) -> Self {
        DecoderState { skip, ..self.emptied() }
    }
}

} // verus!
