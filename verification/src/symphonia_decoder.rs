//! The decoder.

use crate::data::{appended, channels_view, DataBlock, FileInfo};
use crate::info::{latest_only, metadata_revisions};
use crate::open::Opening;
use crate::packet::{DecodeAction, DecodedAudio, PacketEvent, SeekTarget, SeekedTo};
use crate::state::{DecoderState, Step};
use crate::time::{frame_to_ts, TimeBase, DEFAULT_SAMPLE_RATE};
use vstd::prelude::*;

verus! {

/// The default number of frames in a block.
pub const DEFAULT_BLOCK_SIZE: usize = 16384;

/// The default number of blocks in a cache block.
pub const DEFAULT_NUM_CACHE_BLOCKS: usize = 0;

/// The default number of blocks to store ahead of the cache block.
pub const DEFAULT_NUM_LOOK_AHEAD_BLOCKS: usize = 8;

/// A decoder of one audio track into blocks of equal size.
///
/// It neither reads packets nor decodes them: it tells when a packet or a seek is wanted, and is
/// told what came of it.
pub struct SymphoniaDecoder<T> {
    decode_buffer: Vec<Vec<T>>,
    decode_buffer_len: usize,
    curr_decode_buffer_frame: usize,
    num_frames: usize,
    num_channels: usize,
    sample_rate: Option<u32>,
    /// The audio track's timebase and id, used to turn a frame index into a seek timestamp.
    time_base: Option<TimeBase>,
    track_id: u32,
    block_size: usize,
    playhead_frame: usize,
    /// Nothing in the buffer is to be handed out any more.
    reset_decode_buffer: bool,
    seek_diff: usize,
}

impl<T> View for SymphoniaDecoder<T> {
    type V = DecoderState<T>;

    closed spec fn view(&self) -> DecoderState<T> {
        let curr = self.curr_decode_buffer_frame as int;
        let len = self.decode_buffer_len as int;
        DecoderState {
            pending: Seq::new(
                self.decode_buffer.len() as nat,
                |c: int|
                    if self.reset_decode_buffer {
                        Seq::empty()
                    } else {
                        self.decode_buffer[c]@.subrange(curr, len)
                    },
            ),
            ready: if self.reset_decode_buffer {
                0
            } else {
                (len - curr) as nat
            },
            skip: self.seek_diff as nat,
            playhead: self.playhead_frame as nat,
            num_frames: self.num_frames as nat,
            num_channels: self.num_channels as nat,
            block_size: self.block_size as nat,
            sample_rate: self.sample_rate,
            time_base: self.time_base,
            track_id: self.track_id,
        }
    }
}

impl<T: Copy> SymphoniaDecoder<T> {
    /// The buffer holds as many frames as it says, the position in it is one of them or the end,
    /// and frames are handed out only once none are to be thrown away.
    pub closed spec fn inv(&self) -> bool {
        &&& forall|c: int|
            0 <= c < self.decode_buffer.len() ==> (#[trigger] self.decode_buffer[c]).len()
                == self.decode_buffer_len
        &&& self.curr_decode_buffer_frame <= self.decode_buffer_len
        &&& !self.reset_decode_buffer && self.curr_decode_buffer_frame < self.decode_buffer_len
            ==> self.seek_diff == 0
    }

    /// The view of a decoder is always a valid state.
    pub proof fn lemma_inv(&self)
        requires
            self.inv(),
        ensures
            self@.valid(),
    {
    }

    /// A decoder of a track of `num_channels` channels that is being opened, before its first
    /// packet.
    pub(crate) fn waiting(opening: &Opening, num_channels: usize) -> (decoder: Self)
        ensures
            decoder.inv(),
            decoder@ == opening.waiting::<T>(num_channels as nat),
    {
        let decoder = SymphoniaDecoder {
            decode_buffer: Vec::new(),
            decode_buffer_len: 0,
            curr_decode_buffer_frame: 0,
            num_frames: opening.num_frames,
            num_channels,
            sample_rate: opening.sample_rate,
            time_base: opening.time_base,
            track_id: opening.track_id,
            block_size: opening.block_size,
            playhead_frame: opening.start_frame,
            reset_decode_buffer: true,
            seek_diff: opening.seek_diff,
        };
        assert(decoder@.pending =~= Seq::<Seq<T>>::empty());
        decoder
    }

    /// Takes in the audio of the next packet. Frames that lie before the position of the last
    /// seek are dropped. The result tells whether any are left.
    pub(crate) fn load(&mut self, audio: DecodedAudio<T>) -> (any: bool)
        requires
            old(self).inv(),
            audio.valid(),
            old(self)@.ready == 0,
        ensures
            final(self).inv(),
            any == (old(self)@.skip < audio.frames),
            final(self)@ == old(self)@.loaded(channels_view(audio.planes@), audio.frames as nat),
    {
        if self.seek_diff < audio.frames {
            self.decode_buffer_len = audio.frames;
            self.decode_buffer = audio.planes;
            self.curr_decode_buffer_frame = self.seek_diff;
            self.seek_diff = 0;
            self.reset_decode_buffer = false;
            true
        } else {
            self.seek_diff -= audio.frames;
            false
        }
    }

    /// Moves decoded frames into a block that holds `block_start_frame` frames.
    fn fill(&mut self, block_start_frame: usize, data_block: &mut DataBlock<T>) -> (action:
        DecodeAction)
        requires
            old(self).inv(),
            block_start_frame <= old(self)@.block_size,
        ensures
            final(self).inv(),
            (Step { state: final(self)@, data: final(data_block)@, next: action@ })
                == old(self)@.fill(block_start_frame as nat, old(data_block)@),
    {
        let ghost before = *self;
        // Find the maximum amount of frames that can be copied.
        let room: usize = self.block_size - block_start_frame;
        let ready: usize = if self.reset_decode_buffer {
            0
        } else {
            self.decode_buffer_len - self.curr_decode_buffer_frame
        };
        let n: usize = if ready < room {
            ready
        } else {
            room
        };

        if n != 0 {
            data_block.append(&self.decode_buffer, self.curr_decode_buffer_frame, n);
            self.curr_decode_buffer_frame += n;
            if self.curr_decode_buffer_frame >= self.decode_buffer_len {
                self.reset_decode_buffer = true;
            }
        }
        proof {
            assert(self@.pending =~~= before@.delivered(n as int).pending);
            assert(data_block@ =~~= appended(old(data_block)@, before@.pending, 0, n as int));
        }

        if n == room {
            self.playhead_frame = self.playhead_frame.saturating_add(self.block_size);
            DecodeAction::Finished
        } else {
            DecodeAction::NextPacket { block_start_frame: block_start_frame + n }
        }
    }

    /// Begins to fill `data_block` from the current read position. At the end of the file nothing
    /// is done.
    pub fn decode(&mut self, data_block: &mut DataBlock<T>) -> (action: DecodeAction)
        requires
            old(self).inv(),
        ensures
            final(self).inv(),
            (Step { state: final(self)@, data: final(data_block)@, next: action@ })
                == old(self)@.start(old(data_block)@),
    {
        if self.playhead_frame >= self.num_frames {
            // Do nothing if reached the end of the file.
            return DecodeAction::Finished;
        }
        self.fill(0, data_block)
    }

    /// Whether a call of `decode` whose block holds `block_start_frame` frames waits for a packet:
    /// the block is not full and all decoded frames have been handed out.
    pub fn wants_packet(&self, block_start_frame: usize) -> (wants: bool)
        requires
            self.inv(),
        ensures
            wants == (self@.ready == 0 && block_start_frame < self@.block_size),
    {
        (self.reset_decode_buffer || self.curr_decode_buffer_frame == self.decode_buffer_len)
            && block_start_frame < self.block_size
    }

    /// Goes on with a call of `decode` whose block holds `block_start_frame` frames, now that the
    /// next packet has been asked for.
    pub fn decode_packet(
        &mut self,
        block_start_frame: usize,
        event: PacketEvent<T>,
        data_block: &mut DataBlock<T>,
    ) -> (result: Result<DecodeAction, symphonia::core::errors::Error>)
        requires
            old(self).inv(),
            old(self)@.ready == 0,
            block_start_frame < old(self)@.block_size,
            event.valid(),
        ensures
            final(self).inv(),
            match event {
                PacketEvent::Failed(error) => {
                    &&& result == Err::<DecodeAction, _>(error)
                    &&& final(self)@ == old(self)@
                    &&& final(data_block)@ == old(data_block)@
                },
                _ => result matches Ok(action) && (Step {
                    state: final(self)@,
                    data: final(data_block)@,
                    next: action@,
                }) == old(self)@.receive(block_start_frame as nat, event@, old(data_block)@),
            },
    {
        match event {
            PacketEvent::Decoded(audio) => if self.load(audio) {
                Ok(self.fill(block_start_frame, data_block))
            } else {
                Ok(DecodeAction::NextPacket { block_start_frame })
            },
            // Decode errors are not fatal. Continue by decoding the next packet.
            PacketEvent::Undecodable => Ok(DecodeAction::NextPacket { block_start_frame }),
            PacketEvent::End => {
                self.playhead_frame = self.num_frames;
                Ok(DecodeAction::Finished)
            },
            PacketEvent::Failed(error) => Err(error),
        }
    }

    /// Sets the read position to a frame of the file, or to the end of the file if the frame lies
    /// outside of it. In the former case the reader has to be moved to the timestamp that is
    /// returned, and `seek_done` is to be told what came of it.
    pub fn seek(&mut self, frame: usize) -> (target: Option<SeekTarget>)
        requires
            old(self).inv(),
        ensures
            final(self).inv(),
            final(self)@ == old(self)@.sought(frame as nat),
            target == old(self)@.seek_target(frame as nat),
    {
        if frame >= self.num_frames {
            self.playhead_frame = self.num_frames;
            return None;
        }
        self.playhead_frame = frame;

        let sample_rate: u32 = self.sample_rate.unwrap_or(DEFAULT_SAMPLE_RATE);
        Some(
            SeekTarget {
                ts: frame_to_ts(frame as u64, sample_rate, self.time_base),
                track_id: self.track_id,
            },
        )
    }

    /// Ends a seek once the reader has been moved. What had been decoded before is dropped, and so
    /// will be the frames that the reader gives before the read position. If the
    /// reader could not be moved its error is handed on, and nothing is dropped.
    pub fn seek_done(&mut self, result: Result<SeekedTo, symphonia::core::errors::Error>) -> (done:
        Result<(), symphonia::core::errors::Error>)
        requires
            old(self).inv(),
            result matches Ok(seeked) ==> seeked.valid(),
        ensures
            final(self).inv(),
            match result {
                Ok(seeked) => done is Ok && final(self)@ == old(self)@.landed(
                    old(self)@.frames_before(seeked),
                ),
                Err(error) => done == Err::<(), _>(error) && final(self)@ == old(self)@,
            },
    {
        match result {
            Ok(seeked) => {
                let sample_rate: u32 = self.sample_rate.unwrap_or(DEFAULT_SAMPLE_RATE);
                self.seek_diff =
                    seeked.frames_to_skip(self.playhead_frame, sample_rate, self.time_base);
                self.reset_decode_buffer = true;
                self.curr_decode_buffer_frame = 0;
                assert(self@ =~~= old(self)@.landed(old(self)@.frames_before(seeked)));
                Ok(())
            },
            Err(error) => Err(error),
        }
    }

    /// The facts about the file that this decoder was opened on.
    pub fn file_info<Params>(&self, params: Params) -> (info: FileInfo<Params>)
        ensures
            info.params == params,
            info.num_frames == self@.num_frames,
            info.num_channels == self@.num_channels as u16,
            self@.num_channels <= u16::MAX ==> info.num_channels == self@.num_channels,
            info.sample_rate == self@.sample_rate,
    {
        FileInfo {
            params,
            num_frames: self.num_frames,
            num_channels: self.num_channels as u16,
            sample_rate: self.sample_rate,
        }
    }

    /// Get the latest entry in the metadata. The older ones are dropped.
    pub fn get_metadata(metadata: &mut symphonia::core::meta::Metadata<'_>) -> (latest: Option<
        symphonia::core::meta::MetadataRevision,
    >)
        ensures
            metadata_revisions(*final(metadata)) == latest_only(metadata_revisions(*old(metadata))),
            latest is Some <==> metadata_revisions(*old(metadata)).len() > 0,
            latest matches Some(revision) ==> revision == metadata_revisions(*old(metadata)).last(),
            metadata_revisions(*final(metadata)) == match latest {
                Some(revision) => seq![revision],
                None => Seq::empty(),
            },
    {
        match metadata.skip_to_latest() {
            Some(revision) => Some(revision.clone()),
            None => None,
        }
    }

    /// The current read position.
    pub fn current_frame(&self) -> (frame: usize)
        ensures
            frame == self@.playhead,
    {
        self.playhead_frame
    }
}

} // verus!
