//! What a read stream needs of a decoder.

use crate::data::{DataBlock, FileInfo};
use std::fmt::Debug;
use vstd::prelude::*;

verus! {

/// A type that decodes a file in a read stream.
pub trait Decoder: Sized + 'static {
    /// A source of encoded audio data, such as an open file or a buffer in memory.
    type Source: Send + Sync + 'static;

    /// The data type of a single sample. (i.e. `f32`)
    type T: Copy + Clone + Default + Send;

    /// Any additional options for opening a file with this decoder.
    type AdditionalOpts: Send + Default + Debug;

    /// Any additional information on the file.
    type FileParams: Clone + Send;

    /// The error type while opening the file.
    type OpenError: Debug + Send;

    /// The error type when a fatal error occurs.
    type FatalError: Debug + Send;

    /// The default number of frames in a prefetch block.
    const DEFAULT_BLOCK_SIZE: usize;

    /// The default number of prefetch blocks in a cache block. This will cause a cache to be
    /// used whenever the stream is seeked to a frame in the range:
    ///
    /// `[cache_start, cache_start + (num_cache_blocks * block_size))`
    ///
    /// If this is 0, then the cache is only used when seeked to exactly `cache_start`.
    const DEFAULT_NUM_CACHE_BLOCKS: usize;

    /// The number of prefetch blocks to store ahead of the cache block. This must be
    /// sufficiently large to ensure enough to time to fill the buffer in the worst
    /// case latency scenario.
    const DEFAULT_NUM_LOOK_AHEAD_BLOCKS: usize;

    /// The current read position.
    spec fn read_position(&self) -> usize;

    /// The number of frames in the file, as far as the file tells it.
    spec fn length(&self) -> usize;

    /// The number of channels in the file.
    spec fn num_channels(&self) -> usize;

    /// The number of frames that one block takes.
    spec fn block_size(&self) -> usize;

    /// Start reading from `source`, beginning at `start_frame`.
    ///
    /// Please note this algorithm depends on knowing the exact number of frames in a file.
    /// Do **not** return an approximate length in the returned `FileInfo`.
    fn new(
        source: Self::Source,
        start_frame: usize,
        block_size: usize,
        additional_opts: Self::AdditionalOpts,
    ) -> (opened: Result<(Self, FileInfo<Self::FileParams>), Self::OpenError>)
        ensures
            opened matches Ok((decoder, info)) ==> {
                &&& decoder.read_position() == start_frame
                &&& decoder.block_size() == block_size
                &&& decoder.length() == info.num_frames
                &&& decoder.num_channels() == info.num_channels
            },
    ;

    /// Seek to a frame in the file. If a frame lies outside of the end of the file,
    /// set the read position the end of the file instead of returning an error.
    fn seek(&mut self, frame: usize) -> (done: Result<(), Self::FatalError>)
        ensures
            frame >= old(self).length() ==> done is Ok,
            done is Ok ==> {
                &&& final(self).read_position() == if frame < old(self).length() {
                    frame
                } else {
                    old(self).length()
                }
                &&& final(self).length() == old(self).length()
                &&& final(self).num_channels() == old(self).num_channels()
                &&& final(self).block_size() == old(self).block_size()
            },
    ;

    /// Decode data into the `data_block` starting from your current internal read position.
    /// This is streaming, meaning the next call to `decode()` should pick up where the
    /// previous left off.
    ///
    /// Fill each channel in the data block with `block_size` number of frames (you should
    /// have gotten this value from `Decoder::new()`). If there isn't enough data left
    /// because the end of the file has been reached, then only fill up how ever many frames
    /// are left. If the end of the file has already been reached since the last call to
    /// `decode()`, then do nothing.
    ///
    /// Each channel Vec in `data_block` will have a length of zero.
    fn decode(&mut self, data_block: &mut DataBlock<Self::T>) -> (done: Result<
        (),
        Self::FatalError,
    >)
        requires
            forall|c: int|
                0 <= c < old(data_block)@.len() ==> (#[trigger] old(data_block)@[c]).len() == 0,
        ensures
            old(self).read_position() >= old(self).length() ==> {
                &&& done is Ok
                &&& final(data_block)@ == old(data_block)@
                &&& final(self).read_position() == old(self).read_position()
            },
            done is Ok && old(self).read_position() < old(self).length() ==> {
                let after_block = old(self).read_position() + old(self).block_size();
                let position = final(self).read_position();
                &&& position == old(self).length() || position == if after_block <= usize::MAX {
                    after_block
                } else {
                    usize::MAX as int
                }
                &&& final(data_block)@.len() == old(data_block)@.len()
                // The channels of the file are filled alike, and wholly unless the file is over.
                &&& forall|c: int|
                    0 <= c < old(data_block)@.len() && c < old(self).num_channels() ==> {
                        let frames = (#[trigger] final(data_block)@[c]).len();
                        &&& frames == final(data_block)@[0].len()
                        &&& frames <= old(self).block_size()
                        &&& frames < old(self).block_size() ==> position == old(self).length()
                    }
            },
            done is Ok ==> {
                &&& final(self).length() == old(self).length()
                &&& final(self).num_channels() == old(self).num_channels()
                &&& final(self).block_size() == old(self).block_size()
            },
    ;

    /// Return the current read position.
    fn current_frame(&self) -> (frame: usize)
        ensures
            frame == self.read_position(),
    ;
}

} // verus!
