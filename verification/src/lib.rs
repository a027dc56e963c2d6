//! Decoding of audio files into blocks of frames, on top of the `symphonia` crate.
//!
//! A [`SymphoniaDecoder`] holds all that a decoder decides: which packets are kept, which of their
//! frames are handed out and when, and where the reader has to go for a seek. Reading and decoding
//! a packet is the caller's part. The caller is told when one is wanted, and hands back what came
//! of it. [`Opening`] does the same for the opening of a track.
//!
//! [`laws`] states what holds over whole calls: that the blocks, put together, are the file from
//! the read position on, and that a seek is accurate to the frame as far as timestamps are.
//! [`accuracy`] says how exact they are, [`track`] what each step keeps and what it does, and
//! [`calls`] how the results of several calls relate.

pub mod accuracy;
pub mod calls;
pub mod channels;
pub mod data;
pub mod decoder;
pub mod info;
pub mod laws;
pub mod open;
pub mod packet;
pub mod state;
pub mod symphonia_decoder;
pub mod time;
pub mod track;

pub use channels::{ChannelLabel, ChannelLayout};
pub use data::{DataBlock, FileInfo};
pub use decoder::Decoder;
pub use info::SymphoniaDecoderInfo;
pub use open::{AudioParams, OpenAction, OpenError, Opening, TrackInfo};
pub use packet::{DecodeAction, DecodedAudio, PacketEvent, SeekTarget, SeekedTo};
pub use symphonia_decoder::{
    SymphoniaDecoder, DEFAULT_BLOCK_SIZE, DEFAULT_NUM_CACHE_BLOCKS, DEFAULT_NUM_LOOK_AHEAD_BLOCKS,
};
pub use time::{frame_to_ts, ts_to_frame, TimeBase, DEFAULT_SAMPLE_RATE};
