//! Whole files, decoded by `symphonia` and played by the library.

use std::io::Cursor;

use creek_decode_symphonia::{
    AudioParams, ChannelLayout, DataBlock, DecodeAction, DecodedAudio, FileInfo, OpenAction,
    Opening, PacketEvent, SeekedTo, SymphoniaDecoder, SymphoniaDecoderInfo, TimeBase, TrackInfo,
    DEFAULT_BLOCK_SIZE,
};
use float_cmp::ApproxEq;

/// A RIFF/WAVE file in memory.
fn wav(float: bool, channels: u16, bits: u16, samples: &[u8]) -> Vec<u8> {
    let rate: u32 = 44100;
    let align = channels * (bits / 8);
    let mut file = Vec::with_capacity(samples.len() + 44);
    file.extend_from_slice(b"RIFF");
    file.extend_from_slice(&(samples.len() as u32 + 36).to_le_bytes());
    file.extend_from_slice(b"WAVEfmt ");
    file.extend_from_slice(&16u32.to_le_bytes());
    file.extend_from_slice(&(if float { 3u16 } else { 1u16 }).to_le_bytes());
    file.extend_from_slice(&channels.to_le_bytes());
    file.extend_from_slice(&rate.to_le_bytes());
    file.extend_from_slice(&(rate * u32::from(align)).to_le_bytes());
    file.extend_from_slice(&align.to_le_bytes());
    file.extend_from_slice(&bits.to_le_bytes());
    file.extend_from_slice(b"data");
    file.extend_from_slice(&(samples.len() as u32).to_le_bytes());
    file.extend_from_slice(samples);
    file
}

/// The number of frames in the files below.
const NUM_FRAMES: usize = 1323000;

/// Half a minute of 16 bit mono audio without a period.
fn noise_i16_mono() -> Vec<u8> {
    let mut samples = Vec::with_capacity(NUM_FRAMES * 2);
    let mut x: u32 = 1;
    for _ in 0..NUM_FRAMES {
        x = x.wrapping_mul(1664525).wrapping_add(1013904223);
        samples.extend_from_slice(&((x >> 16) as u16).to_le_bytes());
    }
    wav(false, 1, 16, &samples)
}

/// A file together with the library's decoder for it.
struct Player {
    reader: Box<dyn symphonia::core::formats::FormatReader>,
    decoder: Box<dyn symphonia::core::codecs::audio::AudioDecoder>,
    core: SymphoniaDecoder<f32>,
}

fn layout(channels: &symphonia::core::audio::Channels) -> ChannelLayout {
    match channels {
        symphonia::core::audio::Channels::Positioned(positions) => {
            ChannelLayout::Positioned(positions.bits())
        }
        _ => ChannelLayout::Other,
    }
}

fn next_event(
    reader: &mut Box<dyn symphonia::core::formats::FormatReader>,
    decoder: &mut Box<dyn symphonia::core::codecs::audio::AudioDecoder>,
) -> PacketEvent<f32> {
    let packet = match reader.next_packet() {
        Ok(Some(packet)) => packet,
        Ok(None) => return PacketEvent::End,
        Err(error) => return PacketEvent::Failed(error),
    };
    match decoder.decode(&packet) {
        Ok(decoded) => {
            let mut planes = Vec::new();
            decoded.copy_to_vecs_planar(&mut planes);
            PacketEvent::Decoded(DecodedAudio {
                channels: layout(decoded.spec().channels()),
                planes,
                frames: decoded.frames(),
            })
        }
        Err(symphonia::core::errors::Error::DecodeError(_)) => PacketEvent::Undecodable,
        Err(error) => PacketEvent::Failed(error),
    }
}

fn move_reader(
    reader: &mut Box<dyn symphonia::core::formats::FormatReader>,
    ts: i64,
    track_id: u32,
) -> Result<SeekedTo, symphonia::core::errors::Error> {
    let to = symphonia::core::formats::SeekTo::Timestamp {
        ts: symphonia::core::units::Timestamp::new(ts),
        track_id,
    };
    let seeked = reader.seek(symphonia::core::formats::SeekMode::Accurate, to)?;
    Ok(SeekedTo { required_ts: seeked.required_ts.get(), actual_ts: seeked.actual_ts.get() })
}

impl Player {
    fn new(
        file: Vec<u8>,
        start_frame: usize,
        block_size: usize,
    ) -> (Player, FileInfo<SymphoniaDecoderInfo>) {
        let stream = symphonia::core::io::MediaSourceStream::new(
            Box::new(Cursor::new(file)),
            Default::default(),
        );
        let hint = symphonia::core::formats::probe::Hint::new();
        let mut reader = symphonia::default::get_probe()
            .probe(&hint, stream, Default::default(), Default::default())
            .unwrap();

        let track = reader.default_track(symphonia::core::formats::TrackType::Audio).unwrap();
        let params = match &track.codec_params {
            Some(symphonia::core::codecs::CodecParameters::Audio(params)) => params.clone(),
            _ => panic!("not an audio track"),
        };
        let info = TrackInfo {
            id: track.id,
            codec_params: Some(AudioParams {
                sample_rate: params.sample_rate,
                channels: params.channels.as_ref().map(layout),
            }),
            num_frames: track.num_frames,
            time_base: track
                .time_base
                .and_then(|tb| TimeBase::try_new(tb.numer.get(), tb.denom.get())),
        };

        let mut opening = Opening::new(Some(info), start_frame, block_size).unwrap();
        if let Some(target) = opening.seek_target() {
            let result = move_reader(&mut reader, target.ts, target.track_id);
            opening.seek_done(result).unwrap();
        }
        let mut decoder = symphonia::default::get_codecs()
            .make_audio_decoder(&params, &Default::default())
            .unwrap();
        let core = loop {
            let event = next_event(&mut reader, &mut decoder);
            match opening.first_packet(event).unwrap() {
                OpenAction::NextPacket => {}
                OpenAction::Opened { decoder } => break decoder,
            }
        };
        let metadata = SymphoniaDecoder::<f32>::get_metadata(&mut reader.metadata());
        let info = core
            .file_info(SymphoniaDecoderInfo { codec_params: params, metadata });
        (Player { reader, decoder, core }, info)
    }

    fn seek(&mut self, frame: usize) {
        if let Some(target) = self.core.seek(frame) {
            let result = move_reader(&mut self.reader, target.ts, target.track_id);
            self.core.seek_done(result).unwrap();
            self.decoder.reset();
        }
    }

    fn decode(&mut self, data_block: &mut DataBlock<f32>) {
        let mut action = self.core.decode(data_block);
        while let DecodeAction::NextPacket { block_start_frame } = action {
            assert!(self.core.wants_packet(block_start_frame));
            let event = next_event(&mut self.reader, &mut self.decoder);
            action = self.core.decode_packet(block_start_frame, event, data_block).unwrap();
        }
    }
}

#[test]
fn decoder_new() {
    let files = vec![
        //  file | num_channels | num_frames | sample_rate
        (wav(false, 1, 8, &vec![128; NUM_FRAMES]), 1, 1323000, Some(44100)),
        (wav(false, 1, 16, &vec![0; NUM_FRAMES * 2]), 1, 1323000, Some(44100)),
        (wav(false, 1, 24, &vec![0; NUM_FRAMES * 3]), 1, 1323000, Some(44100)),
        (wav(false, 1, 32, &vec![0; NUM_FRAMES * 4]), 1, 1323000, Some(44100)),
        (wav(true, 1, 32, &vec![0; NUM_FRAMES * 4]), 1, 1323000, Some(44100)),
        (wav(false, 2, 24, &vec![0; NUM_FRAMES * 6]), 2, 1323000, Some(44100)),
    ];

    for file in files {
        let (_, file_info) = Player::new(file.0, 0, DEFAULT_BLOCK_SIZE);
        assert_eq!(file_info.num_channels, file.1);
        assert_eq!(file_info.num_frames, file.2);
        assert_eq!(file_info.sample_rate, file.3);
        assert_eq!(file_info.params.codec_params.sample_rate, file.3);
    }
}

#[test]
fn decode_first_frame() {
    let block_size = 10;

    let first_frame = [
        0.0f32, 0.046875, 0.09375, 0.1484375, 0.1953125, 0.2421875, 0.2890625, 0.3359375,
        0.3828125, 0.421875,
    ];
    let second_frame = [
        0.46875f32, 0.5078125, 0.5390625, 0.578125, 0.609375, 0.640625, 0.671875, 0.6953125,
        0.71875, 0.7421875,
    ];
    let last_frame = [
        -0.0859375f32, -0.09375, -0.1015625, -0.1015625, -0.1015625, -0.09375, -0.0859375,
        -0.078125, -0.0625, -0.046875,
    ];

    // Eight bit samples are unsigned, with silence in the middle.
    let byte = |sample: f32| (sample * 128.0 + 128.0) as u8;
    let mut samples = vec![77u8; NUM_FRAMES];
    for i in 0..block_size {
        samples[i] = byte(first_frame[i]);
        samples[block_size + i] = byte(second_frame[i]);
        samples[NUM_FRAMES - 1 - block_size + i] = byte(last_frame[i]);
    }

    let (mut decoder, file_info) = Player::new(wav(false, 1, 8, &samples), 0, block_size);

    let mut data_block = DataBlock::new(1, block_size);
    data_block.clear();
    decoder.decode(&mut data_block);

    let samples = &data_block.block[0];
    assert_eq!(samples.len(), block_size);
    for i in 0..samples.len() {
        assert!(first_frame[i].approx_eq(samples[i], (0.0, 2)));
    }

    data_block.clear();
    decoder.decode(&mut data_block);

    let samples = &data_block.block[0];
    assert_eq!(samples.len(), block_size);
    for i in 0..samples.len() {
        assert!(second_frame[i].approx_eq(samples[i], (0.0, 2)));
    }

    // Seek to last frame
    decoder.seek(file_info.num_frames - 1 - block_size);

    data_block.clear();
    decoder.decode(&mut data_block);

    let samples = &data_block.block[0];
    assert_eq!(samples.len(), block_size);
    for i in 0..samples.len() {
        assert!(last_frame[i].approx_eq(samples[i], (0.0, 2)));
    }

    assert_eq!(decoder.core.current_frame(), file_info.num_frames - 1);
}

#[test]
fn seek_is_frame_accurate() {
    let block_size = 16;
    let file = noise_i16_mono();

    let (mut decoder, file_info) = Player::new(file, 0, block_size);

    // Decode the whole file sequentially to use as the reference.
    let mut reference: Vec<f32> = Vec::with_capacity(file_info.num_frames);
    let mut data_block = DataBlock::new(1, block_size);
    while reference.len() < file_info.num_frames {
        data_block.clear();
        decoder.decode(&mut data_block);
        reference.extend_from_slice(&data_block.block[0]);
    }
    reference.truncate(file_info.num_frames);

    let targets = [
        1,
        2,
        3,
        7,
        100,
        4095,
        4096,
        4097,
        44_099,
        44_100,
        44_101,
        file_info.num_frames / 2,
        file_info.num_frames / 2 + 1,
        file_info.num_frames - block_size - 1,
    ];

    for frame in targets {
        decoder.seek(frame);
        assert_eq!(decoder.core.current_frame(), frame);

        data_block.clear();
        decoder.decode(&mut data_block);
        assert_eq!(data_block.block[0].len(), block_size);

        for (i, &sample) in data_block.block[0].iter().enumerate() {
            assert!(
                reference[frame + i].approx_eq(sample, (0.0, 2)),
                "mismatch after seek to frame {frame}, offset {i}: expected {}, got {sample}",
                reference[frame + i],
            );
        }
    }
}

#[test]
fn file_opened_at_a_frame_begins_there() {
    let block_size = 16;
    let file = noise_i16_mono();
    let (mut sequential, info) = Player::new(file.clone(), 0, 3000);
    let mut reference = DataBlock::new(1, 3000);
    sequential.decode(&mut reference);
    assert_eq!(reference.block[0].len(), 3000);

    // Most of the frames lie in the middle of a packet.
    for start_frame in [1, 100, 1151, 1152, 1153, 2900] {
        let (mut decoder, _) = Player::new(file.clone(), start_frame, block_size);
        assert_eq!(decoder.core.current_frame(), start_frame);
        let mut data_block = DataBlock::new(1, block_size);
        decoder.decode(&mut data_block);
        assert_eq!(
            data_block.block[0][..],
            reference.block[0][start_frame..start_frame + block_size],
        );
        assert_eq!(decoder.core.current_frame(), start_frame + block_size);
    }

    // The last frames do not fill a block.
    let (mut decoder, _) = Player::new(file, info.num_frames - 5, block_size);
    let mut data_block = DataBlock::new(1, block_size);
    decoder.decode(&mut data_block);
    assert_eq!(data_block.block[0].len(), 5);
    assert_eq!(decoder.core.current_frame(), info.num_frames);

    // After that there is nothing.
    decoder.decode(&mut data_block);
    assert_eq!(data_block.block[0].len(), 5);
    assert_eq!(decoder.core.current_frame(), info.num_frames);
}

#[test]
fn seek_outside_of_a_file_goes_to_its_end() {
    let (mut decoder, info) = Player::new(noise_i16_mono(), 0, 16);
    decoder.seek(info.num_frames + 1);
    assert_eq!(decoder.core.current_frame(), info.num_frames);
    let mut data_block = DataBlock::new(1, 16);
    decoder.decode(&mut data_block);
    assert!(data_block.block[0].is_empty());

    // From there the decoder can be taken back into the file.
    decoder.seek(0);
    decoder.decode(&mut data_block);
    assert_eq!(data_block.block[0].len(), 16);
    assert_eq!(decoder.core.current_frame(), 16);
}
