//! The decoder on packets made by hand.

use creek_decode_symphonia::{
    frame_to_ts, AudioParams, ChannelLabel, ChannelLayout, DataBlock, DecodeAction,
    DecodedAudio, OpenAction, OpenError, Opening, PacketEvent, SeekTarget, SeekedTo,
    SymphoniaDecoder, TimeBase, TrackInfo, DEFAULT_NUM_CACHE_BLOCKS,
    DEFAULT_NUM_LOOK_AHEAD_BLOCKS,
};

fn mono(samples: &[u32]) -> PacketEvent<u32> {
    PacketEvent::Decoded(DecodedAudio {
        channels: ChannelLayout::Discrete(1),
        planes: vec![samples.to_vec()],
        frames: samples.len(),
    })
}

fn broken() -> symphonia::core::errors::Error {
    symphonia::core::errors::Error::ResetRequired
}

fn track(num_frames: u64) -> TrackInfo {
    TrackInfo {
        id: 3,
        codec_params: Some(AudioParams { sample_rate: Some(48000), channels: None }),
        num_frames: Some(num_frames),
        time_base: TimeBase::try_new(1, 48000),
    }
}

/// A decoder of a track of `num_frames` frames, whose first packet is `first`.
fn opened(num_frames: u64, block_size: usize, first: &[u32]) -> SymphoniaDecoder<u32> {
    let opening = Opening::new(Some(track(num_frames)), 0, block_size).unwrap();
    match opening.first_packet(mono(first)).unwrap() {
        OpenAction::Opened { decoder } => decoder,
        OpenAction::NextPacket => panic!("the packet can be decoded"),
    }
}

/// Decodes one block, with `events` as the packets that come.
fn decode(
    decoder: &mut SymphoniaDecoder<u32>,
    events: &mut Vec<PacketEvent<u32>>,
) -> Result<Vec<u32>, symphonia::core::errors::Error> {
    let mut data_block = DataBlock::new(1, 4);
    let mut action = decoder.decode(&mut data_block);
    while let DecodeAction::NextPacket { block_start_frame } = action {
        assert!(decoder.wants_packet(block_start_frame));
        assert_eq!(data_block.block[0].len(), block_start_frame);
        action = decoder.decode_packet(block_start_frame, events.remove(0), &mut data_block)?;
    }
    Ok(data_block.block.remove(0))
}

#[test]
fn blocks_are_consecutive_whatever_the_packets() {
    let file: Vec<u32> = (100..123).collect();
    for cuts in [vec![1, 2, 3], vec![5, 5, 20], vec![4, 8, 12], vec![22, 22, 23], vec![23, 23, 23]] {
        let mut decoder = opened(23, 5, &file[..cuts[0]]);
        let mut events = vec![
            mono(&file[cuts[0]..cuts[1]]),
            PacketEvent::Undecodable,
            mono(&file[cuts[1]..cuts[2]]),
            mono(&[]),
            mono(&file[cuts[2]..]),
            PacketEvent::End,
        ];
        let mut samples = Vec::new();
        for n in 1..6 {
            let block = decode(&mut decoder, &mut events).unwrap();
            assert_eq!(block.len(), if n < 5 { 5 } else { 3 });
            samples.extend_from_slice(&block);
            assert_eq!(decoder.current_frame(), (n * 5).min(23));
        }
        assert_eq!(samples, file);
        // Nothing is done at the end of the file.
        assert!(decode(&mut decoder, &mut events).unwrap().is_empty());
        assert_eq!(decoder.current_frame(), 23);
    }
}

#[test]
fn file_that_ends_with_a_block_is_over_without_another_packet() {
    let mut decoder = opened(4, 2, &[1, 2, 3, 4]);
    let mut events = Vec::new();
    assert_eq!(decode(&mut decoder, &mut events).unwrap(), vec![1, 2]);
    assert_eq!(decode(&mut decoder, &mut events).unwrap(), vec![3, 4]);
    assert_eq!(decoder.current_frame(), 4);
    assert!(decode(&mut decoder, &mut events).unwrap().is_empty());
}

#[test]
fn malformed_packet_is_passed_over() {
    let mut with = opened(9, 4, &[1]);
    let mut without = opened(9, 4, &[1]);
    let a = decode(&mut with, &mut vec![PacketEvent::Undecodable, mono(&[2, 3, 4])]).unwrap();
    let b = decode(&mut without, &mut vec![mono(&[2, 3, 4])]).unwrap();
    assert_eq!(a, vec![1, 2, 3, 4]);
    assert_eq!(a, b);
}

#[test]
fn empty_block_takes_nothing() {
    let mut decoder = opened(9, 0, &[1, 2]);
    assert!(decode(&mut decoder, &mut Vec::new()).unwrap().is_empty());
    assert_eq!(decoder.current_frame(), 0);
}

#[test]
fn block_larger_than_the_file_is_cut_at_its_end() {
    let mut decoder = opened(3, usize::MAX, &[1, 2]);
    let block = decode(&mut decoder, &mut vec![mono(&[3]), PacketEvent::End]).unwrap();
    assert_eq!(block, vec![1, 2, 3]);
    assert_eq!(decoder.current_frame(), 3);
}

#[test]
fn channels_are_kept_apart() {
    let opening = Opening::new(Some(track(9)), 0, 2).unwrap();
    let first = DecodedAudio {
        channels: ChannelLayout::Positioned(3),
        planes: vec![vec![1u32, 2, 3], vec![11, 12, 13]],
        frames: 3,
    };
    let mut decoder = match opening.first_packet(PacketEvent::Decoded(first)).unwrap() {
        OpenAction::Opened { decoder } => decoder,
        OpenAction::NextPacket => panic!("the packet can be decoded"),
    };
    assert_eq!(decoder.file_info(()).num_channels, 2);

    // A block with more channels than the file has leaves the further ones empty.
    let mut wide = DataBlock::new(3, 2);
    assert_eq!(decoder.decode(&mut wide), DecodeAction::Finished);
    assert_eq!(wide.block, vec![vec![1, 2], vec![11, 12], vec![]]);

    // A block with fewer channels gets the first ones.
    let mut narrow = DataBlock::new(1, 2);
    assert_eq!(decoder.decode(&mut narrow), DecodeAction::NextPacket { block_start_frame: 1 });
    let second = DecodedAudio {
        channels: ChannelLayout::Positioned(3),
        planes: vec![vec![4u32], vec![14]],
        frames: 1,
    };
    let action = decoder.decode_packet(1, PacketEvent::Decoded(second), &mut narrow).unwrap();
    assert_eq!(action, DecodeAction::Finished);
    assert_eq!(narrow.block, vec![vec![3, 4]]);
}

#[test]
fn failure_is_handed_on() {
    let mut decoder = opened(9, 4, &[1, 2]);
    let error = decode(&mut decoder, &mut vec![PacketEvent::Failed(broken())]).unwrap_err();
    assert!(matches!(error, symphonia::core::errors::Error::ResetRequired));
    assert_eq!(decoder.current_frame(), 0);
}

#[test]
fn seek_drops_what_was_decoded_and_what_lies_before_the_frame() {
    let mut decoder = opened(100, 4, &[0, 1, 2, 3, 4, 5]);
    assert_eq!(decode(&mut decoder, &mut Vec::new()).unwrap(), vec![0, 1, 2, 3]);

    let target = decoder.seek(50).unwrap();
    assert_eq!((target.ts, target.track_id), (50, 3));
    assert_eq!(decoder.current_frame(), 50);
    decoder.seek_done(Ok(SeekedTo { required_ts: 50, actual_ts: 45 })).unwrap();

    // The frame lies in the third packet, and one before that is malformed.
    let mut events = vec![
        mono(&[45, 46, 47]),
        PacketEvent::Undecodable,
        mono(&[48, 49]),
        mono(&[50, 51]),
        mono(&[52, 53, 54]),
    ];
    assert_eq!(decode(&mut decoder, &mut events).unwrap(), vec![50, 51, 52, 53]);
    assert_eq!(decoder.current_frame(), 54);
    assert!(!decoder.wants_packet(0));

    // Straight to a frame, with nothing to drop.
    assert_eq!(decoder.seek(7).unwrap().ts, 7);
    decoder.seek_done(Ok(SeekedTo { required_ts: 7, actual_ts: 7 })).unwrap();
    assert_eq!(decode(&mut decoder, &mut vec![mono(&[7, 8, 9, 10])]).unwrap(), vec![7, 8, 9, 10]);
}

#[test]
fn failure_after_a_seek_does_not_bring_back_old_frames() {
    let mut decoder = opened(100, 2, &[0, 1, 2, 3]);
    let _ = decoder.seek(50);
    decoder.seek_done(Ok(SeekedTo { required_ts: 50, actual_ts: 49 })).unwrap();
    let mut events = vec![mono(&[49]), PacketEvent::Failed(broken())];
    assert!(decode(&mut decoder, &mut events).is_err());
    assert_eq!(decode(&mut decoder, &mut vec![mono(&[50, 51])]).unwrap(), vec![50, 51]);
}

#[test]
fn failed_seek_is_handed_on() {
    let mut decoder = opened(100, 2, &[0, 1, 2, 3]);
    assert!(decoder.seek(50).is_some());
    let error = decoder.seek_done(Err(broken())).unwrap_err();
    assert!(matches!(error, symphonia::core::errors::Error::ResetRequired));
    assert_eq!(decoder.current_frame(), 50);
    // What had been decoded is still there.
    assert_eq!(decode(&mut decoder, &mut Vec::new()).unwrap(), vec![0, 1]);
}

#[test]
fn seek_outside_of_the_file_moves_no_reader() {
    let mut decoder = opened(100, 2, &[0, 1, 2, 3]);
    for frame in [100, 101, usize::MAX] {
        assert!(decoder.seek(frame).is_none());
        assert_eq!(decoder.current_frame(), 100);
        assert!(decode(&mut decoder, &mut Vec::new()).unwrap().is_empty());
    }
    assert!(decoder.seek(99).is_some());
}

#[test]
fn opening_needs_a_track_with_known_length() {
    assert!(matches!(Opening::new(None, 0, 4), Err(OpenError::NoDefaultTrack)));
    let no_codec = TrackInfo { codec_params: None, num_frames: None, ..track(9) };
    assert!(matches!(Opening::new(Some(no_codec), 0, 4), Err(OpenError::NoDefaultTrack)));
    let no_length = TrackInfo { num_frames: None, ..track(9) };
    assert!(matches!(Opening::new(Some(no_length), 0, 4), Err(OpenError::NoNumFrames)));
    assert!(Opening::new(Some(track(0)), 0, 4).is_ok());
}

#[test]
fn opening_waits_for_a_packet_that_can_be_decoded() {
    let opening = Opening::new(Some(track(9)), 0, 4).unwrap();
    assert!(opening.seek_target().is_none());
    assert!(matches!(
        opening.first_packet::<u32>(PacketEvent::Undecodable),
        Ok(OpenAction::NextPacket)
    ));
    assert!(matches!(
        opening.first_packet::<u32>(PacketEvent::End),
        Err(OpenError::NoAudioPackets)
    ));
    assert!(matches!(
        opening.first_packet::<u32>(PacketEvent::Failed(broken())),
        Err(OpenError::Format(symphonia::core::errors::Error::ResetRequired))
    ));
}

#[test]
fn opening_at_a_frame_drops_what_lies_before() {
    // The frame lies in the middle of the first packet, in the second one or at the very begin.
    for (actual_ts, first, second) in [
        (18, vec![18, 19, 20], vec![21, 22, 23]),
        (17, vec![17, 18, 19], vec![20, 21, 22, 23]),
        (20, vec![20], vec![21, 22, 23]),
    ] {
        let mut opening = Opening::new(Some(track(100)), 20, 4).unwrap();
        let target: SeekTarget = opening.seek_target().unwrap();
        assert_eq!((target.ts, target.track_id), (20, 3));
        opening.seek_done(Ok(SeekedTo { required_ts: 20, actual_ts })).unwrap();
        let mut decoder = match opening.first_packet(mono(&first)).unwrap() {
            OpenAction::Opened { decoder } => decoder,
            OpenAction::NextPacket => panic!("the packet can be decoded"),
        };
        assert_eq!(decoder.current_frame(), 20);
        let block = decode(&mut decoder, &mut vec![mono(&second)]).unwrap();
        assert_eq!(block, vec![20, 21, 22, 23]);
        assert_eq!(decoder.current_frame(), 24);
    }

    let mut opening = Opening::new(Some(track(100)), 20, 4).unwrap();
    assert!(matches!(
        opening.seek_done(Err(broken())),
        Err(OpenError::Format(symphonia::core::errors::Error::ResetRequired))
    ));
}

#[test]
fn file_info_tells_the_track() {
    let decoder = opened(77, 4, &[1]);
    let info = decoder.file_info("params");
    assert_eq!(info.params, "params");
    assert_eq!(info.num_frames, 77);
    assert_eq!(info.num_channels, 1);
    assert_eq!(info.sample_rate, Some(48000));

    // The number of channels is that of the first packet, also when others have come after it.
    let opening = Opening::new(Some(track(9)), 0, 1).unwrap();
    let first = DecodedAudio {
        channels: ChannelLayout::Discrete(3),
        planes: vec![vec![1u32], vec![2], vec![3]],
        frames: 1,
    };
    let mut decoder = match opening.first_packet(PacketEvent::Decoded(first)).unwrap() {
        OpenAction::Opened { decoder } => decoder,
        OpenAction::NextPacket => panic!("the packet can be decoded"),
    };
    assert_eq!(decoder.file_info(()).num_channels, 3);
    assert_eq!(decode(&mut decoder, &mut Vec::new()).unwrap(), vec![1]);
    assert_eq!(decode(&mut decoder, &mut vec![mono(&[4])]).unwrap(), vec![4]);
    assert_eq!(decoder.file_info(()).num_channels, 3);
}

#[test]
fn data_block_is_cleared_channel_by_channel() {
    let mut data_block: DataBlock<u32> = DataBlock::new(2, 8);
    assert_eq!(data_block.block, vec![vec![], vec![]]);
    data_block.block[1].push(5);
    data_block.clear();
    assert_eq!(data_block.block, vec![vec![], vec![]]);
    assert!(data_block.block[0].capacity() >= 8);
}

#[test]
fn latest_metadata_is_kept() {
    let revision = |name: &'static str| {
        symphonia::core::meta::MetadataBuilder::new(symphonia::core::meta::MetadataInfo {
            metadata: symphonia::core::meta::METADATA_ID_NULL,
            short_name: name,
            long_name: "",
        })
        .build()
    };
    let mut log = symphonia::core::meta::MetadataLog::default();
    assert!(SymphoniaDecoder::<u32>::get_metadata(&mut log.metadata()).is_none());

    log.push(revision("old"));
    log.push(revision("older"));
    log.push(revision("new"));
    let latest = SymphoniaDecoder::<u32>::get_metadata(&mut log.metadata()).unwrap();
    assert_eq!(latest.info.short_name, "new");
    assert!(log.metadata().is_latest());
    let again = SymphoniaDecoder::<u32>::get_metadata(&mut log.metadata()).unwrap();
    assert_eq!(again.info.short_name, "new");
}

#[test]
fn defaults_suit_a_compressed_file() {
    assert_eq!(DEFAULT_NUM_CACHE_BLOCKS, 0);
    assert_eq!(DEFAULT_NUM_LOOK_AHEAD_BLOCKS, 8);
}

/// A track of 48 frames a tick.
fn coarse_track() -> TrackInfo {
    TrackInfo { time_base: TimeBase::try_new(1, 1000), ..track(100_000) }
}

/// The packets of a file whose samples are their own frame indices, from `begin` on.
fn packets_from(begin: u32) -> Vec<PacketEvent<u32>> {
    let mut events = Vec::new();
    for i in 0..40 {
        let samples: Vec<u32> = (begin + i * 100..begin + i * 100 + 100).collect();
        events.push(mono(&samples));
    }
    events
}

#[test]
fn seek_is_frame_accurate_in_a_coarse_timebase() {
    let opening = Opening::new(Some(coarse_track()), 0, 4).unwrap();
    let mut decoder = match opening.first_packet(mono(&[0, 1, 2])).unwrap() {
        OpenAction::Opened { decoder } => decoder,
        OpenAction::NextPacket => panic!("the packet can be decoded"),
    };

    // The reader lands twenty ticks early, which are 960 frames.
    assert_eq!(decoder.seek(48000).unwrap().ts, 1000);
    decoder.seek_done(Ok(SeekedTo { required_ts: 1000, actual_ts: 980 })).unwrap();
    assert_eq!(decoder.current_frame(), 48000);
    let block = decode(&mut decoder, &mut packets_from(47040)).unwrap();
    assert_eq!(block, vec![48000, 48001, 48002, 48003]);

    // The frame does not begin at a tick, and the one asked for is rounded.
    for frame in [48001, 48023, 48024, 48047] {
        let ts = decoder.seek(frame).unwrap().ts;
        decoder.seek_done(Ok(SeekedTo { required_ts: ts, actual_ts: 990 })).unwrap();
        let block = decode(&mut decoder, &mut packets_from(47520)).unwrap();
        assert_eq!(block[0] as usize, frame);
    }

    // The reader lands before the begin of the track.
    assert_eq!(decoder.seek(10).unwrap().ts, 0);
    decoder.seek_done(Ok(SeekedTo { required_ts: 0, actual_ts: -2 })).unwrap();
    let mut events = vec![mono(&[7; 96]), mono(&[0, 1, 2, 3, 4, 5, 6, 7, 8, 9, 10, 11, 12, 13])];
    assert_eq!(decode(&mut decoder, &mut events).unwrap(), vec![10, 11, 12, 13]);

    // The reader lands just at the timestamp that was asked for: nothing is dropped.
    assert_eq!(decoder.seek(47).unwrap().ts, 1);
    decoder.seek_done(Ok(SeekedTo { required_ts: 1, actual_ts: 1 })).unwrap();
    assert_eq!(decode(&mut decoder, &mut packets_from(48)).unwrap(), vec![48, 49, 50, 51]);
}

#[test]
fn opening_is_frame_accurate_in_a_coarse_timebase() {
    let mut opening = Opening::new(Some(coarse_track()), 48000, 4).unwrap();
    assert_eq!(opening.seek_target().unwrap().ts, 1000);
    opening.seek_done(Ok(SeekedTo { required_ts: 1000, actual_ts: 980 })).unwrap();
    let mut events = packets_from(47040);
    let mut decoder = match opening.first_packet(events.remove(0)).unwrap() {
        OpenAction::Opened { decoder } => decoder,
        OpenAction::NextPacket => panic!("the packet can be decoded"),
    };
    assert_eq!(decoder.current_frame(), 48000);
    let block = decode(&mut decoder, &mut events).unwrap();
    assert_eq!(block, vec![48000, 48001, 48002, 48003]);
}

#[test]
fn seek_is_frame_accurate_in_a_fine_timebase() {
    let fine = TrackInfo { time_base: TimeBase::try_new(1, 96000), ..track(1000) };
    let opening = Opening::new(Some(fine), 0, 4).unwrap();
    let mut decoder = match opening.first_packet(mono(&[0, 1, 2])).unwrap() {
        OpenAction::Opened { decoder } => decoder,
        OpenAction::NextPacket => panic!("the packet can be decoded"),
    };
    assert_eq!(decoder.seek(50).unwrap().ts, 100);
    decoder.seek_done(Ok(SeekedTo { required_ts: 100, actual_ts: 90 })).unwrap();
    assert_eq!(decode(&mut decoder, &mut packets_from(45)).unwrap(), vec![50, 51, 52, 53]);
}

#[test]
fn blocks_hold_the_frames_that_can_be_decoded() {
    // Ten frames are promised, but a packet of three is malformed.
    let mut decoder = opened(10, 4, &[0, 1, 2]);
    let mut events = vec![PacketEvent::Undecodable, mono(&[6, 7, 8, 9]), PacketEvent::End];
    assert_eq!(decode(&mut decoder, &mut events).unwrap(), vec![0, 1, 2, 6]);
    assert_eq!(decoder.current_frame(), 4);
    assert_eq!(decode(&mut decoder, &mut events).unwrap(), vec![7, 8, 9]);
    assert_eq!(decoder.current_frame(), 10);
    assert!(decode(&mut decoder, &mut events).unwrap().is_empty());
}

#[test]
fn declared_channels_are_those_of_the_first_packet() {
    let labels = vec![ChannelLabel::Positioned(1), ChannelLabel::Discrete(0)];
    for layout in [ChannelLayout::Positioned(3), ChannelLayout::Custom(labels)] {
        let params = AudioParams { sample_rate: None, channels: Some(layout.clone()) };
        let declared = TrackInfo { codec_params: Some(params), ..track(9) };
        let opening = Opening::new(Some(declared), 0, 2).unwrap();
        assert!(opening.channels.is_some());
        let first =
            DecodedAudio { channels: layout, planes: vec![vec![1u32], vec![2]], frames: 1 };
        match opening.first_packet(PacketEvent::Decoded(first)).unwrap() {
            OpenAction::Opened { decoder } => {
                assert_eq!(decoder.file_info(()).num_channels, 2);
            }
            OpenAction::NextPacket => panic!("the packet can be decoded"),
        }
    }
}

/// A track of 44.1 frames a tick, in packets whose timestamps are rounded.
fn rounded_track() -> TrackInfo {
    TrackInfo {
        codec_params: Some(AudioParams { sample_rate: Some(44100), channels: None }),
        ..coarse_track()
    }
}

#[test]
fn packet_at_the_timestamp_asked_for_is_taken_whole() {
    let opening = Opening::new(Some(rounded_track()), 0, 4).unwrap();
    let mut decoder = match opening.first_packet(mono(&[0, 1, 2])).unwrap() {
        OpenAction::Opened { decoder } => decoder,
        OpenAction::NextPacket => panic!("the packet can be decoded"),
    };
    assert_eq!(decoder.seek(1152).unwrap().ts, 26);
    decoder.seek_done(Ok(SeekedTo { required_ts: 26, actual_ts: 26 })).unwrap();
    let block = decode(&mut decoder, &mut packets_from(1152)).unwrap();
    assert_eq!(block, vec![1152, 1153, 1154, 1155]);

    let mut opening = Opening::new(Some(rounded_track()), 1152, 4).unwrap();
    assert_eq!(opening.seek_target().unwrap().ts, 26);
    opening.seek_done(Ok(SeekedTo { required_ts: 26, actual_ts: 26 })).unwrap();
    assert_eq!(opening.seek_diff, 0);

    // No sample rate is told.
    let params = AudioParams { sample_rate: None, channels: None };
    let unknown = TrackInfo { codec_params: Some(params), ..track(9000) };
    let mut opening = Opening::new(Some(unknown), 441, 4).unwrap();
    assert_eq!(opening.seek_target().unwrap().ts, 480);
    opening.seek_done(Ok(SeekedTo { required_ts: 480, actual_ts: 480 })).unwrap();
    assert_eq!(opening.seek_diff, 0);
    opening.seek_done(Ok(SeekedTo { required_ts: 480, actual_ts: 400 })).unwrap();
    assert_eq!(opening.seek_diff, 73);
}

#[test]
fn rounded_timestamps_lead_near_to_the_frame() {
    let opening = Opening::new(Some(rounded_track()), 0, 4).unwrap();
    let mut decoder = match opening.first_packet(mono(&[0, 1, 2])).unwrap() {
        OpenAction::Opened { decoder } => decoder,
        OpenAction::NextPacket => panic!("the packet can be decoded"),
    };
    let time_base = TimeBase::try_new(1, 1000);
    for packet in [0u64, 1152, 2304, 3456] {
        for frame in packet..packet + 1152 {
            let actual_ts = frame_to_ts(packet, 44100, time_base);
            let required_ts = decoder.seek(frame as usize).unwrap().ts;
            decoder.seek_done(Ok(SeekedTo { required_ts, actual_ts })).unwrap();
            let block = decode(&mut decoder, &mut packets_from(packet as u32)).unwrap();
            let off = (i64::from(block[0]) - frame as i64).abs();
            if actual_ts == required_ts {
                assert_eq!(u64::from(block[0]), packet);
                assert!(10 * off < 441);
            } else {
                assert!(20 * off <= 451);
            }
        }
    }
}

#[test]
fn opening_before_the_begin_of_the_track_is_frame_accurate() {
    let mut opening = Opening::new(Some(track(100)), 3, 4).unwrap();
    opening.seek_done(Ok(SeekedTo { required_ts: 3, actual_ts: -2 })).unwrap();
    let mut decoder = match opening.first_packet(mono(&[99, 99, 0, 1])).unwrap() {
        OpenAction::Opened { decoder } => decoder,
        OpenAction::NextPacket => panic!("the packet can be decoded"),
    };
    let block = decode(&mut decoder, &mut vec![mono(&[2, 3, 4, 5, 6])]).unwrap();
    assert_eq!(block, vec![3, 4, 5, 6]);
}

#[test]
fn blocks_go_up_to_the_length_of_the_file() {
    // Five frames are promised and nine come: the block that reaches the length is the last one.
    let mut decoder = opened(5, 4, &[0, 1, 2, 3, 4, 5, 6, 7, 8]);
    assert_eq!(decode(&mut decoder, &mut Vec::new()).unwrap(), vec![0, 1, 2, 3]);
    assert_eq!(decode(&mut decoder, &mut Vec::new()).unwrap(), vec![4, 5, 6, 7]);
    assert_eq!(decoder.current_frame(), 8);
    assert!(decode(&mut decoder, &mut Vec::new()).unwrap().is_empty());
}
