//! Frame indices and timestamps.

use creek_decode_symphonia::{frame_to_ts, ts_to_frame, AudioParams, Opening, TimeBase, TrackInfo};

#[test]
fn timestamp_is_the_frame_at_one_tick_per_frame() {
    for rate in [1, 8000, 44100, 48000, u32::MAX] {
        let time_base = TimeBase::try_new(1, rate);
        assert!(time_base.is_some());
        for frame in [0, 1, 2, 3, 7, 44_099, 44_100, 1 << 40, i64::MAX as u64] {
            assert_eq!(frame_to_ts(frame, rate, time_base), frame as i64);
            assert_eq!(frame_to_ts(frame, rate, None), frame as i64);
        }
    }
}

#[test]
fn timestamp_is_the_nearest_tick() {
    let milliseconds = TimeBase::try_new(1, 1000);
    assert_eq!(frame_to_ts(44100, 44100, milliseconds), 1000);
    assert_eq!(frame_to_ts(100, 44100, milliseconds), 2);
    assert_eq!(frame_to_ts(22, 44100, milliseconds), 0);
    assert_eq!(frame_to_ts(23, 44100, milliseconds), 1);
    // Halfway between two ticks.
    assert_eq!(frame_to_ts(1, 2000, milliseconds), 1);
    assert_eq!(frame_to_ts(3, 2000, milliseconds), 2);
    // A divisor that is odd.
    assert_eq!(frame_to_ts(1, 3, TimeBase::try_new(1, 1)), 0);
    assert_eq!(frame_to_ts(2, 3, TimeBase::try_new(1, 1)), 1);
    // Several ticks per frame.
    assert_eq!(frame_to_ts(3, 44100, TimeBase::try_new(1, 88200)), 6);
    assert_eq!(frame_to_ts(441, 44100, TimeBase::try_new(3, 90000)), 300);
}

#[test]
fn timestamp_does_not_decrease() {
    let time_base = TimeBase::try_new(1001, 30000);
    let mut last = 0;
    for frame in 0..100_000 {
        let ts = frame_to_ts(frame, 44100, time_base);
        assert!(last <= ts);
        last = ts;
    }
}

#[test]
fn timestamp_that_is_too_late_is_the_last_one() {
    assert_eq!(frame_to_ts(i64::MAX as u64 + 1, 44100, None), i64::MAX);
    assert_eq!(frame_to_ts(u64::MAX, 44100, None), i64::MAX);
    assert_eq!(frame_to_ts(u64::MAX, 1, TimeBase::try_new(1, u32::MAX)), i64::MAX);
    assert_eq!(frame_to_ts(u64::MAX, u32::MAX, TimeBase::try_new(u32::MAX, 1)), 1);
}

#[test]
fn sample_rate_of_zero_counts_as_one() {
    let seconds = TimeBase::try_new(1, 1);
    assert_eq!(frame_to_ts(12, 0, seconds), 12);
    assert_eq!(frame_to_ts(12, 1, seconds), 12);
}

#[test]
fn time_base_has_no_zero() {
    assert!(TimeBase::try_new(0, 1).is_none());
    assert!(TimeBase::try_new(1, 0).is_none());
    assert!(TimeBase::try_new(0, 0).is_none());
    assert!(TimeBase::try_new(1, 1).is_some());
}

#[test]
fn track_without_sample_rate_is_taken_at_the_default() {
    let track = TrackInfo {
        id: 0,
        codec_params: Some(AudioParams { sample_rate: None, channels: None }),
        num_frames: Some(1 << 20),
        time_base: TimeBase::try_new(1, 1000),
    };
    let opening = Opening::new(Some(track), 44100, 16).unwrap();
    assert_eq!(opening.seek_target().unwrap().ts, 1000);
}

#[test]
fn frame_is_the_nearest_to_a_timestamp() {
    let milliseconds = TimeBase::try_new(1, 1000);
    assert_eq!(ts_to_frame(980, 48000, milliseconds), 47040);
    assert_eq!(ts_to_frame(1, 44100, milliseconds), 44);
    assert_eq!(ts_to_frame(5, 44100, milliseconds), 221);
    assert_eq!(ts_to_frame(7, 44100, TimeBase::try_new(1, 88200)), 4);
    assert_eq!(ts_to_frame(12, 0, TimeBase::try_new(1, 1)), 12);
    assert_eq!(ts_to_frame(0, 44100, milliseconds), 0);
    assert_eq!(ts_to_frame(i64::MAX, 44100, None), i64::MAX as u64);
    assert_eq!(ts_to_frame(i64::MAX, u32::MAX, TimeBase::try_new(u32::MAX, 1)), u64::MAX);
    assert_eq!(ts_to_frame(i64::MAX, 1, TimeBase::try_new(1, u32::MAX)), 2147483648);
}

#[test]
fn frame_is_found_again_from_its_timestamp() {
    for (numer, denom) in [(1, 44100), (1, 48000), (1, 90000), (3, 150000), (1, u32::MAX)] {
        let time_base = TimeBase::try_new(numer, denom);
        for frame in [0, 1, 2, 7, 44_099, 44_100, 123_456_789] {
            assert_eq!(ts_to_frame(frame_to_ts(frame, 44100, time_base), 44100, time_base), frame);
        }
    }
    // A tick is longer than a frame, but the frames begin at ticks.
    let milliseconds = TimeBase::try_new(1, 1000);
    for frame in [0, 441, 882, 44100] {
        let ts = frame_to_ts(frame, 44100, milliseconds);
        assert_eq!(ts_to_frame(ts, 44100, milliseconds), frame);
    }
}
