use rodio::mixer::{mixer, Mixer, MixerSource};
use rodio::sample::Sample;
use rodio::source::{SamplesBuffer, SeekError, Source};

fn buf(channels: u16, data: Vec<i16>) -> SamplesBuffer<i16> {
    SamplesBuffer::new(channels, 48000, data)
}

fn new_mixer(channels: u16, rate: u32) -> (Mixer<i16, SamplesBuffer<i16>>, MixerSource<i16, SamplesBuffer<i16>>) {
    mixer(channels, rate)
}

#[test]
fn basic() {
    let (mut tx, mut rx) = new_mixer(1, 48000);

    tx.add(SamplesBuffer::new(1, 48000, vec![10i16, -10, 10, -10]));
    tx.add(SamplesBuffer::new(1, 48000, vec![5i16, 5, 5, 5]));

    assert_eq!(rx.channels(), 1);
    assert_eq!(rx.sample_rate(), 48000);
    assert_eq!(rx.next(&mut tx), Some(15));
    assert_eq!(rx.next(&mut tx), Some(-5));
    assert_eq!(rx.next(&mut tx), Some(15));
    assert_eq!(rx.next(&mut tx), Some(-5));
    assert_eq!(rx.next(&mut tx), None);
}

#[test]
fn start_afterwards() {
    let (mut tx, mut rx) = new_mixer(1, 48000);

    tx.add(SamplesBuffer::new(1, 48000, vec![10i16, -10, 10, -10]));

    assert_eq!(rx.next(&mut tx), Some(10));
    assert_eq!(rx.next(&mut tx), Some(-10));

    tx.add(SamplesBuffer::new(1, 48000, vec![5i16, 5, 6, 6, 7, 7, 7]));

    assert_eq!(rx.next(&mut tx), Some(15));
    assert_eq!(rx.next(&mut tx), Some(-5));

    assert_eq!(rx.next(&mut tx), Some(6));
    assert_eq!(rx.next(&mut tx), Some(6));

    tx.add(SamplesBuffer::new(1, 48000, vec![2i16]));

    assert_eq!(rx.next(&mut tx), Some(9));
    assert_eq!(rx.next(&mut tx), Some(7));
    assert_eq!(rx.next(&mut tx), Some(7));

    assert_eq!(rx.next(&mut tx), None);
}

#[test]
fn output_format_is_the_mixers() {
    let (mut tx, mut rx) = new_mixer(2, 44100);
    tx.add(SamplesBuffer::new(1, 96000, vec![1i16, 2, 3]));
    assert_eq!(rx.channels(), 2);
    assert_eq!(rx.sample_rate(), 44100);
    rx.next(&mut tx);
    rx.next(&mut tx);
    assert_eq!(rx.channels(), 2);
    assert_eq!(rx.sample_rate(), 44100);
    assert_eq!(rx.current_frame_len(), None);
    assert_eq!(rx.total_duration(), None);
}

#[test]
fn channels_conv() {
    let (mut tx, mut rx) = new_mixer(2, 48000);

    tx.add(SamplesBuffer::new(1, 48000, vec![10i16, -10, 10, -10]));
    tx.add(SamplesBuffer::new(1, 48000, vec![5i16, 5, 5, 5]));

    assert_eq!(rx.channels(), 2);
    assert_eq!(rx.sample_rate(), 48000);
    assert_eq!(rx.next(&mut tx), Some(15));
    assert_eq!(rx.next(&mut tx), Some(15));
    assert_eq!(rx.next(&mut tx), Some(-5));
    assert_eq!(rx.next(&mut tx), Some(-5));
    assert_eq!(rx.next(&mut tx), Some(15));
    assert_eq!(rx.next(&mut tx), Some(15));
    assert_eq!(rx.next(&mut tx), Some(-5));
    assert_eq!(rx.next(&mut tx), Some(-5));
    assert_eq!(rx.next(&mut tx), None);
}

#[test]
fn rate_conv() {
    let (mut tx, mut rx) = new_mixer(1, 96000);

    tx.add(SamplesBuffer::new(1, 48000, vec![10i16, -10, 10, -10]));
    tx.add(SamplesBuffer::new(1, 48000, vec![5i16, 5, 5, 5]));

    assert_eq!(rx.channels(), 1);
    assert_eq!(rx.sample_rate(), 96000);
    assert_eq!(rx.next(&mut tx), Some(15));
    assert_eq!(rx.next(&mut tx), Some(5));
    assert_eq!(rx.next(&mut tx), Some(-5));
    assert_eq!(rx.next(&mut tx), Some(5));
    assert_eq!(rx.next(&mut tx), Some(15));
    assert_eq!(rx.next(&mut tx), Some(5));
    assert_eq!(rx.next(&mut tx), Some(-5));
    assert_eq!(rx.next(&mut tx), None);
}

#[test]
fn stereo_source_waits_for_frame_boundary() {
    let (mut tx, mut rx) = new_mixer(2, 48000);
    tx.add(buf(2, vec![1, 1, 1, 1, 1, 1]));
    assert_eq!(rx.next(&mut tx), Some(1));
    assert_eq!(rx.sample_count(), 1);
    // one sample produced: the source, converted to two channels, waits one more pull
    tx.add(buf(1, vec![10, 20]));
    assert_eq!(rx.next(&mut tx), Some(1));
    assert!(tx.has_pending());
    assert_eq!(rx.next(&mut tx), Some(11));
    assert!(!tx.has_pending());
    assert_eq!(rx.next(&mut tx), Some(11));
    assert_eq!(rx.next(&mut tx), Some(21));
    assert_eq!(rx.next(&mut tx), Some(21));
    assert_eq!(rx.next(&mut tx), None);
}

#[test]
fn source_added_in_step_starts_at_once() {
    let (mut tx, mut rx) = new_mixer(2, 48000);
    tx.add(buf(2, vec![1, 1, 1, 1]));
    assert_eq!(rx.next(&mut tx), Some(1));
    assert_eq!(rx.next(&mut tx), Some(1));
    tx.add(buf(2, vec![7, 8]));
    assert_eq!(rx.next(&mut tx), Some(8));
    assert_eq!(rx.next(&mut tx), Some(9));
}

#[test]
fn three_channel_source_waits_two_pulls() {
    let (mut tx, mut rx) = new_mixer(3, 48000);
    tx.add(buf(1, vec![0, 0, 0, 0, 0, 0, 0]));
    assert_eq!(rx.next(&mut tx), Some(0));
    tx.add(buf(3, vec![4, 5, 6]));
    assert!(tx.has_pending());
    assert_eq!(rx.next(&mut tx), Some(0));
    assert!(tx.has_pending());
    assert_eq!(rx.next(&mut tx), Some(0));
    assert!(tx.has_pending());
    assert_eq!(rx.next(&mut tx), Some(4));
    assert!(!tx.has_pending());
    assert_eq!(rx.next(&mut tx), Some(5));
    assert_eq!(rx.next(&mut tx), Some(6));
}

#[test]
fn saturating_sum_clamps_high() {
    let (mut tx, mut rx) = new_mixer(1, 48000);
    tx.add(buf(1, vec![30000, 100]));
    tx.add(buf(1, vec![10000, 100]));
    assert_eq!(rx.next(&mut tx), Some(i16::MAX));
    assert_eq!(rx.next(&mut tx), Some(200));
    assert_eq!(rx.next(&mut tx), None);
}

#[test]
fn saturating_sum_clamps_low() {
    let (mut tx, mut rx) = new_mixer(1, 48000);
    tx.add(buf(1, vec![-30000]));
    tx.add(buf(1, vec![-10000]));
    assert_eq!(rx.next(&mut tx), Some(i16::MIN));
}

#[test]
fn sample_saturating_add_values() {
    assert_eq!(Sample::saturating_add(i16::MAX, 1i16), i16::MAX);
    assert_eq!(Sample::saturating_add(i16::MIN, -1i16), i16::MIN);
    assert_eq!(Sample::saturating_add(3i16, 4i16), 7);
    assert_eq!(Sample::saturating_add(65000u16, 1000u16), u16::MAX);
    assert_eq!(<i16 as Sample>::lerp(10, -10, 1, 2), 0);
    assert_eq!(<i16 as Sample>::lerp(0, 9, 1, 3), 3);
    assert_eq!(<i16 as Sample>::lerp(0, -10, 1, 3), -3);
    assert_eq!(<u16 as Sample>::lerp(10, 20, 3, 4), 17);
    assert_eq!(<i16 as Sample>::zero_value(), 0);
}

#[test]
fn ends_while_source_still_waits() {
    let (mut tx, mut rx) = new_mixer(2, 48000);
    assert_eq!(rx.next(&mut tx), None);
    // counter is odd, so this source waits, and nothing is playing
    tx.add(buf(1, vec![9]));
    assert_eq!(rx.next(&mut tx), None);
    assert!(tx.has_pending());
    // the waiting source starts on a later pull
    assert_eq!(rx.next(&mut tx), Some(9));
    assert_eq!(rx.next(&mut tx), Some(9));
    assert_eq!(rx.next(&mut tx), None);
}

#[test]
fn stereo_to_mono_keeps_first_channel() {
    let (mut tx, mut rx) = new_mixer(1, 48000);
    tx.add(buf(2, vec![1, 2, 3, 4]));
    assert_eq!(rx.next(&mut tx), Some(1));
    assert_eq!(rx.next(&mut tx), Some(3));
    assert_eq!(rx.next(&mut tx), None);
}

#[test]
fn mono_to_three_channels_silences_the_third() {
    let (mut tx, mut rx) = new_mixer(3, 48000);
    tx.add(buf(1, vec![4, 5]));
    let mut out = Vec::new();
    while let Some(v) = rx.next(&mut tx) {
        out.push(v);
    }
    assert_eq!(out, vec![4, 4, 0, 5, 5, 0]);
}

#[test]
fn downsampling_halves_the_frames() {
    let (mut tx, mut rx) = new_mixer(1, 24000);
    tx.add(buf(1, vec![1, 2, 3, 4, 5]));
    let mut out = Vec::new();
    while let Some(v) = rx.next(&mut tx) {
        out.push(v);
    }
    assert_eq!(out, vec![1, 3, 5]);
}

#[test]
fn empty_mixer_ends_at_once() {
    let (mut tx, mut rx) = new_mixer(1, 48000);
    assert_eq!(rx.next(&mut tx), None);
    assert_eq!(rx.sample_count(), 1);
}

#[test]
fn seek_is_not_supported() {
    let (_tx, mut rx) = new_mixer(1, 48000);
    let r = rx.try_seek(std::time::Duration::from_millis(5));
    assert!(matches!(r, Err(SeekError::NotSupported { underlying_source: "MixerSource" })));
}

#[test]
fn buffer_source_plays_in_order() {
    let mut b = buf(2, vec![3, 4]);
    assert_eq!(b.channels(), 2);
    assert_eq!(b.sample_rate(), 48000);
    assert_eq!(Source::next(&mut b), Some(3));
    assert_eq!(Source::next(&mut b), Some(4));
    assert_eq!(Source::next(&mut b), None);
    assert_eq!(Source::next(&mut b), None);
}

#[test]
fn pull_in_two_parts_matches_next() {
    let (mut tx, mut rx) = new_mixer(2, 48000);
    tx.add(buf(1, vec![3, 4]));
    rx.start_pending_sources(&mut tx);
    assert!(!tx.has_pending());
    assert_eq!(rx.advance(), Some(3));
    assert_eq!(rx.advance(), Some(3));
    tx.add(buf(1, vec![1]));
    rx.start_pending_sources(&mut tx);
    assert_eq!(rx.advance(), Some(5));
    assert_eq!(rx.advance(), Some(5));
    assert_eq!(rx.advance(), None);
}
