use moss_tts_nano::audio::{interleave_channels, stereo};

#[test]
fn channels_take_turns_in_the_output() {
    let data = [1, 2, 3, 10, 20, 30];
    assert_eq!(interleave_channels(&data, 2, 3, 3), vec![1, 10, 2, 20, 3, 30]);
    // Only the samples that are there are given out.
    assert_eq!(interleave_channels(&data, 2, 3, 1), vec![1, 10]);
    assert_eq!(interleave_channels(&data, 1, 6, 6), data.to_vec());
    assert_eq!(interleave_channels(&data, 0, 3, 2), Vec::<i32>::new());
}

#[test]
fn reference_audio_becomes_stereo() {
    assert_eq!(stereo(&[1, 10, 2, 20], 2), Some((vec![1, 2], vec![10, 20])));
    assert_eq!(stereo(&[1, 2, 3], 1), Some((vec![1, 2, 3], vec![1, 2, 3])));
    assert_eq!(stereo(&[1, 10, 100, 2, 20, 200], 3), Some((vec![1, 2], vec![10, 20])));
    assert_eq!(stereo::<i32>(&[], 2), Some((vec![], vec![])));
    assert_eq!(stereo(&[1, 10, 2, 20, 3], 2), None);
    assert_eq!(stereo(&[1], 2), None);
    // A single sample on the right is repeated.
    assert_eq!(stereo(&[1, 10, 2], 2), Some((vec![1, 2], vec![10, 10])));
}

#[test]
fn interleaving_is_undone() {
    let data: Vec<u32> = (0..40).collect();
    let (left, right) = stereo(&interleave_channels(&data, 2, 20, 20), 2).unwrap();
    assert_eq!(left, data[..20].to_vec());
    assert_eq!(right, data[20..].to_vec());
}
