use culler::decode::DecodedImage;
use culler::histogram::{count_bars, sample_offsets, tallest, MAX_SAMPLED_PIXELS};

fn frame(w: u32, h: u32, bytes: usize) -> DecodedImage {
    DecodedImage {
        w,
        h,
        rgba: vec![0u8; bytes],
    }
}

#[test]
fn every_pixel_of_a_small_frame_is_looked_at() {
    assert_eq!(sample_offsets(&frame(2, 3, 24)), vec![0, 4, 8, 12, 16, 20]);
}

#[test]
fn a_large_frame_is_looked_at_in_strides() {
    let img = frame(1000, 1000, 4_000_000);
    let offsets = sample_offsets(&img);
    assert_eq!(offsets.len() as u64, MAX_SAMPLED_PIXELS);
    assert_eq!(offsets[1], 20);
    assert_eq!(*offsets.last().unwrap(), (MAX_SAMPLED_PIXELS as usize - 1) * 20);
}

#[test]
fn a_partial_pixel_is_not_looked_at() {
    assert_eq!(sample_offsets(&frame(4, 4, 11)), vec![0, 4]);
    assert_eq!(sample_offsets(&frame(4, 4, 3)), Vec::<usize>::new());
    assert_eq!(sample_offsets(&frame(0, 0, 16)), Vec::<usize>::new());
}

#[test]
fn bars_count_their_samples_and_the_last_takes_what_lies_beyond() {
    assert_eq!(count_bars(&vec![0, 2, 2, 7], 3), vec![1, 0, 3]);
    assert_eq!(count_bars(&vec![0, 1], 0), Vec::<usize>::new());
    assert_eq!(count_bars(&Vec::new(), 2), vec![0, 0]);
}

#[test]
fn every_sample_counts_for_one_bar() {
    let samples = vec![5, 0, 9, 3, 3, 29, 30, 100];
    let bars = count_bars(&samples, 30);
    assert_eq!(bars.iter().sum::<usize>(), samples.len());
}

#[test]
fn the_tallest_bar_is_found() {
    assert_eq!(tallest(&vec![1, 4, 2]), 4);
    assert_eq!(tallest(&vec![0, 0]), 0);
    assert_eq!(tallest(&Vec::new()), 0);
}
