use culler::decode::{apply_orientation, divisor_for, TargetSize};
use culler::exif_data::{
    embedded_thumbnail, orientation_from, read_orientation, thumbnail_from, ExifValue,
};
use culler::raw::{embedded_jpeg, jpeg_within, preview_supported, RAF_MAGIC};

fn buf(r: &[u8]) -> Vec<u8> {
    let mut v = Vec::with_capacity(r.len() * 4);
    for &x in r {
        v.extend_from_slice(&[x, x, x, 255]);
    }
    v
}

#[test]
fn apply_orientation_all_eight_cases() {
    let src = buf(&[0, 1, 2, 3, 4, 5]);
    let cases: &[(u16, u32, u32, &[u8])] = &[
        (1, 2, 3, &[0, 1, 2, 3, 4, 5]),
        (2, 2, 3, &[1, 0, 3, 2, 5, 4]),
        (3, 2, 3, &[5, 4, 3, 2, 1, 0]),
        (4, 2, 3, &[4, 5, 2, 3, 0, 1]),
        (5, 3, 2, &[0, 2, 4, 1, 3, 5]),
        (6, 3, 2, &[4, 2, 0, 5, 3, 1]),
        (7, 3, 2, &[5, 3, 1, 4, 2, 0]),
        (8, 3, 2, &[1, 3, 5, 0, 2, 4]),
    ];
    for &(o, ew, eh, er) in cases {
        let (out, w, h) = apply_orientation(src.clone(), 2, 3, o);
        assert_eq!((w, h), (ew, eh), "orientation {o} dims");
        assert_eq!(out, buf(er), "orientation {o} pixels");
    }
}

#[test]
fn apply_orientation_unknown_is_identity() {
    let src = buf(&[0, 1, 2, 3, 4, 5]);
    let (out, w, h) = apply_orientation(src.clone(), 2, 3, 0);
    assert_eq!((w, h), (2, 3));
    assert_eq!(out, src);
    let (out9, w9, h9) = apply_orientation(src.clone(), 2, 3, 9);
    assert_eq!((w9, h9), (2, 3));
    assert_eq!(out9, src);
}

fn synth_raf(jpeg: &[u8], jpeg_off: usize) -> Vec<u8> {
    assert!(jpeg_off >= 92, "the offset/length header fields occupy bytes 84..92");
    let mut raf = Vec::new();
    raf.extend_from_slice(&RAF_MAGIC);
    raf.resize(jpeg_off, 0);
    raf[84..88].copy_from_slice(&(jpeg_off as u32).to_be_bytes());
    raf[88..92].copy_from_slice(&(jpeg.len() as u32).to_be_bytes());
    raf.extend_from_slice(jpeg);
    raf
}

fn fake_jpeg() -> Vec<u8> {
    vec![0xFF, 0xD8, 0xFF, 0xEE, 0x11, 0x22, 0x33, 0xFF, 0xD9]
}

#[test]
fn preview_supported_is_raf_only() {
    assert!(preview_supported("raf"));
    assert!(!preview_supported("cr3"));
    assert!(!preview_supported("nef"));
    assert!(!preview_supported("jpg"));
    assert!(!preview_supported(""));
}

#[test]
fn embedded_jpeg_extracts_the_slice() {
    let jpeg = fake_jpeg();
    let raf = synth_raf(&jpeg, 128);
    assert_eq!(embedded_jpeg(&raf), Some(jpeg.as_slice()));
}

#[test]
fn embedded_jpeg_rejects_non_raf_and_short_inputs() {
    assert_eq!(embedded_jpeg(b"not a raf file at all, but long enough........................................................"), None);
    assert_eq!(embedded_jpeg(b"FUJIFILMCCD-RAW "), None);
    assert_eq!(embedded_jpeg(&[]), None);
}

#[test]
fn embedded_jpeg_rejects_bad_pointers() {
    let jpeg = fake_jpeg();
    let mut zero = synth_raf(&jpeg, 128);
    zero[88..92].copy_from_slice(&0u32.to_be_bytes());
    assert_eq!(embedded_jpeg(&zero), None);
    let mut over = synth_raf(&jpeg, 128);
    over[88..92].copy_from_slice(&9999u32.to_be_bytes());
    assert_eq!(embedded_jpeg(&over), None);
}

#[test]
fn embedded_jpeg_rejects_non_jpeg_slice() {
    let not_jpeg = vec![0x00, 0x01, 0x02, 0x03];
    let raf = synth_raf(&not_jpeg, 128);
    assert_eq!(embedded_jpeg(&raf), None);
}

#[test]
fn a_frame_is_decoded_as_small_as_the_box_allows() {
    let fit = TargetSize::Fit(1600, 1000);
    assert_eq!(divisor_for(fit, 12800, 8), 8);
    assert_eq!(divisor_for(fit, 6000, 4000), 4);
    assert_eq!(divisor_for(fit, 3000, 2000), 2);
    assert_eq!(divisor_for(fit, 1000, 800), 1);
    assert_eq!(divisor_for(TargetSize::Full, 6000, 4000), 1);
    assert_eq!(divisor_for(TargetSize::Scaled(8), 6000, 4000), 8);
    assert_eq!(divisor_for(TargetSize::Scaled(0), 6000, 4000), 1);
}

#[test]
fn the_jpeg_of_a_file_is_found_by_its_content() {
    assert_eq!(jpeg_within(&[0xFF, 0xD8, 0xFF, 1]), Some(&[0xFF, 0xD8, 0xFF, 1][..]));
    assert_eq!(jpeg_within(&[0xFF, 0xD8]), None);
    assert_eq!(jpeg_within(b"not an image"), None);
}

/// A JPEG with an orientation and, as its thumbnail, the bytes given.
fn jpeg_with_thumbnail(orientation: u16, thumbnail: &[u8]) -> Vec<u8> {
    let mut tiff: Vec<u8> = Vec::new();
    tiff.extend_from_slice(b"MM");
    tiff.extend_from_slice(&42u16.to_be_bytes());
    tiff.extend_from_slice(&8u32.to_be_bytes());

    tiff.extend_from_slice(&1u16.to_be_bytes());
    tiff.extend_from_slice(&0x112u16.to_be_bytes());
    tiff.extend_from_slice(&3u16.to_be_bytes());
    tiff.extend_from_slice(&1u32.to_be_bytes());
    tiff.extend_from_slice(&orientation.to_be_bytes());
    tiff.extend_from_slice(&0u16.to_be_bytes());
    tiff.extend_from_slice(&26u32.to_be_bytes());

    tiff.extend_from_slice(&2u16.to_be_bytes());
    for (tag, value) in [(0x201u16, 56u32), (0x202, thumbnail.len() as u32)] {
        tiff.extend_from_slice(&tag.to_be_bytes());
        tiff.extend_from_slice(&4u16.to_be_bytes());
        tiff.extend_from_slice(&1u32.to_be_bytes());
        tiff.extend_from_slice(&value.to_be_bytes());
    }
    tiff.extend_from_slice(&0u32.to_be_bytes());
    assert_eq!(tiff.len(), 56);
    tiff.extend_from_slice(thumbnail);

    let mut jpeg: Vec<u8> = vec![0xFF, 0xD8, 0xFF, 0xE1];
    jpeg.extend_from_slice(&((2 + 6 + tiff.len()) as u16).to_be_bytes());
    jpeg.extend_from_slice(b"Exif\0\0");
    jpeg.extend_from_slice(&tiff);
    jpeg.extend_from_slice(&[0xFF, 0xD9]);
    jpeg
}

#[test]
fn the_orientation_is_read_from_the_file() {
    let small = [0xFF, 0xD8, 0xFF, 0xD9];
    assert_eq!(read_orientation(&jpeg_with_thumbnail(6, &small)), 6);
    assert_eq!(read_orientation(&jpeg_with_thumbnail(1, &small)), 1);
    assert_eq!(read_orientation(b"no image"), 1);
}

#[test]
fn an_orientation_that_is_no_number_leaves_the_frame() {
    assert_eq!(orientation_from(&None), 1);
    assert_eq!(orientation_from(&Some(ExifValue::Short(vec![8]))), 8);
    assert_eq!(orientation_from(&Some(ExifValue::Short(vec![]))), 1);
    assert_eq!(orientation_from(&Some(ExifValue::Long(vec![70_000]))), 1);
    assert_eq!(orientation_from(&Some(ExifValue::Other)), 1);
}

#[test]
fn the_thumbnail_is_cut_from_the_file() {
    let small = [0xFF, 0xD8, 0xFF, 0xE0, 7, 0xFF, 0xD9];
    assert_eq!(
        embedded_thumbnail(&jpeg_with_thumbnail(1, &small)),
        Some(small.to_vec())
    );
    assert_eq!(embedded_thumbnail(&jpeg_with_thumbnail(1, b"not a jpeg")), None);
    assert_eq!(embedded_thumbnail(b"no image"), None);
}

#[test]
fn a_thumbnail_lies_within_its_data() {
    let tiff = vec![0, 0xFF, 0xD8, 0xFF, 9];
    let start = Some(ExifValue::Long(vec![1]));
    let at = |n: u32| thumbnail_from(&start, &Some(ExifValue::Long(vec![n])), &tiff);
    assert_eq!(at(4), Some(vec![0xFF, 0xD8, 0xFF, 9]));
    assert_eq!(at(3), Some(vec![0xFF, 0xD8, 0xFF]));
    assert_eq!(at(5), None);
    assert_eq!(at(u32::MAX), None);
    assert_eq!(at(0), None);
    assert_eq!(thumbnail_from(&start, &None, &tiff), None);
}
