use solar_sim::qoi::{decode, output_size_fits, read_as_raw, QoiDesc};

const PADDING: [u8; 8] = [0, 0, 0, 0, 0, 0, 0, 1];

fn header(width: u32, height: u32, channels: u8, colorspace: u8) -> Vec<u8> {
    let mut v = b"qoif".to_vec();
    v.extend_from_slice(&width.to_be_bytes());
    v.extend_from_slice(&height.to_be_bytes());
    v.push(channels);
    v.push(colorspace);
    v
}

fn image(width: u32, height: u32, channels: u8, chunks: &[u8]) -> Vec<u8> {
    let mut v = header(width, height, channels, 0);
    v.extend_from_slice(chunks);
    v.extend_from_slice(&PADDING);
    v
}

fn empty_desc() -> QoiDesc {
    QoiDesc { width: 0, height: 0, channels: 0, colorspace: 0 }
}

#[test]
fn rgba_then_rgb_keeps_alpha() {
    let bytes = image(2, 1, 4, &[0xFF, 10, 20, 30, 40, 0xFE, 1, 2, 3]);
    let mut desc = empty_desc();
    let out = decode(&bytes, 0, &mut desc).unwrap();
    assert_eq!(out, vec![10, 20, 30, 40, 1, 2, 3, 40]);
    assert_eq!((desc.width, desc.height, desc.channels, desc.colorspace), (2, 1, 4, 0));
}

#[test]
fn three_channels_drop_alpha() {
    let bytes = image(2, 1, 4, &[0xFF, 10, 20, 30, 40, 0xFE, 1, 2, 3]);
    let mut desc = empty_desc();
    let out = decode(&bytes, 3, &mut desc).unwrap();
    assert_eq!(out, vec![10, 20, 30, 1, 2, 3]);
}

#[test]
fn wider_channels_are_zero_filled() {
    let bytes = image(1, 1, 3, &[0xFE, 7, 8, 9]);
    let mut desc = empty_desc();
    let out = decode(&bytes, 5, &mut desc).unwrap();
    assert_eq!(out, vec![7, 8, 9, 0, 0]);
}

#[test]
fn header_channel_count_used_when_zero_requested() {
    let bytes = image(1, 1, 3, &[0xFE, 7, 8, 9]);
    let mut desc = empty_desc();
    let out = decode(&bytes, 0, &mut desc).unwrap();
    assert_eq!(out, vec![7, 8, 9]);
}

#[test]
fn run_repeats_pixel() {
    // RGB, then a run tag with length bits 1: the tag's own pixel and one more.
    let bytes = image(3, 1, 4, &[0xFE, 5, 6, 7, 0xC1]);
    let mut desc = empty_desc();
    let out = decode(&bytes, 4, &mut desc).unwrap();
    assert_eq!(out, vec![5, 6, 7, 255, 5, 6, 7, 255, 5, 6, 7, 255]);
}

#[test]
fn index_recalls_hashed_pixel() {
    // (5, 6, 7, 255) hashes to slot 19.
    let bytes = image(3, 1, 4, &[0xFE, 5, 6, 7, 0xFE, 1, 1, 1, 0x13]);
    let mut desc = empty_desc();
    let out = decode(&bytes, 4, &mut desc).unwrap();
    assert_eq!(out, vec![5, 6, 7, 255, 1, 1, 1, 255, 5, 6, 7, 255]);
}

#[test]
fn diff_wraps_around() {
    // From the start pixel (0, 0, 0, 255): red -1, green 0, blue 0.
    let bytes = image(1, 1, 4, &[0x5A]);
    let mut desc = empty_desc();
    let out = decode(&bytes, 4, &mut desc).unwrap();
    assert_eq!(out, vec![255, 0, 0, 255]);
}

#[test]
fn diff_adds_small_deltas() {
    let bytes = image(2, 1, 4, &[0xFE, 5, 6, 7, 0x72]);
    let mut desc = empty_desc();
    let out = decode(&bytes, 4, &mut desc).unwrap();
    assert_eq!(out, vec![5, 6, 7, 255, 6, 4, 7, 255]);
}

#[test]
fn luma_uses_green_delta() {
    // green +10, red - green = -3, blue - green = +2.
    let bytes = image(1, 1, 4, &[0xAA, 0x5A]);
    let mut desc = empty_desc();
    let out = decode(&bytes, 4, &mut desc).unwrap();
    assert_eq!(out, vec![7, 10, 12, 255]);
}

#[test]
fn exhausted_data_repeats_last_pixel() {
    let bytes = image(3, 1, 3, &[0xFE, 9, 8, 7]);
    let mut desc = empty_desc();
    let out = decode(&bytes, 3, &mut desc).unwrap();
    assert_eq!(out, vec![9, 8, 7, 9, 8, 7, 9, 8, 7]);
}

#[test]
fn output_length_is_pixels_times_channels() {
    let bytes = image(4, 3, 4, &[]);
    let mut desc = empty_desc();
    let out = decode(&bytes, 0, &mut desc).unwrap();
    assert_eq!(out.len(), 4 * 3 * 4);
    assert!(out.chunks(4).all(|p| p == [0, 0, 0, 255]));
}

#[test]
fn too_small_leaves_desc() {
    let mut desc = QoiDesc { width: 9, height: 9, channels: 9, colorspace: 9 };
    let err = decode(b"qoif", 0, &mut desc).unwrap_err();
    assert_eq!(err, "Too small to be a QOI file");
    assert_eq!((desc.width, desc.height, desc.channels, desc.colorspace), (9, 9, 9, 9));
}

#[test]
fn bad_magic_still_fills_desc() {
    let mut bytes = image(2, 3, 4, &[]);
    bytes[0] = b'x';
    let mut desc = empty_desc();
    let err = decode(&bytes, 0, &mut desc).unwrap_err();
    assert_eq!(err, "Invalid QOI magic");
    assert_eq!((desc.width, desc.height, desc.channels, desc.colorspace), (2, 3, 4, 0));
}

#[test]
fn zero_dimension_refused() {
    let bytes = image(0, 3, 4, &[]);
    let mut desc = empty_desc();
    assert_eq!(decode(&bytes, 0, &mut desc).unwrap_err(), "Invalid QOI dimensions");
}

#[test]
fn bad_channels_refused() {
    let bytes = image(1, 1, 2, &[]);
    let mut desc = empty_desc();
    assert_eq!(decode(&bytes, 0, &mut desc).unwrap_err(), "Invalid channel count");
}

#[test]
fn bad_colorspace_refused() {
    let mut bytes = header(1, 1, 4, 2);
    bytes.extend_from_slice(&PADDING);
    let mut desc = empty_desc();
    assert_eq!(decode(&bytes, 0, &mut desc).unwrap_err(), "Invalid colorspace");
}

#[test]
fn huge_image_refused() {
    let bytes = image(20_000, 20_000, 4, &[]);
    let mut desc = empty_desc();
    assert_eq!(decode(&bytes, 0, &mut desc).unwrap_err(), "Image too large");
}

#[test]
fn raw_image_is_rgba() {
    let bytes = image(1, 2, 3, &[0xFE, 1, 2, 3]);
    let img = read_as_raw(&bytes).unwrap();
    assert_eq!((img.width, img.height), (1, 2));
    assert_eq!(img.data, vec![1, 2, 3, 255, 1, 2, 3, 255]);
}

#[test]
fn raw_image_error_message() {
    assert_eq!(read_as_raw(&[1, 2, 3]).unwrap_err(), "Too small to be a QOI file");
}

#[test]
fn channel_count_only_selects_bytes() {
    let bytes = image(3, 1, 4, &[0xFF, 10, 20, 30, 40, 0x5A, 0xAA, 0x5A]);
    let mut desc = empty_desc();
    let rgba = decode(&bytes, 4, &mut desc).unwrap();
    assert_eq!(rgba, vec![10, 20, 30, 40, 9, 20, 30, 40, 16, 30, 42, 40]);
    for req in [0usize, 3, 4, 5, 6] {
        let out = decode(&bytes, req, &mut desc).unwrap();
        let c = if req == 0 { 4 } else { req };
        assert_eq!(out.len(), 3 * c);
        for i in 0..3 {
            let px = &out[c * i..c * i + c];
            assert_eq!(&px[..3], &rgba[4 * i..4 * i + 3]);
            if c == 4 {
                assert_eq!(px[3], rgba[4 * i + 3]);
            }
            assert!(px.iter().skip(4).all(|&b| b == 0));
            if c != 4 {
                assert!(px.iter().skip(3).all(|&b| b == 0));
            }
        }
    }
}

#[test]
fn output_size_check() {
    let bytes = image(2, 3, 4, &[]);
    assert!(output_size_fits(&bytes, 0));
    assert!(output_size_fits(&bytes, 4));
    assert!(output_size_fits(&bytes, usize::MAX / 6));
    assert!(!output_size_fits(&bytes, usize::MAX / 6 + 1));
    assert!(!output_size_fits(&bytes, usize::MAX));
    assert!(output_size_fits(b"qoif", usize::MAX));
}
