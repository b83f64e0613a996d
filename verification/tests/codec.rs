use nafaq::codec::{encode_jpeg, is_keyframe, rgba_frame_len_ok, rgba_to_rgb, JPEG_QUALITY};

#[test]
fn test_is_keyframe() {
    // IDR NAL with start code 00 00 00 01 and NAL type 5
    let idr = vec![0x00, 0x00, 0x00, 0x01, 0x65, 0x88]; // 0x65 & 0x1f = 5
    assert!(is_keyframe(&idr));
    // Non-IDR NAL type 1
    let non_idr = vec![0x00, 0x00, 0x00, 0x01, 0x41, 0x88]; // 0x41 & 0x1f = 1
    assert!(!is_keyframe(&non_idr));
    // SPS NAL type 7 (not a keyframe itself)
    let sps = vec![0x00, 0x00, 0x00, 0x01, 0x67, 0x42];
    assert!(!is_keyframe(&sps));
}

#[test]
fn keyframe_after_parameter_sets_with_short_start_code() {
    // SPS, PPS, then an IDR behind a three-byte start code.
    let stream = vec![
        0x00, 0x00, 0x00, 0x01, 0x67, 0x42, 0x00, 0x00, 0x00, 0x01, 0x68, 0xCE, 0x00, 0x00, 0x01,
        0x65, 0x88, 0x84,
    ];
    assert!(is_keyframe(&stream));
    assert!(!is_keyframe(&[]));
    assert!(!is_keyframe(&[0x00, 0x00, 0x01]));
}

#[test]
fn rgba_buffer_length_must_match_dimensions() {
    assert!(rgba_frame_len_ok(2 * 3 * 4, 2, 3));
    assert!(!rgba_frame_len_ok(2 * 3 * 4 - 1, 2, 3));
    assert!(!rgba_frame_len_ok(0, 2, 3));
    assert!(rgba_frame_len_ok(0, 0, 3));
}

#[test]
fn alpha_is_dropped() {
    let rgba = vec![1, 2, 3, 4, 5, 6, 7, 8, 9];
    assert_eq!(rgba_to_rgb(&rgba), vec![1, 2, 3, 5, 6, 7]);
}

#[test]
fn jpeg_encoding_checks_size_and_produces_a_jpeg() {
    assert!(encode_jpeg(&[0u8; 15], 2, 2, JPEG_QUALITY).is_none());
    let rgba: Vec<u8> = (0..16 * 16).flat_map(|i| [i as u8, 0, 255, 255]).collect();
    let jpeg = encode_jpeg(&rgba, 16, 16, JPEG_QUALITY).expect("valid frame encodes");
    // A JPEG file starts with the SOI marker and ends with EOI.
    assert_eq!(&jpeg[..2], &[0xFF, 0xD8]);
    assert_eq!(&jpeg[jpeg.len() - 2..], &[0xFF, 0xD9]);
    // Zero-sized images are refused by the encoder.
    assert!(encode_jpeg(&[], 0, 0, JPEG_QUALITY).is_none());
}
