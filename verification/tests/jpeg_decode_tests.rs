use xdremux::jpeg_decode::{decode_jpeg_to_gray, decode_jpeg_to_rgb};

#[test]
fn decode_empty_jpeg_errors() {
    let result = decode_jpeg_to_gray(&[]);
    assert!(result.is_err());
}

#[test]
fn decode_junk_data_errors() {
    let result = decode_jpeg_to_gray(&[0u8; 100]);
    assert!(result.is_err());
}

#[test]
fn decode_rgb_junk_errors() {
    let result = decode_jpeg_to_rgb(&[]);
    assert!(result.is_err());
    let result = decode_jpeg_to_rgb(&[0u8; 100]);
    assert!(result.is_err());
}

/// A gray JPEG of eight by eight pixels, all of one block without coefficients.
fn flat_jpeg() -> Vec<u8> {
    let mut out = vec![0xff, 0xd8, 0xff, 0xdb, 0x00, 0x43, 0x00];
    out.extend_from_slice(&[1u8; 64]);
    out.extend_from_slice(&[0xff, 0xc0, 0, 11, 8, 0, 8, 0, 8, 1, 1, 0x11, 0]);
    for class in [0x00u8, 0x10] {
        out.extend_from_slice(&[0xff, 0xc4, 0, 20, class, 1]);
        out.extend_from_slice(&[0u8; 16]);
    }
    out.extend_from_slice(&[0xff, 0xda, 0, 8, 1, 1, 0x00, 0, 63, 0, 0x3f, 0xff, 0xd9]);
    out
}

#[test]
fn a_flat_jpeg_is_decoded() {
    assert_eq!(decode_jpeg_to_gray(&flat_jpeg()), Ok((vec![128u8; 64], 8, 8)));
    assert_eq!(decode_jpeg_to_rgb(&flat_jpeg()), Ok((vec![128u8; 192], 8, 8)));
    assert!(decode_jpeg_to_gray(&flat_jpeg()[1..]).is_err());
}

#[test]
fn jpegs_with_too_many_rows_for_their_scans_are_refused() {
    let mut tall = flat_jpeg();
    let height = tall.windows(2).position(|w| w == [0xff, 0xc0]).unwrap() + 5;
    tall[height..height + 2].copy_from_slice(&[0xff, 0xf9]);
    let error = decode_jpeg_to_gray(&tall).unwrap_err();
    assert!(error.contains("image has too many rows or columns"));

    let mut wide = flat_jpeg();
    wide[height + 2..height + 4].copy_from_slice(&[0xff, 0xf9]);
    let coded = wide.len() - 3;
    wide[coded] = 0;
    let (pixels, w, h) = decode_jpeg_to_gray(&wide).unwrap();
    assert!((w, h) == (65529, 8) && pixels == vec![128u8; 65529 * 8]);
    wide[height + 6] = 0x31;
    let error = decode_jpeg_to_gray(&wide).unwrap_err();
    assert!(error.contains("image has too many rows or columns"));
}

#[test]
fn comments_that_look_like_frames_are_no_frames() {
    let frame = [0xff, 0xc0, 0, 11, 8, 0xff, 0xff, 0xff, 0xff, 1, 1, 0x11, 0];
    let mut jpeg = flat_jpeg();
    let mut comment = vec![0xff, 0xfe, 0, 2 + frame.len() as u8];
    comment.extend_from_slice(&frame);
    jpeg.splice(2..2, comment);
    assert_eq!(decode_jpeg_to_gray(&jpeg), Ok((vec![128u8; 64], 8, 8)));
    jpeg.extend_from_slice(&frame);
    assert_eq!(decode_jpeg_to_gray(&jpeg), Ok((vec![128u8; 64], 8, 8)));
}

/// An RGB JPEG of eight by eight pixels, all of one colour.
fn reddish_jpeg() -> Vec<u8> {
    let mut out = vec![0xff, 0xd8, 0xff, 0xdb, 0x00, 0x43, 0x00];
    out.extend_from_slice(&[1u8; 64]);
    out.extend_from_slice(&[0xff, 0xc0, 0, 17, 8, 0, 8, 0, 8, 3]);
    out.extend_from_slice(&[b'R', 0x11, 0, b'G', 0x11, 0, b'B', 0x11, 0]);
    out.extend_from_slice(&[0xff, 0xc4, 0, 21, 0x00, 1, 1]);
    out.extend_from_slice(&[0u8; 14]);
    out.extend_from_slice(&[0, 7]);
    out.extend_from_slice(&[0xff, 0xc4, 0, 20, 0x10, 1]);
    out.extend_from_slice(&[0u8; 16]);
    out.extend_from_slice(&[0xff, 0xda, 0, 12, 3, b'R', 0, b'G', 0, b'B', 0, 0, 63, 0]);
    out.extend_from_slice(&[0xa0, 0x03, 0xff, 0xd9]);
    out
}

#[test]
fn a_jpeg_of_one_colour_is_decoded() {
    let rgb = [136u8, 128, 128].repeat(64);
    assert_eq!(decode_jpeg_to_rgb(&reddish_jpeg()), Ok((rgb, 8, 8)));
    assert_eq!(decode_jpeg_to_gray(&reddish_jpeg()), Ok((vec![130u8; 64], 8, 8)));
}

#[test]
fn images_hold_the_pixels_of_their_frame() {
    let mut narrow = reddish_jpeg();
    let frame = narrow.windows(2).position(|w| w == [0xff, 0xc0]).unwrap();
    narrow[frame + 6] = 3;
    narrow[frame + 8] = 5;
    let (rgb, width, height) = decode_jpeg_to_rgb(&narrow).unwrap();
    assert_eq!((rgb.len(), width, height), (45, 5, 3));
    let (gray, width, height) = decode_jpeg_to_gray(&narrow).unwrap();
    assert_eq!((gray.len(), width, height), (15, 5, 3));
}
