use xdremux::encoder::{
    batch_settings, batch_streams, check_tile_sizes, chroma_stride, gray_planes, tile_settings,
};
use xdremux::hevc::{
    drop_parameter_nals, extract_hvcc_config_with_chroma, hevc_byte_stream_to_length_prefixed,
    package_tiles, try_drop_parameter_nals, yuv444_to_420,
};

fn value_of<'a>(params: &'a [(&'static str, &'static str)], name: &str) -> Option<&'a str> {
    params.iter().find(|p| p.0 == name).map(|p| p.1)
}

fn stream(nals: &[&[u8]]) -> Vec<u8> {
    let mut out = Vec::new();
    for nal in nals {
        out.extend_from_slice(&[0, 0, 0, 1]);
        out.extend_from_slice(nal);
    }
    out
}

const VPS: &[u8] = &[0x40, 0x01, 0x0c, 0x01, 0xff, 0xff, 0x01, 0x60, 0x00, 0x9f];
const SPS: &[u8] = &[
    0x42, 0x01, 0x01, 0x03, 0x70, 0x11, 0x22, 0x33, 0x90, 0x01, 0x02, 0x03, 0x04, 0x05, 0x5d, 0xa0,
];
const PPS: &[u8] = &[0x44, 0x01, 0xc1, 0x72];
const IDR: &[u8] = &[0x26, 0x01, 0xaf, 0x09, 0x80];

#[test]
fn units_end_at_either_start_code() {
    let mixed = [0, 0, 0, 1, 0x40, 1, 0, 0, 1, 0x26, 2, 0, 0, 0, 1, 0x28, 3];
    assert_eq!(
        hevc_byte_stream_to_length_prefixed(&mixed),
        vec![0, 0, 0, 2, 0x40, 1, 0, 0, 0, 2, 0x26, 2, 0, 0, 0, 2, 0x28, 3]
    );
    let kept = vec![0, 0, 1, 0x26, 2, 0, 0, 0, 1, 0x28, 3];
    assert_eq!(drop_parameter_nals(&mixed), kept);
}

#[test]
fn batches_of_gray_tiles_are_monochrome() {
    let s = batch_settings(1, false, false);
    assert_eq!(s.preset, "ultrafast");
    assert_eq!(s.profile, "main444-8");
    assert_eq!(
        s.before_profile,
        vec![
            ("input-csp", "i400"),
            ("fps", "1"),
            ("crf", "18"),
            ("range", "full"),
            ("repeat-headers", "0"),
            ("keyint", "1"),
        ]
    );
    assert_eq!(
        s.after_profile,
        vec![("bframes", "0"), ("rc-lookahead", "0"), ("no-open-gop", "0")]
    );
}

#[test]
fn colour_batches_name_their_colours() {
    let s = batch_settings(3, true, true);
    assert_eq!((s.preset, s.profile), ("fast", "mainstillpicture"));
    assert_eq!(value_of(&s.before_profile, "input-csp"), Some("i420"));
    assert_eq!(value_of(&s.before_profile, "crf"), Some("14"));
    assert_eq!(value_of(&s.after_profile, "colormatrix"), Some("smpte170m"));
    assert_eq!(value_of(&s.after_profile, "transfer"), Some("iec61966-2-1"));
    let s = batch_settings(3, false, false);
    assert_eq!((s.preset, s.profile), ("medium", "main444-8"));
    assert_eq!(value_of(&s.before_profile, "input-csp"), Some("i444"));
    assert_eq!(value_of(&s.after_profile, "colorprim"), Some("bt709"));
    assert_eq!(value_of(&s.after_profile, "aq-mode"), Some("1"));
}

#[test]
fn single_tiles_repeat_their_headers() {
    let s = tile_settings(false, false);
    assert_eq!((s.preset, s.profile), ("ultrafast", "main444-8"));
    assert_eq!(value_of(&s.before_profile, "repeat-headers"), Some("1"));
    assert_eq!(value_of(&s.before_profile, "input-csp"), Some("i444"));
    assert_eq!(s.after_profile, vec![("frame-threads", "1"), ("pools", "1")]);
    let s = tile_settings(true, true);
    assert_eq!((s.preset, s.profile), ("medium", "mainstillpicture"));
    assert_eq!(value_of(&s.after_profile, "colormatrix"), Some("bt709"));
    assert_eq!(s.after_profile.last(), Some(&("pools", "1")));
}

#[test]
fn gray_pictures_have_neutral_chroma() {
    let pixels = [1u8, 2, 3, 4, 5, 6, 7, 8, 9, 10, 11, 12, 13, 14, 15];
    let p = gray_planes(&pixels, 5, 3, true);
    assert_eq!(p.y, pixels);
    assert_eq!(p.u, vec![128u8; 6]);
    assert_eq!(p.v, vec![128u8; 6]);
    assert_eq!(p.chroma_stride, 3);
    let p = gray_planes(&pixels, 5, 3, false);
    assert_eq!(p.u.len(), 15);
    assert_eq!(p.chroma_stride, 5);
    assert_eq!(chroma_stride(u32::MAX, true), 1 << 31);
}

#[test]
fn tiles_of_the_wrong_size_are_refused() {
    let tiles = vec![vec![0u8; 12], vec![0u8; 11]];
    assert_eq!(check_tile_sizes(&tiles[..1], 2, 2, 3), Ok(()));
    assert_eq!(
        check_tile_sizes(&tiles, 2, 2, 3),
        Err("tile size mismatch in batch encode".to_string())
    );
    assert_eq!(check_tile_sizes(&[], 2, 2, 3), Ok(()));
}

#[test]
fn only_the_first_stream_keeps_parameter_sets() {
    let whole = stream(&[VPS, SPS, PPS, IDR]);
    let streams = batch_streams(&[Ok(whole.clone()), Ok(whole.clone()), Ok(whole.clone())])
        .unwrap()
        .unwrap();
    assert_eq!(streams[0], whole);
    assert_eq!(streams[1], stream(&[IDR]));
    assert_eq!(streams[2], stream(&[IDR]));
    let packed = package_tiles(&streams, 1).unwrap();
    let packed_whole = package_tiles(&[whole.clone(), whole.clone(), whole], 1).unwrap();
    assert_eq!(packed.payloads, packed_whole.payloads);
    assert_eq!(packed.hvcc, packed_whole.hvcc);
}

#[test]
fn the_first_error_fails_a_batch() {
    let ok = stream(&[IDR]);
    let outcome = batch_streams(&[Ok(ok), Err("second".into()), Err("third".into())]);
    assert_eq!(outcome, Some(Err("second".to_string())));
    assert_eq!(batch_streams(&[]), Some(Ok(Vec::new())));
    assert_eq!(batch_streams(&[Err("x".into()), Ok(vec![0, 0, 0, 1])]), None);
}

#[test]
fn dropping_parameters_keeps_slices() {
    let whole = stream(&[VPS, SPS, PPS, IDR, IDR]);
    assert_eq!(drop_parameter_nals(&whole), stream(&[IDR, IDR]));
    assert_eq!(drop_parameter_nals(&stream(&[IDR])), stream(&[IDR]));
    assert_eq!(try_drop_parameter_nals(&[0, 0, 0, 1]), None);
}

#[test]
fn lengths_stand_where_start_codes_stood() {
    let mut expected = Vec::new();
    for nal in [SPS, IDR] {
        expected.extend_from_slice(&(nal.len() as u32).to_be_bytes());
        expected.extend_from_slice(nal);
    }
    assert_eq!(hevc_byte_stream_to_length_prefixed(&stream(&[SPS, IDR])), expected);
    let short: Vec<u8> = [&[0u8, 0, 1][..], SPS, &[0, 0, 1], IDR].concat();
    assert_eq!(hevc_byte_stream_to_length_prefixed(&short), expected);
}

#[test]
fn decoder_configurations_hold_the_parameter_sets() {
    let whole = stream(&[VPS, SPS, PPS, IDR]);
    let hvcc = extract_hvcc_config_with_chroma(&whole, 1).unwrap();
    assert_eq!(
        &hvcc[..23],
        &[
            1, 3, 0x70, 0x11, 0x22, 0x33, 0, 0, 0, 0, 0, 0, 0x5d, 0xf0, 0, 0xfc, 0xfd, 0xf8, 0xf8, 0,
            0, 0x0f, 3,
        ]
    );
    assert!(hvcc.windows(VPS.len()).any(|w| w == VPS));
    assert!(hvcc.windows(SPS.len()).any(|w| w == SPS));
    assert!(hvcc.windows(PPS.len()).any(|w| w == PPS));
    assert_eq!(extract_hvcc_config_with_chroma(&stream(&[IDR]), 1), None);
}

#[test]
fn chroma_is_the_mean_of_four_samples() {
    let y = vec![9u8; 9];
    let u = vec![0, 4, 8, 8, 12, 16, 100, 101, 50];
    let (y2, u2, v2) = yuv444_to_420(y.clone(), u, vec![7u8; 9], 3, 3);
    assert_eq!(y2, y);
    assert_eq!(u2, vec![6, 12, 100, 50]);
    assert_eq!(v2, vec![7u8; 4]);
}
