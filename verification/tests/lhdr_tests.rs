use xdremux::lhdr::{
    bytes_to_f32s, extract_lhdr_from_bytes, plausible_lhdr_meta, score_lhdr_meta,
    try_extract_lhdr_from_bytes, MIN_FLOAT144_SCORE,
};

/// Layout: [meta_bytes:144]["PADDING":7][manifest_json], without a QTI marker: the whole
/// buffer is the extension region, and the block is found through the manifest offset.
fn make_synthetic_ext(meta_bytes: &[u8; 144], manifest_json: &str) -> Vec<u8> {
    let mut data = Vec::new();
    data.extend_from_slice(meta_bytes);
    data.extend_from_slice(b"PADDING");
    data.extend_from_slice(manifest_json.as_bytes());
    data
}

fn bits_of(floats: &[f32]) -> Vec<u32> {
    floats.iter().map(|f| f.to_bits()).collect()
}

fn block_of(floats: &[f32; 36]) -> [u8; 144] {
    std::array::from_fn(|i| floats[i / 4].to_le_bytes()[i % 4])
}

fn genuine() -> [f32; 36] {
    let mut floats = [0.0f32; 36];
    floats[0] = 3.5;
    floats[2] = 144.0;
    floats[5] = -1.0;
    floats[18] = 10.0;
    floats[19] = 6.0;
    floats[29] = 500.0;
    floats
}

#[test]
fn extract_lhdr_from_synthetic() {
    let mut floats = [0.0f32; 36];
    floats[0] = 3.5;
    floats[2] = 144.0;
    floats[5] = -1.0;
    floats[18] = 10.0;
    floats[19] = 6.0;
    floats[29] = 500.0;
    floats[32] = 30000.0;

    let meta_bytes: [u8; 144] = std::array::from_fn(|i| {
        let float_idx = i / 4;
        let byte_idx = i % 4;
        floats[float_idx].to_le_bytes()[byte_idx]
    });

    // manifest offset = distance from json_start backward to meta start
    // json_start = meta_bytes.len() + b"PADDING".len() = 144 + 7 = 151
    let json_start: u64 = 151;
    let manifest_json = format!(
        r#"[{{"name":"local.hdr.meta.data","offset":{},"length":144}}]"#,
        json_start
    );

    let data = make_synthetic_ext(&meta_bytes, &manifest_json);
    let result = extract_lhdr_from_bytes(&data).unwrap();

    assert_eq!(result.mode, "lhdr");
    let meta_floats: Vec<f32> = result.meta_floats.iter().map(|b| f32::from_bits(*b)).collect();
    assert_eq!(meta_floats.len(), 36);
    assert!((meta_floats[0] - 3.5).abs() < 0.001);
    assert!((meta_floats[32] - 30000.0).abs() < 0.1);
    assert_eq!(result.meta_bytes, meta_bytes);
    assert!(!result.is_uhdr());
    assert!(result.is_late());
    assert_eq!(result.manifest_entries.unwrap()[0].name, "local.hdr.meta.data");
}

#[test]
fn float144_rejects_plain_heic_false_positive() {
    // A candidate matching only the 144.0 sentinel (score 5) with a
    // nonsensical f5 must be rejected — this is what a plain HEIC's
    // compressed data produces when the whole file is scanned.
    let mut floats = [0.0f32; 36];
    floats[2] = 144.0; // sentinel hit
    // f0, f5, f18, f19, f29 all left at garbage defaults
    assert!(!plausible_lhdr_meta(&bits_of(&floats)));
    assert!(score_lhdr_meta(&bits_of(&floats)) < MIN_FLOAT144_SCORE);

    // A genuine block still passes.
    floats[0] = 3.5;
    floats[5] = -1.0;
    floats[18] = 10.0;
    floats[19] = 6.0;
    floats[29] = 500.0;
    assert!(plausible_lhdr_meta(&bits_of(&floats)));
    assert!(score_lhdr_meta(&bits_of(&floats)) >= MIN_FLOAT144_SCORE);
}

fn float_score(floats: &[f32]) -> i32 {
    let mut score = 0;
    if (floats[2] - 144.0).abs() < 0.01 {
        score += 5;
    }
    if (floats[5] + 1.0).abs() < 0.01 {
        score += 3;
    }
    if (floats[18] - 10.0).abs() < 0.01 {
        score += 2;
    }
    if (floats[19] - 6.0).abs() < 0.01 {
        score += 2;
    }
    if (2.0..=5.0).contains(&floats[0]) {
        score += 2;
    }
    if (0.0..=2000.0).contains(&floats[29]) {
        score += 1;
    }
    score
}

#[test]
fn bit_ranges_are_float_ranges() {
    let mut values: Vec<u32> = Vec::new();
    let centres = [
        144.0f32, 144.01, 143.99, -1.0, -1.01, -0.99, 10.0, 10.01, 9.99, 6.0, 6.01, 5.99, 2.0, 5.0,
        2000.0, 0.0, -0.0, 3.0, f32::INFINITY, f32::NEG_INFINITY, f32::NAN, f32::MAX, f32::MIN,
        f32::MIN_POSITIVE,
    ];
    for c in centres {
        for d in 0..40u32 {
            values.push(c.to_bits().wrapping_add(d));
            values.push(c.to_bits().wrapping_sub(d));
        }
    }
    let mut x = 12345u32;
    for _ in 0..20_000 {
        x = x.wrapping_mul(1_664_525).wrapping_add(1_013_904_223);
        values.push(x);
    }
    for bits in values {
        for at in [0usize, 2, 5, 18, 19, 29] {
            let mut floats = [0.5f32; 36];
            floats[at] = f32::from_bits(bits);
            assert_eq!(
                score_lhdr_meta(&bits_of(&floats)),
                float_score(&floats),
                "field {at} bits {bits:#x}"
            );
            let plausible = (floats[5] + 1.0).abs() < 0.01;
            assert_eq!(plausible_lhdr_meta(&bits_of(&floats)), plausible);
        }
    }
}

#[test]
fn the_best_of_several_blocks_is_taken() {
    let mut poor = genuine();
    poor[18] = 11.0;
    poor[32] = 1.0;
    let mut best = genuine();
    best[32] = 2.0;
    let mut tied = genuine();
    tied[32] = 3.0;
    let mut data = Vec::new();
    data.extend_from_slice(&block_of(&poor));
    data.extend_from_slice(&block_of(&best));
    data.extend_from_slice(&block_of(&tied));
    let found = extract_lhdr_from_bytes(&data).unwrap();
    assert_eq!(found.meta_bytes, block_of(&best));
    assert!(found.manifest_entries.is_none());
    assert!(found.mask_data.is_none());
}

#[test]
fn a_named_block_stands_in_for_a_scored_one() {
    // Without the 144.0 sentinel only the manifest leads to the block.
    let mut floats = genuine();
    floats[2] = 0.0;
    floats[0] = 2.5;
    let manifest = r#"[{"name":"local.hdr.meta.data","offset":151,"length":144}]"#;
    let data = make_synthetic_ext(&block_of(&floats), manifest);
    let found = extract_lhdr_from_bytes(&data).unwrap();
    assert_eq!(found.meta_bytes, block_of(&floats));
    assert!(!found.is_late());

    floats[0] = 1.5;
    let data = make_synthetic_ext(&block_of(&floats), manifest);
    let error = extract_lhdr_from_bytes(&data).err();
    assert_eq!(error.as_deref(), Some("Failed to locate LHDR metadata block"));
}

#[test]
fn ultra_hdr_entries_come_first() {
    let info: Vec<u8> = (0..20).flat_map(|i| (i as f32).to_le_bytes()).collect();
    let mut data = info.clone();
    data.extend_from_slice(b"GAINMAP");
    let manifest = format!(
        r#"[{{"name":"local.uhdr.gainmap.info","offset":{},"length":80}},{{"name":"local.uhdr.gainmap.data","offset":7,"length":7}}]"#,
        87
    );
    data.extend_from_slice(manifest.as_bytes());
    let found = extract_lhdr_from_bytes(&data).unwrap();
    assert!(found.is_uhdr());
    assert_eq!(found.meta_bytes, info);
    assert_eq!(f32::from_bits(found.meta_floats[18]), 18.0);
    assert_eq!(found.gainmap_data.as_deref(), Some(&b"GAINMAP"[..]));
    assert_eq!(found.manifest_entries.unwrap().len(), 2);
}

#[test]
fn a_sentinel_without_room_before_it_is_told() {
    let mut data = vec![0u8; 4];
    data.extend_from_slice(&144.0f32.to_le_bytes());
    data.extend_from_slice(&[0u8; 200]);
    assert!(try_extract_lhdr_from_bytes(&data).is_none());
}

#[test]
fn the_mask_is_the_first_jpeg_without_a_manifest() {
    let mut data = block_of(&genuine()).to_vec();
    data.extend_from_slice(b"\xff\xd8\xffmask\xff\xd9rest");
    let found = extract_lhdr_from_bytes(&data).unwrap();
    assert_eq!(found.mask_data.as_deref(), Some(&b"\xff\xd8\xffmask\xff\xd9"[..]));
}

#[test]
fn trailing_bytes_are_no_float() {
    assert_eq!(bytes_to_f32s(&[0, 0, 0x80, 0x3f, 1, 2]), vec![1.0f32.to_bits()]);
}
