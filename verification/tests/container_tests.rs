use xdremux::container::{
    apply_oppo_tail_policy, disable_apple_filter_recipe, extract_tail_entry, find_extension_start,
    find_jpeg_in_data, neutralize_named_tail_entries, parse_manifest, OppoCameraTail,
};

#[test]
fn find_jpeg_soi_eoi() {
    let mut data = vec![0u8; 100];
    data[10..13].copy_from_slice(b"\xff\xd8\xff");
    data[50..52].copy_from_slice(b"\xff\xd9");
    let result = find_jpeg_in_data(&data, None);
    assert!(result.is_some());
    let blob = result.unwrap();
    assert!(blob.starts_with(b"\xff\xd8\xff"));
    assert!(blob.ends_with(b"\xff\xd9"));
}

#[test]
fn find_qti_debug_marker() {
    // Real ProXDR files have: [extension_size:4]["QTI Debug":9][content...]
    // The 4 bytes before the marker are the raw extension size (big-endian u32),
    // not an ISOBMFF box header. So pos - 4 = size field, pos = marker.
    let ext_size: u32 = 154;
    let mut data = Vec::new();
    data.extend_from_slice(&ext_size.to_be_bytes()); // offset 0-4: size
    data.extend_from_slice(b"QTI Debug"); // offset 4-13: marker
    data.extend_from_slice(&[0xAAu8; 200]); // extension content (≥ size)

    // find_extension_start finds "QTI Debug" at pos=4, reads size from pos-4=0,
    // returns pos-4 + size = 0 + 154
    let ext_start = find_extension_start(&data).unwrap();
    assert_eq!(ext_start, ext_size as usize);
}

#[test]
fn find_qti_rejects_bogus_size_header() {
    // A `QTI ` sequence inside compressed/embedded data whose preceding
    // 4 bytes are not a plausible box size must be ignored, not treated
    // as an extension header (previously caused out-of-range slicing on
    // camera JPEGs that embed an Ultra HDR container).
    let mut data = Vec::new();
    data.extend_from_slice(&0xFFFF_FFFFu32.to_be_bytes());
    data.extend_from_slice(b"QTI Debug");
    data.extend_from_slice(&[0xAAu8; 32]);
    assert!(find_extension_start(&data).is_err());

    // Sanity: the valid form still resolves.
    let mut valid = Vec::new();
    valid.extend_from_slice(&60u32.to_be_bytes());
    valid.extend_from_slice(b"QTI Debug");
    valid.extend_from_slice(&[0xAAu8; 100]);
    assert_eq!(find_extension_start(&valid).unwrap(), 60);
}

#[test]
fn find_extension_region_recognizes_jxrs_and_jxrsq() {
    let tail_jxrs = make_manifest_tail(&[("test.entry", b"hello")]);
    let mut file_jxrs = Vec::new();
    file_jxrs.extend_from_slice(&[0u8; 32]);
    file_jxrs.extend_from_slice(&tail_jxrs);
    assert!(extract_tail_entry(&file_jxrs, "test.entry").is_some());

    // Also verify jxrsq footer variant
    let mut tail_jxrsq = tail_jxrs.clone();
    // Replace "jxrs" with "jxrsq"
    let pos = tail_jxrsq.windows(5).rposition(|w| w == b"\x00jxrs").unwrap();
    tail_jxrsq.insert(pos + 5, b'q');
    let mut file_jxrsq = Vec::new();
    file_jxrsq.extend_from_slice(&[0u8; 32]);
    file_jxrsq.extend_from_slice(&tail_jxrsq);
    assert!(extract_tail_entry(&file_jxrsq, "test.entry").is_some());
}

fn make_manifest_tail(entries: &[(&str, &[u8])]) -> Vec<u8> {
    let mut payload = Vec::new();
    let mut positions = Vec::new();
    for (_, bytes) in entries {
        positions.push(payload.len());
        payload.extend_from_slice(bytes);
    }
    let payload_len = payload.len();
    let mut manifest = String::from("[");
    for (index, ((name, bytes), start)) in entries.iter().zip(&positions).enumerate() {
        if index > 0 {
            manifest.push(',');
        }
        manifest.push_str(&format!(
            r#"{{"length":{},"name":"{}","offset":{},"version":1}}"#,
            bytes.len(),
            name,
            payload_len - start,
        ));
    }
    manifest.push(']');
    payload.extend_from_slice(manifest.as_bytes());
    payload.push(0);
    payload.extend_from_slice(b"jxrs");
    payload.extend_from_slice(&((manifest.len() + 9) as u32).to_le_bytes());
    payload
}

fn manifest_names(tail: &[u8]) -> Vec<String> {
    parse_manifest(tail)
        .unwrap()
        .0
        .into_iter()
        .map(|entry| entry.name)
        .collect()
}

#[test]
fn camera_tail_policies_select_watermark_compact_and_non_portrait_entries() {
    let tail = make_manifest_tail(&[
        ("watermark.text", b"w"),
        ("color.space", b"c"),
        ("front.depth", b"d"),
        ("hdr.transform.data", b"t"),
        ("local.uhdr.gainmap.data", b"u"),
        ("camera.params", b"p"),
    ]);

    assert_eq!(
        manifest_names(
            &apply_oppo_tail_policy(&tail, OppoCameraTail::Watermark).expect("watermark tail"),
        ),
        vec!["watermark.text", "color.space"],
    );
    assert_eq!(
        manifest_names(
            &apply_oppo_tail_policy(&tail, OppoCameraTail::Compact).expect("compact tail"),
        ),
        vec![
            "watermark.text",
            "color.space",
            "front.depth",
            "hdr.transform.data"
        ],
    );
    let without_portrait = manifest_names(
        &apply_oppo_tail_policy(&tail, OppoCameraTail::PreserveWithoutPortrait)
            .expect("non-portrait tail"),
    );
    assert!(!without_portrait.contains(&"front.depth".to_string()));
    assert!(without_portrait.contains(&"local.uhdr.gainmap.data".to_string()));
    assert!(without_portrait.contains(&"camera.params".to_string()));
}

#[test]
fn filtered_tail_manifest_offsets_remain_readable() {
    let tail = make_manifest_tail(&[
        ("camera.params", b"first"),
        ("local.hdr.meta.data", b"discard"),
        ("watermark.text", b"last"),
    ]);
    let filtered = apply_oppo_tail_policy(&tail, OppoCameraTail::PreserveWithoutPrivateHdr)
        .expect("filtered tail");
    let (entries, json_start, _) = parse_manifest(&filtered).expect("rebuilt manifest");
    assert_eq!(entries.len(), 2);
    for entry in entries {
        let start = json_start - entry.offset as usize;
        let end = start + entry.length as usize;
        assert!(
            end <= filtered.len(),
            "{} must point inside the tail",
            entry.name
        );
    }
}

#[test]
fn no_hdr_policy_neutralizes_manifest_names_in_place() {
    let tail = make_manifest_tail(&[
        ("local.uhdr.gainmap.data", b"u"),
        ("hdr.transform.data", b"h"),
        ("camera.params", b"p"),
    ]);
    let neutralized =
        apply_oppo_tail_policy(&tail, OppoCameraTail::PreserveNoHdr).expect("neutralized tail");
    let names = manifest_names(&neutralized);
    assert!(!names.iter().any(|name| name == "local.uhdr.gainmap.data"));
    assert!(!names.iter().any(|name| name == "hdr.transform.data"));
    assert!(names.iter().any(|name| name == "camera.params"));
}

#[test]
fn apple_filter_recipe_key_is_disabled_without_changing_payload_length() {
    let mut payload =
        br#"{"filter":"gourmet.cube.rgb.bin:-1","note":"filter","name":"filter.info"}"#
            .to_vec();
    let length = payload.len();
    assert_eq!(disable_apple_filter_recipe(&mut payload), 2);
    assert_eq!(payload.len(), length);
    assert!(payload
        .windows(b"\"filtEr\"".len())
        .any(|window| window == b"\"filtEr\""));
    assert!(payload
        .windows(b"\"name\":\"filtEr.info\"".len())
        .any(|window| window == b"\"name\":\"filtEr.info\""));
    assert!(payload
        .windows(b"\"filter\"".len())
        .any(|window| window == b"\"filter\""));
}

#[test]
fn display_adjustment_tail_names_are_neutralized_in_place() {
    let mut tail = make_manifest_tail(&[
        ("filter.info", b"filter"),
        ("basictone.info", b"tone"),
        ("watermark.params", b"watermark"),
    ]);
    neutralize_named_tail_entries(
        &mut tail,
        &["filter.info", "basictone.info", "master.mode.preset.info"],
    )
    .expect("manifest should be readable");
    let names = manifest_names(&tail);
    assert!(names.iter().any(|name| name == "xilter.info"));
    assert!(names.iter().any(|name| name == "xasictone.info"));
    assert!(names.iter().any(|name| name == "watermark.params"));
}
