use xdremux::container::{
    apply_oppo_tail_policy, disable_apple_filter_recipe, extract_tail_entry, get_oppo_tail,
    get_oppo_tail_without_display_adjustments, get_oppo_tail_without_display_filter,
    has_watermark_entries, parse_manifest, strip_oppo_tail,
    tail_entry_names, watermark_canvas_rect, watermark_overlay_rect, OppoCameraTail,
};

fn make_manifest_tail(entries: &[(&str, &[u8])]) -> Vec<u8> {
    let mut payload = Vec::new();
    let mut positions = Vec::new();
    for (_, bytes) in entries {
        positions.push(payload.len());
        payload.extend_from_slice(bytes);
    }
    let payload_len = payload.len();
    let mut manifest = String::from("[");
    for (index, ((name, bytes), start)) in entries.iter().zip(&positions).enumerate() {
        if index > 0 {
            manifest.push(',');
        }
        manifest.push_str(&format!(
            r#"{{"length":{},"name":"{}","offset":{},"version":1}}"#,
            bytes.len(),
            name,
            payload_len - start,
        ));
    }
    manifest.push(']');
    payload.extend_from_slice(manifest.as_bytes());
    payload.push(0);
    payload.extend_from_slice(b"jxrs");
    payload.extend_from_slice(&((manifest.len() + 9) as u32).to_le_bytes());
    payload
}

fn file_with(tail: &[u8]) -> Vec<u8> {
    let mut file = b"\x00\x00\x00\x10ftypheic\x00\x00\x00\x00".to_vec();
    file.extend_from_slice(&[0, 0, 0, 13]);
    file.extend_from_slice(b"QTI Debug");
    file.extend_from_slice(tail);
    file
}

#[test]
fn entries_are_read_back_by_name() {
    let tail = make_manifest_tail(&[("first", b"one"), ("second", b"twotwo")]);
    let file = file_with(&tail);
    assert_eq!(extract_tail_entry(&file, "first").as_deref(), Some(&b"one"[..]));
    assert_eq!(extract_tail_entry(&file, "second").as_deref(), Some(&b"twotwo"[..]));
    assert_eq!(extract_tail_entry(&file, "third"), None);
    assert_eq!(tail_entry_names(&file), vec!["first".to_string(), "second".to_string()]);
}

#[test]
fn filtered_tails_hold_what_they_list() {
    let tail = make_manifest_tail(&[
        ("local.uhdr.gainmap.data", b"GGGG"),
        ("watermark.device", b"mark"),
        ("portrait.depth", b"depth"),
    ]);
    let kept = apply_oppo_tail_policy(&tail, OppoCameraTail::Watermark).unwrap();
    let (entries, start, _) = parse_manifest(&kept).unwrap();
    for e in &entries {
        let at = start - e.offset as usize;
        let bytes = &kept[at..at + e.length as usize];
        assert_eq!(Some(bytes.to_vec()), extract_tail_entry(&file_with(&tail), &e.name));
    }
    assert!(entries.iter().any(|e| e.name == "watermark.device"));
    assert!(entries.iter().all(|e| e.name != "portrait.depth"));
}

#[test]
fn stripped_files_and_tails_make_up_the_file() {
    let tail = make_manifest_tail(&[("watermark.device", b"mark")]);
    let file = file_with(&tail);
    let stripped = strip_oppo_tail(&file);
    let rest = get_oppo_tail(&file, OppoCameraTail::Preserve).unwrap();
    assert_eq!([stripped.as_slice(), rest.as_slice()].concat(), file);
    assert!(!stripped.windows(9).any(|w| w == b"QTI Debug"));
    assert_eq!(strip_oppo_tail(&stripped), stripped);
    assert!(has_watermark_entries(&file));
    assert!(!has_watermark_entries(&stripped));
    assert_eq!(get_oppo_tail(&stripped, OppoCameraTail::Preserve), None);
}

#[test]
fn neutral_names_keep_the_layout() {
    let tail = make_manifest_tail(&[("local.hdr.meta.data", b"hdr"), ("display.filter", b"f")]);
    let neutral = apply_oppo_tail_policy(&tail, OppoCameraTail::PreserveNoHdr).unwrap();
    assert_eq!(neutral.len(), tail.len());
    assert!(parse_manifest(&neutral)
        .unwrap()
        .0
        .iter()
        .all(|e| e.name != "local.hdr.meta.data"));
    let file = file_with(&tail);
    let plain = get_oppo_tail_without_display_filter(&file).unwrap();
    assert_eq!(plain.len(), get_oppo_tail(&file, OppoCameraTail::Preserve).unwrap().len());
}

#[test]
fn names_are_neutralized_entry_by_entry() {
    let tail = make_manifest_tail(&[
        ("src.hdr.transform.data", b"a"),
        ("hdr.transform.data", b"bb"),
        ("my.filter.info", b"c"),
        ("filter.info", b"d"),
        ("filter.info", b"ee"),
    ]);
    let file = file_with(&tail);
    let raw = get_oppo_tail(&file, OppoCameraTail::Preserve).unwrap();
    let adjusted = get_oppo_tail_without_display_adjustments(&file).unwrap();
    let names = |t: &[u8]| -> Vec<String> {
        parse_manifest(t).unwrap().0.iter().map(|e| e.name.clone()).collect()
    };
    assert_eq!(
        names(&adjusted),
        vec![
            "src.hdr.transform.data",
            "xdr.transform.data",
            "my.filter.info",
            "xilter.info",
            "xilter.info",
        ]
    );
    let (before, start, end) = parse_manifest(&raw).unwrap();
    let (after, _, _) = parse_manifest(&adjusted).unwrap();
    assert!(before
        .iter()
        .zip(&after)
        .all(|(b, a)| (b.offset, b.length) == (a.offset, a.length)));
    assert_eq!(raw.len(), adjusted.len());
    assert_eq!(raw[..start], adjusted[..start]);
    assert_eq!(raw[end..], adjusted[end..]);
    let hdr = apply_oppo_tail_policy(&tail, OppoCameraTail::PreserveNoHdr).unwrap();
    assert_eq!(
        names(&hdr),
        vec![
            "src.hdr.transform.data",
            "xdr.transform.data",
            "my.filter.info",
            "filter.info",
            "filter.info",
        ]
    );
}

#[test]
fn display_tails_differ_in_one_letter() {
    let tail = make_manifest_tail(&[
        ("hdr.transform.data", b"h"),
        ("local.uhdr.gainmap.data", b"g"),
        ("basictone.info", b"b"),
    ]);
    let file = file_with(&tail);
    let f = get_oppo_tail_without_display_filter(&file).unwrap();
    let a = get_oppo_tail_without_display_adjustments(&file).unwrap();
    assert_eq!(f.len(), a.len());
    let differ: Vec<usize> = (0..f.len()).filter(|i| f[*i] != a[*i]).collect();
    assert_eq!(differ.len(), 1);
    assert_eq!((f[differ[0]], a[differ[0]]), (b'h', b'x'));
}

#[test]
fn disabling_recipes_keeps_the_length() {
    let mut data = b"nothing to disable here".to_vec();
    let before = data.clone();
    assert_eq!(disable_apple_filter_recipe(&mut data), 0);
    assert_eq!(data, before);
}

#[test]
fn files_without_watermarks_have_no_rectangles() {
    assert!(watermark_canvas_rect(b"plain", 100, 100).is_err());
    assert!(watermark_overlay_rect(b"plain", 100, 100).is_err());
}
