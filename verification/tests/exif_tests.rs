use xdremux::exif::{
    adjust_oppo_usercomment, adjusted_extent_for_patch, apply_oppo_usercomment_patch,
    find_oppo_tagflags,
    parse_exif_orientation, read_heif_exif_orientation, target_oppo_tag_flags, ExifOrientation,
    OppoCompat, ISO_ULTRA_HDR_FLAG, LOCAL_HDR_FLAG, OPPO_ULTRA_HDR_FLAG,
};
use xdremux::isobmff::{IlocEntry, ItemInfo};

/// Build a test buffer containing an OPPO tag-flag.
///
/// Real OPPO flags are always 8 decimal digits (zero-padded).
fn make_test_data(prefix: &str, flags: u32) -> Vec<u8> {
    let s = format!("before{}{:08}after", prefix, flags);
    s.into_bytes()
}

fn tiff_with_orientation(orientation: Option<u16>) -> Vec<u8> {
    let entry_count = usize::from(orientation.is_some());
    let mut tiff = Vec::new();
    tiff.extend_from_slice(b"II");
    tiff.extend_from_slice(&42u16.to_le_bytes());
    tiff.extend_from_slice(&8u32.to_le_bytes());
    tiff.extend_from_slice(&(entry_count as u16).to_le_bytes());
    if let Some(value) = orientation {
        tiff.extend_from_slice(&0x0112u16.to_le_bytes());
        tiff.extend_from_slice(&3u16.to_le_bytes());
        tiff.extend_from_slice(&1u32.to_le_bytes());
        tiff.extend_from_slice(&value.to_le_bytes());
        tiff.extend_from_slice(&[0, 0]);
    }
    tiff.extend_from_slice(&0u32.to_le_bytes());
    tiff
}

fn heif_exif_blob(orientation: Option<u16>) -> Vec<u8> {
    let mut blob = 6u32.to_be_bytes().to_vec();
    blob.extend_from_slice(b"Exif\0\0");
    blob.extend_from_slice(&tiff_with_orientation(orientation));
    blob
}

#[test]
fn exif_orientation_maps_to_expected_irot_and_geometry() {
    let cases = [
        (1, 0, false),
        (2, 0, false),
        (3, 2, false),
        (4, 0, false),
        (5, 0, true),
        (6, 3, true),
        (7, 0, true),
        (8, 1, true),
    ];
    for (value, irot, swaps_axes) in cases {
        let orientation = ExifOrientation::from_u16(value).unwrap();
        assert_eq!(orientation.irot_quarter_turns_ccw(), irot, "EXIF {value}");
        assert_eq!(orientation.swaps_axes(), swaps_axes, "EXIF {value}");
        assert_eq!(
            orientation.output_dimensions(640, 480),
            if swaps_axes { (480, 640) } else { (640, 480) },
            "EXIF {value}"
        );
    }
}

#[test]
fn heif_exif_orientation_reads_ifd0_tag() {
    let blob = heif_exif_blob(Some(6));
    assert_eq!(
        parse_exif_orientation(&blob).unwrap(),
        ExifOrientation::Rotate90Clockwise
    );
}

#[test]
fn heif_exif_orientation_defaults_when_tag_is_absent() {
    assert_eq!(
        parse_exif_orientation(&heif_exif_blob(None)).unwrap(),
        ExifOrientation::Normal
    );
}

/// Some exports write Orientation=0 with no irot: any out-of-range value counts
/// as 1 instead of failing.
#[test]
fn heif_exif_orientation_clamps_out_of_range_values_to_normal() {
    for value in [0u16, 9, 255, u16::MAX] {
        assert_eq!(
            parse_exif_orientation(&heif_exif_blob(Some(value))).unwrap(),
            ExifOrientation::Normal,
            "EXIF orientation {value} must clamp to Normal"
        );
    }
}

#[test]
fn heif_exif_orientation_resolves_mdat_item_extent() {
    let blob = heif_exif_blob(Some(8));
    let mut data = vec![0u8; 11];
    data.extend_from_slice(&blob);
    let items = vec![ItemInfo {
        item_id: 7,
        itype: "Exif".into(),
        flags: 0,
        raw_infe: Vec::new(),
    }];
    let entries = vec![IlocEntry {
        item_id: 7,
        construction_method: 0,
        data_reference_index: 0,
        extents: vec![(11, blob.len() as u64)],
    }];
    assert_eq!(
        read_heif_exif_orientation(&data, &items, &entries, None).unwrap(),
        ExifOrientation::Rotate90CounterClockwise
    );
}

// ---------- find_oppo_tagflags ----------

#[test]
fn find_ascii_oplus_flag() {
    let data = make_test_data("ASCIIOplus_", 0x00000100);
    let tags = find_oppo_tagflags(&data);
    assert_eq!(tags.len(), 1);
    assert_eq!(tags[0].prefix, "ASCIIOplus_");
    assert_eq!(tags[0].value, 0x00000100);
}

#[test]
fn find_oppo_lowercase_flag() {
    let data = make_test_data("oppo_", 42);
    let tags = find_oppo_tagflags(&data);
    assert_eq!(tags.len(), 1);
    assert_eq!(tags[0].prefix, "oppo_");
    assert_eq!(tags[0].value, 42);
}

#[test]
fn find_oplus_flag() {
    let data = make_test_data("Oplus_", 0x0000DEAD);
    let tags = find_oppo_tagflags(&data);
    assert_eq!(tags.len(), 1);
    assert_eq!(tags[0].value, 0x0000DEAD);
}

#[test]
fn no_tagflag_returns_empty() {
    let data = b"No OPPO tags here, just some random text 12345".to_vec();
    let tags = find_oppo_tagflags(&data);
    assert!(tags.is_empty());
}

#[test]
fn prefix_without_digits_not_matched() {
    // "ASCIIOplus_" followed by non-digits should not produce a tag
    let data = b"before ASCIIOplus_ABC after".to_vec();
    let tags = find_oppo_tagflags(&data);
    assert!(tags.is_empty(), "prefix without digits should not match");
}

#[test]
fn multiple_prefixes_finds_all() {
    let data = b"oppo_123 middle Oplus_456 end".to_vec();
    let tags = find_oppo_tagflags(&data);
    assert_eq!(tags.len(), 2);
}

// ---------- adjust_oppo_usercomment ----------

#[test]
fn adjust_on_sets_flag() {
    let data = make_test_data("ASCIIOplus_", 0x00000100);
    let tags = find_oppo_tagflags(&data);
    let (start, end, replacement) = adjust_oppo_usercomment(&tags[0], OppoCompat::On).unwrap();
    // "before" + prefix, no space in test data
    assert!(&data[..start].starts_with(b"beforeASCIIOplus_"));
    let new_str = std::str::from_utf8(&replacement).unwrap();
    let new_val: u32 = new_str.parse().unwrap();
    assert_eq!(new_val, 0x00000100 | 0x20000000);
    // Replacement is zero-padded, may be wider than original if needed
    assert!(replacement.len() >= end - start);
}

#[test]
fn routing_modes_adjust_only_their_documented_bits() {
    // 0x20240100 has OPPO, ISO and local HDR bits set + user bit 0x100.
    let data = make_test_data("ASCIIoppo_", 0x20240100);
    let tags = find_oppo_tagflags(&data);
    let adjusted = |mode| {
        let (_, _, replacement) = adjust_oppo_usercomment(&tags[0], mode).unwrap();
        std::str::from_utf8(&replacement)
            .unwrap()
            .parse::<u32>()
            .unwrap()
    };
    assert_eq!(adjusted(OppoCompat::Iso), 0x0024_0100);
    assert_eq!(adjusted(OppoCompat::IsoNoLocal), 0x0020_0100);
    assert_eq!(adjusted(OppoCompat::IsoGraph), 0x0004_0100);
}

#[test]
fn adjust_off_returns_none() {
    let data = make_test_data("ASCIIOplus_", 0x00000100);
    let tags = find_oppo_tagflags(&data);
    assert!(adjust_oppo_usercomment(&tags[0], OppoCompat::Off).is_none());
}

#[test]
fn adjust_on_already_set_returns_none() {
    // If the flag is already set, no change needed
    let data = make_test_data("ASCIIOplus_", 0x20000100);
    let tags = find_oppo_tagflags(&data);
    assert!(adjust_oppo_usercomment(&tags[0], OppoCompat::On).is_none());
}

#[test]
fn auto_preserves_user_comment() {
    let data = make_test_data("oppo_", 0x00000100);
    let tags = find_oppo_tagflags(&data);
    assert!(adjust_oppo_usercomment(&tags[0], OppoCompat::Auto).is_none());
}

// ---------- apply_oppo_usercomment_patch ----------

#[test]
fn apply_patch_modifies_bytes() {
    // Build a minimal Exif payload: "Exif\0\0" + TIFF with IFD0 → ExifIFD →
    // UserComment. Confine it to an iloc extent; the patch must append the
    // new value to the extent and never touch the trailing marker.
    let mut payload = Vec::new();
    payload.extend_from_slice(&6u32.to_be_bytes()); // Exif→TIFF offset
    payload.extend_from_slice(b"Exif\0\0");
    let tiff_origin = payload.len(); // == 10
    payload.extend_from_slice(b"II");
    payload.extend_from_slice(&42u16.to_le_bytes());
    payload.extend_from_slice(&8u32.to_le_bytes()); // IFD0 at +8

    // IFD0 (1 entry): ExifIFD sub-IFD pointer. The pointer value must be
    // recorded after the whole IFD0 (entries + next-IFD) is laid out.
    let ifd0_entry = payload.len();
    payload.extend_from_slice(&1u16.to_le_bytes()); // entry count
    payload.extend_from_slice(&0x8769u16.to_le_bytes()); // ExifIFD tag
    payload.extend_from_slice(&4u16.to_le_bytes()); // type LONG
    payload.extend_from_slice(&1u32.to_le_bytes());
    payload.extend_from_slice(&0u32.to_le_bytes()); // placeholder offset
    payload.extend_from_slice(&0u32.to_le_bytes()); // next IFD = 0
    let exif_ifd_rel = (payload.len() - tiff_origin) as u32;
    payload[ifd0_entry + 10..ifd0_entry + 14].copy_from_slice(&exif_ifd_rel.to_le_bytes());

    // ExifIFD (1 entry): UserComment type=7, value out-of-line.
    payload.extend_from_slice(&1u16.to_le_bytes());
    payload.extend_from_slice(&0x9286u16.to_le_bytes());
    payload.extend_from_slice(&7u16.to_le_bytes());
    payload.extend_from_slice(&21u32.to_le_bytes()); // count of value bytes
    let uc_entry_slot = payload.len();
    payload.extend_from_slice(&0u32.to_le_bytes()); // placeholder offset
    let uc_offset_rel = (payload.len() - tiff_origin) as u32;
    let slot = &mut payload[uc_entry_slot..uc_entry_slot + 4];
    slot.copy_from_slice(&uc_offset_rel.to_le_bytes());
    payload.extend_from_slice(b"ASCII\0\0\0oplus_1441792");
    // trailing bytes that must survive untouched at their original offset
    let trailing = b"TAIL-DATA";
    let trailing_start = payload.len();
    payload.extend_from_slice(trailing);
    assert_eq!(uc_entry_slot + 4 + 21, trailing_start, "value is 21 bytes after the offset field");

    let extent_off = 100u64;
    let mut mdat = vec![0u8; extent_off as usize];
    mdat.extend_from_slice(&payload);
    let entry = IlocEntry {
        item_id: 7,
        construction_method: 0,
        data_reference_index: 0,
        extents: vec![(extent_off, payload.len() as u64)],
    };
    let patch = apply_oppo_usercomment_patch(&mut mdat, 0, &entry, OppoCompat::On).unwrap();
    assert!(patch.delta > 0);
    assert_eq!(patch.source_range, (100, 100 + payload.len()));

    // The UserComment entry must now point at the new value appended at the
    // end of the item (the old value bytes remain as dead data), and the trailing marker stays untouched.
    let new_payload = &mdat[100..];
    let tiff = tiff_start_of(&new_payload);
    let le = new_payload[tiff] == b'I';
    let ifd0 = read_tiff_u32(new_payload, tiff + 4, le).unwrap() as usize;
    let exif_ifd_rel = read_tiff_u32(new_payload, tiff + ifd0 + 10, le).unwrap() as usize;
    let exif_ifd = tiff + exif_ifd_rel;
    let entry_off = exif_ifd + 2;
    assert_eq!(read_tiff_u16(new_payload, entry_off, le).unwrap(), 0x9286);
    assert_eq!(read_tiff_u16(new_payload, entry_off + 2, le).unwrap(), 7);
    let count = read_tiff_u32(new_payload, entry_off + 4, le).unwrap();
    let val_off = read_tiff_u32(new_payload, entry_off + 8, le).unwrap() as usize;
    let val_start = tiff + val_off;
    let value = String::from_utf8_lossy(&new_payload[val_start..val_start + count as usize]);
    assert!(value.contains("538312704"), "got: {value}");
    assert_eq!(
        &new_payload[trailing_start..trailing_start + trailing.len()],
        trailing
    );
}

fn read_tiff_u16(data: &[u8], at: usize, le: bool) -> Option<u16> {
    let b: [u8; 2] = data.get(at..at + 2)?.try_into().ok()?;
    Some(if le { u16::from_le_bytes(b) } else { u16::from_be_bytes(b) })
}

fn read_tiff_u32(data: &[u8], at: usize, le: bool) -> Option<u32> {
    let b: [u8; 4] = data.get(at..at + 4)?.try_into().ok()?;
    Some(if le { u32::from_le_bytes(b) } else { u32::from_be_bytes(b) })
}

/// Locate the TIFF byte-order marker in an Exif item payload (which may be
/// bare TIFF or "offset + Exif\0\0" prefixed), matching `parse_exif_orientation`.
fn tiff_start_of(exif_blob: &[u8]) -> usize {
    if exif_blob.starts_with(b"II") || exif_blob.starts_with(b"MM") {
        return 0;
    }
    let offset = u32::from_be_bytes(exif_blob[0..4].try_into().expect("4-byte field")) as usize;
    [offset, offset + 4]
        .into_iter()
        .find(|&start| {
            exif_blob
                .get(start..)
                .is_some_and(|c| c.starts_with(b"II") || c.starts_with(b"MM"))
        })
        .unwrap()
}

#[test]
fn extents_follow_an_adjusted_comment() {
    let mut exif = b"\0\0\0\x06Exif\0\0II*\0\x08\0\0\0".to_vec();
    exif.extend_from_slice(&[1, 0, 0x69, 0x87, 4, 0, 1, 0, 0, 0, 26, 0, 0, 0, 0, 0, 0, 0]);
    exif.extend_from_slice(&[1, 0, 0x86, 0x92, 7, 0, 14, 0, 0, 0, 40, 0, 0, 0]);
    exif.extend_from_slice(b"ASCII\0\0\0oppo_0");
    let (before, behind) = (b"BEFORE".as_slice(), b"BEHIND".as_slice());
    let media = [before, exif.as_slice(), behind].concat();
    let start = 1000usize;
    let (from, len) = ((start + before.len()) as u64, exif.len() as u64);
    let entry = IlocEntry {
        item_id: 2,
        construction_method: 0,
        data_reference_index: 0,
        extents: vec![(from, len)],
    };
    let mut new = media.clone();
    let patch = apply_oppo_usercomment_patch(&mut new, start, &entry, OppoCompat::On).unwrap();
    let bytes = |(at, len): (u64, u64)| &new[at as usize - start..(at + len) as usize - start];
    let moved = |at, len| adjusted_extent_for_patch(at, len, Some(&patch));
    assert_eq!(bytes(moved(start as u64, 6).unwrap()), before);
    assert_eq!(bytes(moved(from + len, 6).unwrap()), behind);
    let grown = moved(from, len).unwrap();
    assert_eq!(grown, (from, len + (new.len() - media.len()) as u64));
    assert_eq!(&bytes(grown)[..12], &exif[..12]);
    assert_eq!(moved(from + 1, len), None);
    assert_eq!(moved(start as u64, 7), None);
    assert_eq!(adjusted_extent_for_patch(from + 1, len, None), Some((from + 1, len)));
}

#[test]
fn apply_patch_no_tag_returns_none() {
    let mut payload = Vec::new();
    payload.extend_from_slice(&6u32.to_be_bytes());
    payload.extend_from_slice(b"Exif\0\0");
    payload.extend_from_slice(b"II");
    payload.extend_from_slice(&42u16.to_le_bytes());
    payload.extend_from_slice(&8u32.to_le_bytes());
    payload.extend_from_slice(&0u16.to_le_bytes()); // no entries
    payload.extend_from_slice(&0u32.to_le_bytes());
    let entry = IlocEntry {
        item_id: 7,
        construction_method: 0,
        data_reference_index: 0,
        extents: vec![(0, payload.len() as u64)],
    };
    let mut mdat = payload.clone();
    assert!(apply_oppo_usercomment_patch(&mut mdat, 0, &entry, OppoCompat::On).is_none());
}

#[test]
fn oppo_compat_from_u8() {
    assert_eq!(OppoCompat::from_u8(0), OppoCompat::Off);
    assert_eq!(OppoCompat::from_u8(1), OppoCompat::Auto);
    assert_eq!(OppoCompat::from_u8(2), OppoCompat::On);
    assert_eq!(OppoCompat::from_u8(3), OppoCompat::Tail);
    assert_eq!(OppoCompat::from_u8(4), OppoCompat::Iso);
    assert_eq!(OppoCompat::from_u8(5), OppoCompat::IsoNoLocal);
    assert_eq!(OppoCompat::from_u8(6), OppoCompat::IsoGraph);
    assert_eq!(OppoCompat::from_u8(99), OppoCompat::Off);
}

#[test]
fn target_routing_flags_match_mode_contract() {
    let source = OPPO_ULTRA_HDR_FLAG | ISO_ULTRA_HDR_FLAG | LOCAL_HDR_FLAG | 0x100;
    assert_eq!(target_oppo_tag_flags(source, OppoCompat::Off), source);
    assert_eq!(target_oppo_tag_flags(source, OppoCompat::Auto), source);
    assert_eq!(target_oppo_tag_flags(source, OppoCompat::On), source);
    assert_eq!(target_oppo_tag_flags(source, OppoCompat::Tail), source);
    assert_eq!(
        target_oppo_tag_flags(source, OppoCompat::Iso),
        ISO_ULTRA_HDR_FLAG | LOCAL_HDR_FLAG | 0x100
    );
    assert_eq!(
        target_oppo_tag_flags(source, OppoCompat::IsoNoLocal),
        ISO_ULTRA_HDR_FLAG | 0x100
    );
    assert_eq!(
        target_oppo_tag_flags(source, OppoCompat::IsoGraph),
        LOCAL_HDR_FLAG | 0x100
    );
}

#[test]
fn zero_padding_preserves_width() {
    // flags=0 should produce "00000000", not "0"
    let data = make_test_data("oppo_", 0);
    let tags = find_oppo_tagflags(&data);
    let (_, _, replacement) = adjust_oppo_usercomment(&tags[0], OppoCompat::On).unwrap();
    // Replacement is at least as wide as what it replaces
    assert!(replacement.len() >= tags[0].digits_end - tags[0].digits_start);
    // All chars should be digits
    assert!(replacement.iter().all(|b| b.is_ascii_digit()));
}
