use xdremux::live_photo::{build_apple_makernote, inject_makernote, read_tiff};

fn minimal_tiff() -> Vec<u8> {
    // II, magic 42, IFD0 at 8 with two entries: Make (ASCII, inline) and
    // ExifIFD pointer (0x8769 → offset 34), then ExifIFD with one entry.
    let mut t = Vec::new();
    t.extend_from_slice(b"II*\x00");
    t.extend_from_slice(&8u32.to_le_bytes());
    // IFD0: 2 entries
    t.extend_from_slice(&2u16.to_le_bytes());
    // tag 0x010F Make ASCII count 4 inline "OPPO\0"->4 bytes
    t.extend_from_slice(&0x010Fu16.to_le_bytes());
    t.extend_from_slice(&2u16.to_le_bytes());
    t.extend_from_slice(&5u32.to_le_bytes());
    t.extend_from_slice(&34u32.to_le_bytes()); // value offset → 34
    // tag 0x8769 ExifIFD pointer LONG count 1
    t.extend_from_slice(&0x8769u16.to_le_bytes());
    t.extend_from_slice(&4u16.to_le_bytes());
    t.extend_from_slice(&1u32.to_le_bytes());
    // IFD0 table: 8 + 2 + 24 + 4 = 38; data area holds "OPPO\0" at 38..43,
    // ExifIFD after that: 43
    t.extend_from_slice(&43u32.to_le_bytes());
    t.extend_from_slice(&0u32.to_le_bytes()); // next IFD
    // data area at 38
    t.extend_from_slice(b"OPPO\0");
    // ExifIFD at 43: 1 entry (tag 0x9000 ExifVersion UNDEFINED count 4)
    t.extend_from_slice(&1u16.to_le_bytes());
    t.extend_from_slice(&0x9000u16.to_le_bytes());
    t.extend_from_slice(&7u16.to_le_bytes());
    t.extend_from_slice(&4u32.to_le_bytes());
    t.extend_from_slice(b"0232");
    t.extend_from_slice(&0u32.to_le_bytes());
    t
}

#[test]
fn makernote_injection_roundtrip() {
    let tiff = minimal_tiff();
    let out = inject_makernote(&tiff, "ABCD-1234").expect("inject ok");
    let model = read_tiff(&out).expect("read back");
    // IFD0 entries preserved
    assert!(model.ifd0.iter().any(|e| e.tag == 0x010F));
    assert!(model.ifd0.iter().any(|e| e.tag == 0x8769));
    // Exif version entry preserved and MakerNote added
    assert!(model.exif_ifd.iter().any(|e| e.tag == 0x9000));
    let note = model
        .exif_ifd
        .iter()
        .find(|e| e.tag == 0x927C)
        .expect("makernote present");
    assert!(note.data.starts_with(b"Apple iOS\0\0\x01MM"));
    assert!(note.data.windows(9).any(|w| w == b"ABCD-1234"));
}

#[test]
fn subifd_pointer_rewritten_when_layout_shifts() {
    // The source ExifIFD lives at a large offset; after the rewrite the
    // layout differs, so a stale inline pointer would be wrong. This is
    // what makes a reader miss the MakerNote.
    let mut t = Vec::new();
    t.extend_from_slice(b"II*\x00");
    t.extend_from_slice(&8u32.to_le_bytes());
    // IFD0: one entry (ExifIFD pointer) — original target far away at 512.
    t.extend_from_slice(&1u16.to_le_bytes());
    t.extend_from_slice(&0x8769u16.to_le_bytes());
    t.extend_from_slice(&4u16.to_le_bytes());
    t.extend_from_slice(&1u32.to_le_bytes());
    t.extend_from_slice(&512u32.to_le_bytes());
    t.extend_from_slice(&0u32.to_le_bytes());
    // pad to 512
    t.extend(std::iter::repeat(0u8).take(512 - t.len()));
    // ExifIFD at 512: one entry
    t.extend_from_slice(&1u16.to_le_bytes());
    t.extend_from_slice(&0x9000u16.to_le_bytes());
    t.extend_from_slice(&7u16.to_le_bytes());
    t.extend_from_slice(&4u32.to_le_bytes());
    t.extend_from_slice(b"0232");
    t.extend_from_slice(&0u32.to_le_bytes());

    let out = inject_makernote(&t, "DEAD-BEEF").expect("inject ok");
    let model = read_tiff(&out).expect("read back");
    assert!(model.exif_ifd.iter().any(|e| e.tag == 0x9000));
    assert!(model.exif_ifd.iter().any(|e| e.tag == 0x927C));
}

#[test]
fn makernote_structure_matches_apple_layout() {
    let note = build_apple_makernote("01234567-89ab-4def-8def-0123456789ab").unwrap();
    assert!(note.starts_with(b"Apple iOS\0\0\x01MM"));
    // header "Apple iOS\0\0\x01MM" is 14 bytes; entry count follows
    let count = u16::from_be_bytes([note[14], note[15]]);
    assert_eq!(count, 1);
    let tag = u16::from_be_bytes([note[16], note[17]]);
    assert_eq!(tag, 0x0011);
    // value contains the upper-cased identifier + NUL
    assert!(note.ends_with(b"01234567-89AB-4DEF-8DEF-0123456789AB\0"));
}
