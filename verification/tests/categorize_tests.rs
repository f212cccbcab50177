use xdremux::categorize::{
    classify_bytes, classify_user_comment, extract_user_comment, CaptureMode,
    ClassificationStatus,
};

fn tiff_with_user_comment(comment: &[u8]) -> Vec<u8> {
    let exif_ifd_offset = 26u32;
    let comment_offset = 44u32;
    let mut tiff = Vec::new();
    tiff.extend_from_slice(b"II");
    tiff.extend_from_slice(&42u16.to_le_bytes());
    tiff.extend_from_slice(&8u32.to_le_bytes());
    tiff.extend_from_slice(&1u16.to_le_bytes());
    tiff.extend_from_slice(&0x8769u16.to_le_bytes());
    tiff.extend_from_slice(&4u16.to_le_bytes());
    tiff.extend_from_slice(&1u32.to_le_bytes());
    tiff.extend_from_slice(&exif_ifd_offset.to_le_bytes());
    tiff.extend_from_slice(&0u32.to_le_bytes());
    tiff.extend_from_slice(&1u16.to_le_bytes());
    tiff.extend_from_slice(&0x9286u16.to_le_bytes());
    tiff.extend_from_slice(&7u16.to_le_bytes());
    tiff.extend_from_slice(&(comment.len() as u32).to_le_bytes());
    tiff.extend_from_slice(&comment_offset.to_le_bytes());
    tiff.extend_from_slice(&0u32.to_le_bytes());
    tiff.extend_from_slice(comment);
    tiff
}

#[test]
fn classifies_prefix_and_json_with_upstream_priority() {
    let both = classify_user_comment(Some("Oplus_4294967552"));
    assert_eq!(both.mode, Some(CaptureMode::Master));
    assert_eq!(both.status, ClassificationStatus::Categorized);

    let json = classify_user_comment(Some(r#"{"oplustag":"16"}"#));
    assert_eq!(json.mode, Some(CaptureMode::Portrait));
    assert_eq!(json.tag_flags, Some(16));
}

#[test]
fn tracks_unknown_and_known_non_mode_flags() {
    let unknown = classify_user_comment(Some("oppo_1152921504606846976"));
    assert_eq!(unknown.status, ClassificationStatus::UnknownFlags);
    assert_eq!(unknown.unknown_flags, 1u64 << 60);
    assert_eq!(unknown.mode, None);

    let known_non_mode = classify_user_comment(Some("oppo_1"));
    assert_eq!(known_non_mode.status, ClassificationStatus::Categorized);
    assert_eq!(known_non_mode.mode, Some(CaptureMode::Normal));
}

#[test]
fn extracts_user_comment_from_nested_tiff_exif() {
    let mut heif_exif = b"Exif\0\0".to_vec();
    heif_exif.extend_from_slice(&tiff_with_user_comment(b"ASCII\0\0\0Oplus_2048"));
    let classification = classify_bytes(&heif_exif);
    assert_eq!(classification.mode, Some(CaptureMode::Night));
    assert_eq!(classification.status, ClassificationStatus::Categorized);
}

#[test]
fn raw_fallbacks_are_supported() {
    assert_eq!(
        extract_user_comment(b"junk oPpO_16384 tail").as_deref(),
        Some("Oppo_16384")
    );
    assert_eq!(
        classify_bytes(br#"metadata {"oplustag": "4"}"#).mode,
        Some(CaptureMode::Panorama)
    );
}
