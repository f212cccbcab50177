use xdremux::exif::OppoCompat;
use xdremux::inspect::{should_reject_lossy_gainmap_promotion, verify_iso_gain_map};

#[test]
fn lossy_gainmap_promotion_is_rejected_only_for_clean_iso_output() {
    assert!(should_reject_lossy_gainmap_promotion(true, OppoCompat::Off));
    assert!(!should_reject_lossy_gainmap_promotion(
        false,
        OppoCompat::Off
    ));
    assert!(!should_reject_lossy_gainmap_promotion(
        true,
        OppoCompat::Auto
    ));
    assert!(!should_reject_lossy_gainmap_promotion(true, OppoCompat::On));
    assert!(!should_reject_lossy_gainmap_promotion(
        true,
        OppoCompat::Iso
    ));
}

#[test]
fn verify_output_empty_data() {
    // Empty bytes should not pass verification
    assert!(!verify_iso_gain_map(&[]));
}

#[test]
fn verify_output_junk_data() {
    // Junk data should not crash and should return false
    assert!(!verify_iso_gain_map(&[0u8; 1024]));
}
