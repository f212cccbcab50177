use xdremux::categorize::{classify_bytes, classify_user_comment, Classification, ClassificationStatus};
use xdremux::container::{Family, OppoCameraTail};
use xdremux::convert::{
    begin_conversion, begin_hunt, continue_conversion, continue_hunt, hdr_family, resolve_settings,
    ConvertConfig, Hunt, Settings, Stage, StepOutcome,
};
use xdremux::exif::{
    adjust_oppo_usercomment, find_oppo_tagflags, normalize_tiff_orientation,
    parse_exif_orientation, target_oppo_tag_flags, ExifOrientation, OppoCompat,
};
use xdremux::report::{
    attach_failure_report, attach_report, failure_report, live_photo_report, no_motion_report,
    portrait_failure_report, style_report, writeback_failure_report, writeback_report,
};
use xdremux::text::{replace_char, trimmed, without_zeros};
use xdremux::writeback::{
    begin_writeback, continue_writeback, restores_canvas, return_stripped, writeback_route,
    Returned, Route, Step,
};

fn config(styles: u8, portrait: u8) -> ConvertConfig {
    ConvertConfig {
        oppo_compat: 0,
        oppo_camera_tail: 0,
        strict_tmap: 0,
        apple_photographic_styles: styles,
        apple_portrait: portrait,
    }
}

fn walk(settings: &Settings, jpeg: bool, outcome: impl Fn(&Stage) -> StepOutcome) -> (Vec<Stage>, Stage) {
    let mut seen = Vec::new();
    let mut stage = begin_conversion(settings, jpeg);
    for _ in 0..20 {
        if matches!(stage, Stage::Finished | Stage::Broken(_, _)) {
            return (seen, stage);
        }
        let o = outcome(&stage);
        let next = continue_conversion(copy(&stage), settings, jpeg, o);
        seen.push(stage);
        stage = next;
    }
    panic!("a conversion does not end");
}

fn copy(stage: &Stage) -> Stage {
    match stage {
        Stage::FindSrcImage => Stage::FindSrcImage,
        Stage::ParseJpeg => Stage::ParseJpeg,
        Stage::SynthesizeJpeg => Stage::SynthesizeJpeg,
        Stage::Extract => Stage::Extract,
        Stage::SynthesizeSdr(e) => Stage::SynthesizeSdr(e.clone()),
        Stage::WriteBase => Stage::WriteBase,
        Stage::ReadBase => Stage::ReadBase,
        Stage::MakePortrait => Stage::MakePortrait,
        Stage::WritePortrait => Stage::WritePortrait,
        Stage::MakeStyles => Stage::MakeStyles,
        Stage::Publish => Stage::Publish,
        Stage::Finished => Stage::Finished,
        Stage::Broken(e, b) => Stage::Broken(e.clone(), *b),
    }
}

#[test]
fn plain_conversions_extract_and_write() {
    let settings = resolve_settings(Some(config(0, 0)));
    let (seen, end) = walk(&settings, false, |_| StepOutcome::Done);
    assert!(matches!(end, Stage::Finished));
    assert!(matches!(seen[0], Stage::Extract));
    assert!(matches!(seen[1], Stage::WriteBase));
    assert_eq!(seen.len(), 2);
}

#[test]
fn features_are_built_before_the_end() {
    let settings = resolve_settings(Some(config(1, 0)));
    let (seen, end) = walk(&settings, false, |_| StepOutcome::Done);
    assert!(matches!(end, Stage::Finished));
    assert!(seen.iter().any(|s| matches!(s, Stage::MakeStyles)));
    let settings = resolve_settings(Some(config(0, 1)));
    let (seen, _) = walk(&settings, false, |s| match s {
        Stage::FindSrcImage => StepOutcome::Nothing,
        _ => StepOutcome::Done,
    });
    assert!(seen.iter().any(|s| matches!(s, Stage::MakePortrait)));
    assert!(seen.iter().any(|s| matches!(s, Stage::WritePortrait)));
}

#[test]
fn failures_end_a_conversion() {
    let settings = resolve_settings(None);
    let (_, end) = walk(&settings, false, |s| match s {
        Stage::WriteBase => StepOutcome::Failed("disk full".into()),
        _ => StepOutcome::Done,
    });
    match end {
        Stage::Broken(e, _) => assert!(e.contains("disk full")),
        _ => panic!("the conversion went on"),
    }
}

#[test]
fn hunts_try_jpeg_and_container() {
    assert!(matches!(begin_hunt(b"\xff\xd8\xff\xe0"), Hunt::Jpeg));
    assert!(matches!(begin_hunt(b"\x00\x00\x00\x18ftyp"), Hunt::Container));
    let hunt = continue_hunt(Hunt::Container, StepOutcome::Failed("no block".into()));
    match continue_hunt(hunt, StepOutcome::Nothing) {
        Hunt::Missing(e) => assert_eq!(e, "no block"),
        _ => panic!("the failure is not told"),
    }
    match continue_hunt(Hunt::Jpeg, StepOutcome::Nothing) {
        Hunt::Missing(e) => assert_eq!(e, "JPEG lacks an Ultra HDR gain map"),
        _ => panic!("a JPEG without a gain map is not told"),
    }
    assert_eq!(hdr_family(true, false), "x7");
    assert_eq!(hdr_family(false, true), Family::X7.as_str());
    assert_eq!(hdr_family(false, false), Family::X6.as_str());
}

#[test]
fn writebacks_follow_their_route() {
    assert_eq!(writeback_route(0, false), Ok(Route::Stripped));
    let mut step = begin_writeback(Route::Apple);
    let mut styles = 0;
    for _ in 0..10 {
        if matches!(step, Step::Complete | Step::Failed(_)) {
            break;
        }
        if matches!(step, Step::MakeStyles) {
            styles += 1;
        }
        assert!(!matches!(step, Step::RestoreCanvas));
        step = continue_writeback(step, Route::Apple, false, StepOutcome::Done);
    }
    assert!(matches!(step, Step::Complete));
    assert_eq!(styles, 1);
    match continue_writeback(Step::WriteIso, Route::Oppo, true, StepOutcome::Failed("x".into())) {
        Step::Failed(e) => assert!(e.contains('x')),
        _ => panic!("the failure is not told"),
    }
    assert!(!restores_canvas(Route::Oppo, true, b"no tail"));
}

#[test]
fn stripped_photos_restore_nothing() {
    let r = return_stripped(b"\x00\x00\x00\x0cftypheic");
    assert_eq!(r.output, b"\x00\x00\x00\x0cftypheic");
    assert!(r.entries.is_empty());
    assert!(!r.watermark_metadata && !r.raster_restored && !r.exif_grafted);
}

#[test]
fn reports_are_json() {
    assert_eq!(
        failure_report("a \"quoted\" error\n"),
        r#"{"errorMessage":"a \"quoted\" error\n","success":false}"#
    );
    assert_eq!(
        live_photo_report("/a.heic", "/a.mov", "ID"),
        r#"{"contentIdentifier":"ID","stillPath":"/a.heic","success":true,"videoPath":"/a.mov"}"#
    );
    assert!(style_report("/o", true, 12).contains("12"));
    assert!(no_motion_report(None).starts_with('{'));
    assert!(no_motion_report(Some("why")).contains("\"why\""));
    assert!(writeback_failure_report("why").contains("\"why\""));
    assert!(portrait_failure_report("input-read-error", Some("why")).contains("input-read-error"));
    assert_eq!(
        attach_report("attached", &vec!["a".to_string(), "b".to_string()]),
        r#"{"status":"attached","added":["a","b"]}"#
    );
    assert!(attach_failure_report("why").contains("why"));
    let photo = Returned {
        output: vec![],
        watermark_metadata: true,
        entries: vec!["watermark.device".to_string()],
        raster_restored: false,
        exif_grafted: true,
    };
    assert_eq!(
        writeback_report(&photo, true, false, "{}".to_string()),
        concat_members(&[
            r#""errorMessage":null"#,
            r#""exifGrafted":true"#,
            r#""outputMode":"oppo""#,
            r#""outputValid":true"#,
            r#""rasterWatermarkRestored":false"#,
            r#""requestedRasterWatermark":false"#,
            r#""restoredOppoEntries":["watermark.device"]"#,
            r#""success":true"#,
            r#""timingsMs":{}"#,
            r#""watermarkMetadataPreserved":true"#,
        ])
    );
}

fn concat_members(members: &[&str]) -> String {
    format!("{{{}}}", members.join(","))
}

#[test]
fn comments_are_classified() {
    let c = classify_user_comment(None);
    assert_eq!(c.status, ClassificationStatus::MissingUserComment);
    let c = classify_user_comment(Some("oplus_"));
    assert_eq!(c.status, ClassificationStatus::MalformedUserComment);
    assert_eq!(Classification::unreadable().status, ClassificationStatus::UnreadableImage);
    let c = classify_bytes(b"....Oplus_0....");
    assert_eq!(c.tag_flags, Some(0));
    // Bytes that are not text are replaced, and the flags behind them still count.
    let c = classify_user_comment(Some("  oplus_32  "));
    assert_eq!(c.tag_flags, Some(32));
}

#[test]
fn target_flags_settle() {
    for mode in [OppoCompat::On, OppoCompat::Iso, OppoCompat::IsoNoLocal, OppoCompat::IsoGraph] {
        for flags in [0u32, 1, 0x20, 0x8000_0000, u32::MAX, 12345] {
            let once = target_oppo_tag_flags(flags, mode);
            assert_eq!(target_oppo_tag_flags(once, mode), once);
        }
    }
}

#[test]
fn orientation_numbers_round_trip() {
    for n in 1..=8u16 {
        let o = ExifOrientation::from_u16(n).unwrap();
        assert_eq!(o.to_u16(), n);
        let (w, h) = o.output_dimensions(3, 5);
        assert_eq!(o.output_dimensions(w, h), (3, 5));
    }
    assert!(ExifOrientation::from_u16(9).is_err());
}

#[test]
fn normalized_tiffs_are_normal() {
    let turned = b"MM\0\x2a\0\0\0\x08\0\x01\x01\x12\0\x03\0\0\0\x01\0\x06\0\0\0\0\0\0".to_vec();
    assert_eq!(parse_exif_orientation(&turned), Ok(ExifOrientation::Rotate90Clockwise));
    let mut normal = turned.clone();
    assert!(normalize_tiff_orientation(&mut normal));
    assert_eq!(parse_exif_orientation(&normal), Ok(ExifOrientation::Normal));
    assert_eq!((normal[19], turned[19]), (1, 6));
    assert_eq!(normal[20..], turned[20..]);
    let mut other = b"no TIFF data".to_vec();
    assert!(!normalize_tiff_orientation(&mut other));
    assert_eq!(other, b"no TIFF data");
}

#[test]
fn unknown_tail_policies_are_the_default() {
    for compat in [OppoCompat::Off, OppoCompat::On, OppoCompat::Tail] {
        assert_eq!(
            OppoCameraTail::resolve(OppoCameraTail::AUTOMATIC, compat),
            OppoCameraTail::default_for_compat(compat)
        );
        assert_eq!(OppoCameraTail::resolve(0, compat), OppoCameraTail::Off);
    }
}

#[test]
fn adjusted_comments_carry_the_target() {
    let comment = b"ASCII\0\0\0Oplus_00000032 oplus_7".to_vec();
    let tags = find_oppo_tagflags(&comment);
    assert_eq!((tags.len(), tags[0].value, tags[1].value), (2, 32, 7));
    let (start, end, digits) = adjust_oppo_usercomment(&tags[0], OppoCompat::On).unwrap();
    let adjusted = [&comment[..start], digits.as_slice(), &comment[end..]].concat();
    let again = find_oppo_tagflags(&adjusted);
    assert_eq!(again[0].value, target_oppo_tag_flags(32, OppoCompat::On));
    assert_eq!(again[0].offset, tags[0].offset);
    assert_eq!(again[1].value, 7);
    assert!(adjust_oppo_usercomment(&again[0], OppoCompat::On).is_none());
}

#[test]
fn texts_are_trimmed_and_replaced() {
    for s in ["", " ", "a", " a b ", "\u{3000}\u{e9}\u{a0}\u{2003}x\u{85}\n", "\u{200b}a\u{feff}"] {
        assert_eq!(trimmed(s), s.trim());
    }
    assert_eq!(trimmed("\t\u{2028}id \u{205f}"), "id");
    assert_eq!(without_zeros("\0\0a\0b\0"), "a\0b");
    assert_eq!(without_zeros("\0"), "");
    assert_eq!(replace_char("a\u{e9}b\u{e9}", '\u{e9}', "--"), "a--b--");
    assert_eq!(replace_char("abc", 'x', "y"), "abc");
}
