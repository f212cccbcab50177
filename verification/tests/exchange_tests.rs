use xdremux::inspect::{
    extract_thumbnail, is_heif_container, read_style_payload, replace_style_payload,
};
use xdremux::isobmff::{self, IlocEntry};
use xdremux::isobmff_write::{
    graft_exif_item, install_exif_payload, read_exif_payload, replace_item_payload,
    try_install_exif_payload,
};
use xdremux::live_movie::{try_write_live_photo_movie, MovieMark};
use xdremux::live_photo::{
    append_live_photo_entry, build_apple_makernote, equal_but_case, existing_pair_is_valid,
    inject_makernote, pair_still, patch_makernote_inplace, read_makernote_bytes,
    read_movie_content_identifier, read_still_content_identifier, read_tiff,
    try_patch_makernote_inplace, uuid_v4, write_tiff, TiffEntry, TiffModel,
};
use xdremux::quicktime::{make_mov_box, scan_boxes};

/// Build a minimal valid ISOBMFF HEIC buffer for testing.
fn make_minimal_heic() -> Vec<u8> {
    make_minimal_heic_with_exif_orientation(None)
}

fn make_minimal_heic_with_exif_orientation(orientation: Option<u16>) -> Vec<u8> {
    let mut out = Vec::new();
    let exif_blob = orientation.map(heif_exif_blob);

    // ftyp
    let mut ftyp_payload = Vec::new();
    ftyp_payload.extend_from_slice(b"heic");
    isobmff::write_u32be(0, &mut ftyp_payload);
    ftyp_payload.extend_from_slice(b"heic");
    ftyp_payload.extend_from_slice(b"mif1");
    out.extend_from_slice(&isobmff::make_box(b"ftyp", &ftyp_payload));

    // ipco with ispe
    let mut ipco = Vec::new();
    ipco.extend_from_slice(&isobmff::make_ispe_box(512, 256));
    let ipco_box = isobmff::make_box(b"ipco", &ipco);

    // ipma
    let mut ipma_payload = vec![0u8; 4];
    isobmff::write_u32be(1, &mut ipma_payload);
    ipma_payload.extend_from_slice(&isobmff::make_ipma_entry(1, &[(1, true)], 0));
    let ipma_box = isobmff::make_box(b"ipma", &ipma_payload);

    let mut iprp = Vec::new();
    iprp.extend_from_slice(&ipco_box);
    iprp.extend_from_slice(&ipma_box);
    let iprp_box = isobmff::make_box(b"iprp", &iprp);

    let infe1 = isobmff::make_infe_box(1, "hvc1", 0);
    let mut iinf_payload = vec![0, 0, 0, 0];
    isobmff::write_u16be(if exif_blob.is_some() { 2 } else { 1 }, &mut iinf_payload);
    iinf_payload.extend_from_slice(&infe1);
    if exif_blob.is_some() {
        iinf_payload.extend_from_slice(&isobmff::make_infe_box(2, "Exif", 0));
    }
    let iinf_box = isobmff::make_box(b"iinf", &iinf_payload);

    let pitm_box = isobmff::make_pitm_box(0, 1);

    let mut iloc_entries = vec![IlocEntry {
        item_id: 1,
        construction_method: 0,
        data_reference_index: 0,
        extents: vec![(0, 4)],
    }];
    if let Some(blob) = &exif_blob {
        iloc_entries.push(IlocEntry {
            item_id: 2,
            construction_method: 1,
            data_reference_index: 0,
            extents: vec![(0, blob.len() as u64)],
        });
    }
    let iloc = isobmff::make_iloc_box(&iloc_entries);
    let idat_box = isobmff::make_box(b"idat", exif_blob.as_deref().unwrap_or(&[]));
    let hdlr = isobmff::make_box(b"hdlr", &[0u8; 8]);

    let mut meta_kids = Vec::new();
    meta_kids.extend_from_slice(&hdlr);
    meta_kids.extend_from_slice(&pitm_box);
    meta_kids.extend_from_slice(&iinf_box);
    meta_kids.extend_from_slice(&iloc);
    meta_kids.extend_from_slice(&iprp_box);
    meta_kids.extend_from_slice(&idat_box);
    let mut meta_payload = vec![0u8; 4];
    meta_payload.extend_from_slice(&meta_kids);
    out.extend_from_slice(&isobmff::make_box(b"meta", &meta_payload));

    out.extend_from_slice(&isobmff::make_box(b"mdat", &[0u8; 4]));

    out
}

fn heif_exif_blob(orientation: u16) -> Vec<u8> {
    let mut tiff = Vec::new();
    tiff.extend_from_slice(b"II");
    tiff.extend_from_slice(&42u16.to_le_bytes());
    tiff.extend_from_slice(&8u32.to_le_bytes());
    tiff.extend_from_slice(&1u16.to_le_bytes());
    tiff.extend_from_slice(&0x0112u16.to_le_bytes());
    tiff.extend_from_slice(&3u16.to_le_bytes());
    tiff.extend_from_slice(&1u32.to_le_bytes());
    tiff.extend_from_slice(&orientation.to_le_bytes());
    tiff.extend_from_slice(&[0, 0]);
    tiff.extend_from_slice(&0u32.to_le_bytes());

    let mut blob = 6u32.to_be_bytes().to_vec();
    blob.extend_from_slice(b"Exif\0\0");
    blob.extend_from_slice(&tiff);
    blob
}

fn minimal_tiff() -> Vec<u8> {
    // II, magic 42, IFD0 at 8 with two entries: Make (ASCII, inline) and
    // ExifIFD pointer (0x8769 → offset 34), then ExifIFD with one entry.
    let mut t = Vec::new();
    t.extend_from_slice(b"II*\x00");
    t.extend_from_slice(&8u32.to_le_bytes());
    // IFD0: 2 entries
    t.extend_from_slice(&2u16.to_le_bytes());
    // tag 0x010F Make ASCII count 4 inline "OPPO\0"->4 bytes
    t.extend_from_slice(&0x010Fu16.to_le_bytes());
    t.extend_from_slice(&2u16.to_le_bytes());
    t.extend_from_slice(&5u32.to_le_bytes());
    t.extend_from_slice(&34u32.to_le_bytes()); // value offset → 34
    // tag 0x8769 ExifIFD pointer LONG count 1
    t.extend_from_slice(&0x8769u16.to_le_bytes());
    t.extend_from_slice(&4u16.to_le_bytes());
    t.extend_from_slice(&1u32.to_le_bytes());
    // IFD0 table: 8 + 2 + 24 + 4 = 38; data area holds "OPPO\0" at 38..43,
    // ExifIFD after that: 43
    t.extend_from_slice(&43u32.to_le_bytes());
    t.extend_from_slice(&0u32.to_le_bytes()); // next IFD
    // data area at 38
    t.extend_from_slice(b"OPPO\0");
    // ExifIFD at 43: 1 entry (tag 0x9000 ExifVersion UNDEFINED count 4)
    t.extend_from_slice(&1u16.to_le_bytes());
    t.extend_from_slice(&0x9000u16.to_le_bytes());
    t.extend_from_slice(&7u16.to_le_bytes());
    t.extend_from_slice(&4u32.to_le_bytes());
    t.extend_from_slice(b"0232");
    t.extend_from_slice(&0u32.to_le_bytes());
    t
}

const ID: &str = "0F4D6C1A-9B1E-4C1F-8A55-1B2C3D4E5F60";

fn exif_item_of(tiff: &[u8]) -> Vec<u8> {
    let mut out = 6u32.to_be_bytes().to_vec();
    out.extend_from_slice(b"Exif\0\0");
    out.extend_from_slice(tiff);
    out
}

fn mvhd() -> Vec<u8> {
    let mut payload = vec![0u8; 12];
    payload.extend_from_slice(&600u32.to_be_bytes());
    payload.extend_from_slice(&1200u32.to_be_bytes());
    payload.extend_from_slice(&[0u8; 76]);
    payload.extend_from_slice(&2u32.to_be_bytes());
    make_mov_box(b"mvhd", &payload)
}

fn movie() -> Vec<u8> {
    let mut hdlr = vec![0u8; 8];
    hdlr.extend_from_slice(b"vide");
    hdlr.extend_from_slice(&[0u8; 13]);
    let mut tkhd = vec![0u8; 12];
    tkhd.extend_from_slice(&1u32.to_be_bytes());
    tkhd.extend_from_slice(&[0u8; 68]);
    let mut mdhd = vec![0u8; 12];
    mdhd.extend_from_slice(&600u32.to_be_bytes());
    mdhd.extend_from_slice(&1200u32.to_be_bytes());
    mdhd.extend_from_slice(&[0u8; 4]);
    let mut stts = vec![0u8; 4];
    stts.extend_from_slice(&1u32.to_be_bytes());
    stts.extend_from_slice(&2u32.to_be_bytes());
    stts.extend_from_slice(&20u32.to_be_bytes());
    let mut stco = vec![0u8; 4];
    stco.extend_from_slice(&1u32.to_be_bytes());
    stco.extend_from_slice(&32u32.to_be_bytes());
    let stbl = make_mov_box(
        b"stbl",
        &[make_mov_box(b"stts", &stts), make_mov_box(b"stco", &stco)].concat(),
    );
    let minf = make_mov_box(b"minf", &stbl);
    let mdia = make_mov_box(
        b"mdia",
        &[make_mov_box(b"mdhd", &mdhd), make_mov_box(b"hdlr", &hdlr), minf].concat(),
    );
    let trak = make_mov_box(b"trak", &[make_mov_box(b"tkhd", &tkhd), mdia].concat());
    let mut ftyp = b"isom".to_vec();
    ftyp.extend_from_slice(&0u32.to_be_bytes());
    ftyp.extend_from_slice(b"isomiso2");
    [
        make_mov_box(b"ftyp", &ftyp),
        make_mov_box(b"mdat", b"MEDIA-SAMPLES"),
        make_mov_box(b"moov", &[mvhd(), trak].concat()),
    ]
    .concat()
}

fn mark() -> MovieMark {
    MovieMark {
        empty_duration: 300,
        unix_seconds: 1_700_000_000,
        transform: None,
        dimensions: None,
    }
}

#[test]
fn installed_exif_is_read_back() {
    for orientation in [None, Some(6)] {
        let source = make_minimal_heic_with_exif_orientation(orientation);
        let mut file = source.clone();
        let payload = exif_item_of(&minimal_tiff());
        assert_eq!(install_exif_payload(&mut file, &payload), Ok(true));
        assert_eq!(read_exif_payload(&file), Ok(Some(payload)));
        let (old, new) = (
            isobmff::parse_source_meta(&source).unwrap(),
            isobmff::parse_source_meta(&file).unwrap(),
        );
        assert_eq!(new.primary_id, old.primary_id);
        assert_eq!(new.props[0].raw, old.props[0].raw);
        assert_eq!(new.items.len(), 2);
        assert!(is_heif_container(&file).unwrap());
    }
}

#[test]
fn a_file_without_metadata_takes_no_exif() {
    assert!(try_install_exif_payload(&[0u8; 3], b"x").unwrap().is_err());
    assert_eq!(read_exif_payload(&make_minimal_heic()), Ok(None));
}

#[test]
fn items_inside_the_metadata_keep_their_bytes() {
    let mut file = make_minimal_heic_with_exif_orientation(Some(6));
    let exif = read_exif_payload(&file).unwrap().unwrap();
    assert_eq!(exif, heif_exif_blob(6));
    assert_eq!(replace_item_payload(&mut file, 1, None, b"another picture"), Ok(()));
    assert_eq!(read_exif_payload(&file), Ok(Some(exif)));
    let entry = &isobmff::parse_source_meta(&file).unwrap().iloc_entries[1];
    assert_eq!((entry.item_id, entry.construction_method), (2, 1));
}

/// A file whose last child of the metadata leaves its size open.
fn open_ended(mut file: Vec<u8>) -> Vec<u8> {
    let at = file.windows(4).position(|w| w == b"idat").unwrap() - 4;
    file[at..at + 4].copy_from_slice(&[0; 4]);
    file
}

#[test]
fn a_last_child_may_leave_its_size_open() {
    let mut file = open_ended(make_minimal_heic_with_exif_orientation(Some(6)));
    let payload = exif_item_of(&minimal_tiff());
    assert_eq!(read_exif_payload(&file), Ok(Some(heif_exif_blob(6))));
    assert_eq!(install_exif_payload(&mut file, &payload), Ok(true));
    assert_eq!(read_exif_payload(&file), Ok(Some(payload.clone())));
    assert_eq!(isobmff::parse_source_meta(&file).unwrap().items.len(), 2);

    let mut file = open_ended(make_minimal_heic());
    assert_eq!(install_exif_payload(&mut file, &payload), Ok(true));
    assert!(isobmff::parse_source_meta(&file).unwrap().refs.is_empty());
    let mut closed = make_minimal_heic();
    assert_eq!(install_exif_payload(&mut closed, &payload), Ok(true));
    assert_eq!(isobmff::parse_source_meta(&closed).unwrap().refs.len(), 1);
}

#[test]
fn incomplete_metadata_are_told() {
    let file = make_minimal_heic();
    for part in [b"iloc", b"iinf", b"pitm", b"iprp", b"ipco", b"ipma"] {
        let at = file.windows(4).position(|w| w == part).unwrap();
        let mut without = file.clone();
        without[at..at + 4].copy_from_slice(b"free");
        assert!(isobmff::parse_source_meta(&without).is_err(), "{:?}", part);
    }
    assert!(isobmff::parse_source_meta(&file).is_ok());
    assert!(isobmff::parse_source_meta(&[]).is_err());
}

#[test]
fn replaced_payloads_are_read_back() {
    let mut file = make_minimal_heic_with_exif_orientation(Some(1));
    assert_eq!(replace_item_payload(&mut file, 2, None, b"new payload"), Ok(()));
    assert_eq!(read_exif_payload(&file), Ok(Some(b"new payload".to_vec())));
    let before = file.clone();
    assert!(replace_item_payload(&mut file, 9, None, b"x").is_err());
    assert_eq!(file, before);
}

#[test]
fn exif_is_grafted_from_a_donor() {
    let donor = make_minimal_heic_with_exif_orientation(Some(3));
    let mut file = make_minimal_heic();
    assert_eq!(graft_exif_item(&mut file, &donor), Ok(true));
    assert_eq!(read_exif_payload(&file), read_exif_payload(&donor));
    let mut other = make_minimal_heic();
    assert_eq!(graft_exif_item(&mut other, &make_minimal_heic()), Ok(false));
    assert_eq!(other, make_minimal_heic());
}

#[test]
fn grafts_refuse_trailing_data() {
    let donor = make_minimal_heic_with_exif_orientation(Some(3));
    let mut longer = make_minimal_heic();
    longer.extend_from_slice(b"tail");
    let before = longer.clone();
    assert_eq!(
        graft_exif_item(&mut longer, &donor).err().as_deref(),
        Some("output has trailing data after mdat; graft before appending tails")
    );
    assert_eq!(longer, before);
}

#[test]
fn metadata_is_read_in_any_order() {
    let file = make_minimal_heic_with_exif_orientation(Some(3));
    let top = isobmff::parse_boxes(&file, 0, file.len());
    let meta = top.iter().find(|b| &b.btype == b"meta").unwrap();
    let mut payload = file[meta.data_start..meta.data_start + 4].to_vec();
    for kid in isobmff::parse_boxes(&file, meta.data_start + 4, meta.data_end).iter().rev() {
        payload.extend_from_slice(&file[kid.box_start..kid.data_end]);
    }
    let mut turned = file[..meta.box_start].to_vec();
    turned.extend_from_slice(&isobmff::make_box(b"meta", &payload));
    turned.extend_from_slice(&file[meta.data_end..]);
    assert_ne!(turned, file);
    let a = isobmff::parse_source_meta(&file).unwrap();
    let b = isobmff::parse_source_meta(&turned).unwrap();
    assert_eq!(a.primary_id, b.primary_id);
    let items = |m: &isobmff::ParsedMeta| -> Vec<(u32, String, Vec<u8>)> {
        m.items.iter().map(|i| (i.item_id, i.itype.clone(), i.raw_infe.clone())).collect()
    };
    assert_eq!(items(&a), items(&b));
    let places = |m: &isobmff::ParsedMeta| -> Vec<(u32, Vec<(u64, u64)>)> {
        m.iloc_entries.iter().map(|e| (e.item_id, e.extents.clone())).collect()
    };
    assert_eq!(places(&a), places(&b));
    assert_eq!(a.props.len(), b.props.len());
    assert_eq!(read_exif_payload(&turned), read_exif_payload(&file));
}

#[test]
fn plain_files_have_no_styles_and_no_thumbnail() {
    let file = make_minimal_heic();
    assert_eq!(read_style_payload(&file).unwrap(), None);
    assert!(replace_style_payload(&file, b"p", false).unwrap().is_err());
    assert_eq!(extract_thumbnail(&file).unwrap(), None);
    let mut with_jpeg = file;
    with_jpeg.extend_from_slice(b"\xff\xd8\xff\xe0thumb\xff\xd9");
    assert!(extract_thumbnail(&with_jpeg).is_some());
}

#[test]
fn thumbnails_are_read_from_exif_data() {
    let jpeg = [0xffu8, 0xd8, 0xff, 0xe0, 1, 2, 3, 0xff, 0xd9];
    let mut tiff = b"MM\0\x2a\0\0\0\x08\0\0\0\0\0\x0e\0\x02".to_vec();
    tiff.extend_from_slice(&[0x02, 0x01, 0, 4, 0, 0, 0, 1, 0, 0, 0, 44]);
    tiff.extend_from_slice(&[0x02, 0x02, 0, 4, 0, 0, 0, 1, 0, 0, 0, 9, 0, 0, 0, 0]);
    tiff.extend_from_slice(&jpeg);
    for prefix in [b"\0\0\0\x06Exif\0\0".as_slice(), b"\0\0\0\x0aExif\0\0", b"\0\0\0\0"] {
        let mut payload = prefix.to_vec();
        payload.extend_from_slice(&tiff);
        let mut file = make_minimal_heic();
        install_exif_payload(&mut file, &payload).unwrap();
        assert_eq!(extract_thumbnail(&file).unwrap().as_deref(), Some(jpeg.as_slice()));
    }
    let mut file = make_minimal_heic();
    let mut payload = b"\0\0\0\x07Exif\0\0".to_vec();
    payload.extend_from_slice(&tiff);
    install_exif_payload(&mut file, &payload).unwrap();
    assert_eq!(extract_thumbnail(&file).unwrap(), None);
}

#[test]
fn written_tiffs_are_read_back() {
    let model = TiffModel {
        little_endian: false,
        ifd0: vec![
            TiffEntry { tag: 0x010f, type_id: 2, data: b"OPPO\0".to_vec() },
            TiffEntry { tag: 0x8769, type_id: 4, data: vec![0; 4] },
        ],
        exif_ifd: vec![TiffEntry { tag: 0x9000, type_id: 7, data: b"0232".to_vec() }],
        gps_ifd: vec![],
    };
    let again = read_tiff(&write_tiff(&model)).unwrap();
    assert!(!again.little_endian);
    assert_eq!(again.ifd0[0].data, b"OPPO\0");
    assert_eq!(again.exif_ifd[0].data, b"0232");
    assert!(again.gps_ifd.is_empty());
}

#[test]
fn malformed_tiffs_are_told() {
    let error = |data: &[u8]| read_tiff(data).err().unwrap();
    assert_eq!(error(b"II*"), "TIFF header truncated");
    assert_eq!(error(b"XX*\0\x08\0\0\0"), "invalid TIFF byte order");
    assert_eq!(error(b"II*\0\x08\0\0\0"), "TIFF read out of range");
    assert_eq!(
        build_apple_makernote("").err().as_deref(),
        Some("invalid Live Photo content identifier")
    );
}

#[test]
fn notes_carry_their_identifier() {
    let note = build_apple_makernote(ID).unwrap();
    assert!(note.windows(ID.len()).any(|w| w == ID.as_bytes()));
    let extended = append_live_photo_entry(&note, "ABCD-1234").unwrap();
    assert!(extended.windows(9).any(|w| w == b"ABCD-1234"));
    assert_eq!(
        append_live_photo_entry(b"Canon", "ABCD-1234").err().as_deref(),
        Some("MakerNote is not an Apple iOS note")
    );
    let tiff = inject_makernote(&minimal_tiff(), ID).unwrap();
    assert_eq!(read_makernote_bytes(&tiff).unwrap(), Some(note.as_slice()));
}

/// TIFF data whose Exif directory has a note of four bytes in its entry.
fn tiff_with_short_note() -> Vec<u8> {
    let mut out = b"MM\0\x2a\0\0\0\x08".to_vec();
    out.extend_from_slice(&[0, 1, 0x87, 0x69, 0, 4, 0, 0, 0, 1, 0, 0, 0, 26, 0, 0, 0, 0]);
    out.extend_from_slice(&[0, 1, 0x92, 0x7c, 0, 7, 0, 0, 0, 4, 0, 0, 0, 2, 0, 0, 0, 0]);
    out
}

#[test]
fn notes_of_the_same_size_are_replaced_in_their_place() {
    let tiff = inject_makernote(&minimal_tiff(), ID).unwrap();
    let new = build_apple_makernote(&ID.replace('A', "B")).unwrap();
    let mut patched = tiff.clone();
    assert_eq!(patch_makernote_inplace(&mut patched, &new), Ok(true));
    assert_eq!(read_makernote_bytes(&patched).unwrap(), Some(new.as_slice()));
    let mut same = tiff.clone();
    assert_eq!(patch_makernote_inplace(&mut same, &new[1..]), Ok(false));
    assert_eq!(same, tiff);

    let mut short = tiff_with_short_note();
    assert_eq!(read_makernote_bytes(&short).unwrap(), Some([0, 0, 0, 2].as_slice()));
    assert_eq!(patch_makernote_inplace(&mut short, b"note"), Ok(true));
    assert_eq!(read_makernote_bytes(&short).unwrap(), Some(b"note".as_slice()));
    assert_eq!(short[..36], tiff_with_short_note()[..36]);
    assert_eq!(short[40..], tiff_with_short_note()[40..]);
    assert_eq!(try_patch_makernote_inplace(&mut short[..30], b"note"), None);
}

#[test]
fn installed_notes_carry_their_identifier() {
    let tiff = inject_makernote(&minimal_tiff(), ID).unwrap();
    for orientation in [None, Some(1)] {
        let mut still = make_minimal_heic_with_exif_orientation(orientation);
        assert_eq!(install_exif_payload(&mut still, &exif_item_of(&tiff)), Ok(true));
        assert_eq!(read_still_content_identifier(&still).as_deref(), Some(ID));
    }
    let mut short = tiff_without_exif(true);
    short.splice(8..10, [2, 0, 0x69, 0x87, 3, 0, 1, 0, 0, 0, 0, 0, 0, 0]);
    let tiff = inject_makernote(&short, ID).unwrap();
    let note = build_apple_makernote(ID).unwrap();
    assert_eq!(read_makernote_bytes(&tiff).unwrap(), Some(note.as_slice()));
}

#[test]
fn notes_of_unknown_types_are_replaced_as_bytes() {
    let mut tiff = tiff_with_short_note();
    tiff[31] = 99;
    assert_eq!(read_makernote_bytes(&tiff).unwrap(), None);
    let mut patched = tiff.clone();
    assert_eq!(patch_makernote_inplace(&mut patched, b"note"), Ok(true));
    assert_eq!(&patched[36..40], b"note");
    assert_eq!(patched[..36], tiff[..36]);
    assert_eq!(patch_makernote_inplace(&mut patched, b"not"), Ok(false));
}

#[test]
fn movies_whose_movie_box_ends_the_file_are_marked() {
    let mut source = movie();
    let at = source.windows(4).position(|w| w == b"moov").unwrap() - 4;
    source[at..at + 4].copy_from_slice(&[0; 4]);
    let live = try_write_live_photo_movie(&source, ID, mark()).unwrap().unwrap();
    assert_eq!(read_movie_content_identifier(&live).as_deref(), Some(ID));
    let mut open = movie();
    open.extend_from_slice(b"\0\0\0\0skip");
    let live = try_write_live_photo_movie(&open, ID, mark()).unwrap().unwrap();
    assert_eq!(read_movie_content_identifier(&live), None);
    assert_eq!(live[16..at], open[16..at]);
}

#[test]
fn paired_stills_and_movies_share_their_identifier() {
    let mut still = make_minimal_heic();
    install_exif_payload(&mut still, &exif_item_of(&minimal_tiff())).unwrap();
    let paired = pair_still(&still, ID).unwrap();
    assert_eq!(read_still_content_identifier(&paired).as_deref(), Some(ID));
    assert_eq!(read_still_content_identifier(&still), None);

    let live = try_write_live_photo_movie(&movie(), ID, mark()).unwrap().unwrap();
    assert_eq!(read_movie_content_identifier(&live).as_deref(), Some(ID));
    assert_eq!(read_movie_content_identifier(&movie()), None);
    assert!(live.windows(13).any(|w| w == b"MEDIA-SAMPLES"));
    assert!(existing_pair_is_valid(&paired, &live));
    assert!(!existing_pair_is_valid(&still, &live));

    let stranger = ID.replace('A', "B");
    let theirs = try_write_live_photo_movie(&movie(), &stranger, mark()).unwrap().unwrap();
    assert!(!existing_pair_is_valid(&paired, &theirs));
    assert!(!existing_pair_is_valid(&paired, &movie()));
    let lower = try_write_live_photo_movie(&movie(), &ID.to_lowercase(), mark()).unwrap().unwrap();
    assert!(existing_pair_is_valid(&paired, &lower));
    let other = pair_still(&still, "ABCD-1234").unwrap();
    assert!(!existing_pair_is_valid(&other, &live));
    let again = pair_still(&paired, "ABCD-1234").unwrap();
    assert!(read_exif_payload(&again)
        .unwrap()
        .unwrap()
        .windows(9)
        .any(|w| w == b"ABCD-1234"));
}

/// TIFF data of one directory with one entry, in either byte order.
fn tiff_without_exif(little: bool) -> Vec<u8> {
    let short = |v: u16| if little { v.to_le_bytes() } else { v.to_be_bytes() };
    let long = |v: u32| if little { v.to_le_bytes() } else { v.to_be_bytes() };
    let mut out = if little { b"II".to_vec() } else { b"MM".to_vec() };
    out.extend_from_slice(&short(42));
    out.extend_from_slice(&long(8));
    out.extend_from_slice(&short(1));
    out.extend_from_slice(&short(0x0112));
    out.extend_from_slice(&short(3));
    out.extend_from_slice(&long(1));
    out.extend_from_slice(&short(6));
    out.extend_from_slice(&[0, 0]);
    out.extend_from_slice(&long(0));
    out
}

#[test]
fn notes_are_reached_from_the_first_directory() {
    for little in [false, true] {
        let tiff = tiff_without_exif(little);
        let out = inject_makernote(&tiff, ID).unwrap();
        let note = build_apple_makernote(ID).unwrap();
        assert_eq!(read_makernote_bytes(&out).unwrap(), Some(note.as_slice()));
        let model = read_tiff(&out).unwrap();
        let tags: Vec<u16> = model.ifd0.iter().map(|e| e.tag).collect();
        assert_eq!(tags, vec![0x0112, 0x8769]);
        assert_eq!(model.ifd0[0].data[..2], tiff[18..20]);
        assert_eq!(model.exif_ifd.len(), 1);
        assert_eq!((model.exif_ifd[0].tag, &model.exif_ifd[0].data), (0x927c, &note));

        let mut still = make_minimal_heic();
        install_exif_payload(&mut still, &exif_item_of(&tiff)).unwrap();
        let paired = pair_still(&still, ID).unwrap();
        assert_eq!(read_still_content_identifier(&paired).as_deref(), Some(ID));
        let live = try_write_live_photo_movie(&movie(), ID, mark()).unwrap().unwrap();
        assert!(existing_pair_is_valid(&paired, &live));
    }
}

#[test]
fn notes_are_extended_in_their_byte_order() {
    for little in [false, true] {
        let short = |v: u16| if little { v.to_le_bytes() } else { v.to_be_bytes() };
        let long = |v: u32| if little { v.to_le_bytes() } else { v.to_be_bytes() };
        let mut note = b"Apple iOS\0\0\x01".to_vec();
        note.extend_from_slice(if little { b"II" } else { b"MM" });
        note.extend_from_slice(&short(1));
        note.extend_from_slice(&short(1));
        note.extend_from_slice(&short(9));
        note.extend_from_slice(&long(1));
        note.extend_from_slice(&long(15));
        note.extend_from_slice(&long(0));
        let out = append_live_photo_entry(&note, "abcd-1234").unwrap();
        assert_eq!(out.len(), note.len() + 12 + 10);
        assert_eq!(out[14..16], short(2));
        assert_eq!(out[16..18], short(0x0011));
        assert_eq!(out[18..20], short(2));
        assert_eq!(out[20..24], long(10));
        assert_eq!(out[28..40], note[16..28]);
        assert!(out.ends_with(b"ABCD-1234\0"));
    }
}

#[test]
fn stills_without_exif_cannot_be_paired() {
    assert_eq!(
        pair_still(&make_minimal_heic(), ID).err().as_deref(),
        Some("converted still has no Exif item; cannot pair Live Photo")
    );
}

#[test]
fn movies_must_be_whole() {
    let error = |m: &[u8], id: &str| try_write_live_photo_movie(m, id, mark()).unwrap().err();
    assert_eq!(
        error(&make_mov_box(b"moov", &mvhd()), ID).as_deref(),
        Some("source video must contain exactly one ftyp and one moov")
    );
    assert_eq!(
        error(&movie(), "").as_deref(),
        Some("Live Photo content identifier must be non-empty ASCII")
    );
    let cut = scan_boxes(&[0, 0, 0], 0, 3).unwrap().err();
    assert_eq!(cut.as_deref(), Some("truncated ISO BMFF box header"));
    let short = scan_boxes(&[0, 0, 0, 4, b'f', b'r', 0xe9, b'e'], 0, 8).unwrap().err();
    assert_eq!(short.as_deref(), Some("invalid fr\u{fffd}e box size 4"));
}

#[test]
fn identifiers_are_compared_without_case() {
    assert!(equal_but_case("aBc-1", "AbC-1"));
    assert!(!equal_but_case("abc", "abd"));
    let id = uuid_v4(&[0x12; 16], &[0, 0, 0, 7]);
    assert_eq!(id.len(), 36);
    let bytes = id.as_bytes();
    assert!([8, 13, 18, 23].iter().all(|i| bytes[*i] == b'-'));
    assert_eq!(bytes[14], b'4');
    assert!(matches!(bytes[19], b'8' | b'9' | b'A' | b'B'));
}
