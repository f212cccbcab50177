use xdremux::container::OppoCameraTail;
use xdremux::exif::OppoCompat;
use xdremux::gain_tiles::{
    assemble_prepared_tiles, pack_gray_tiles, prepare_lhdr_tiles, prepare_uhdr_tiles, tile_chroma,
    tile_uhdr_gain_map, GainMetadata, PreparedTiles,
};
use xdremux::gainmap::{align_up, apply_gains, try_apply_gains};
use xdremux::inspect::verify_iso_gain_map;
use xdremux::iso_validate::{check_channels, try_validate_gain_map_structure, HvcCProfile};
use xdremux::isobmff::{self, IlocEntry};

/// Build a minimal valid ISOBMFF HEIC buffer for testing.
fn make_minimal_heic() -> Vec<u8> {
    make_minimal_heic_with_exif_orientation(None)
}

fn make_minimal_heic_with_exif_orientation(orientation: Option<u16>) -> Vec<u8> {
    let mut out = Vec::new();
    let exif_blob = orientation.map(heif_exif_blob);

    // ftyp
    let mut ftyp_payload = Vec::new();
    ftyp_payload.extend_from_slice(b"heic");
    isobmff::write_u32be(0, &mut ftyp_payload);
    ftyp_payload.extend_from_slice(b"heic");
    ftyp_payload.extend_from_slice(b"mif1");
    out.extend_from_slice(&isobmff::make_box(b"ftyp", &ftyp_payload));

    // ipco with ispe
    let mut ipco = Vec::new();
    ipco.extend_from_slice(&isobmff::make_ispe_box(512, 256));
    let ipco_box = isobmff::make_box(b"ipco", &ipco);

    // ipma
    let mut ipma_payload = vec![0u8; 4];
    isobmff::write_u32be(1, &mut ipma_payload);
    ipma_payload.extend_from_slice(&isobmff::make_ipma_entry(1, &[(1, true)], 0));
    let ipma_box = isobmff::make_box(b"ipma", &ipma_payload);

    let mut iprp = Vec::new();
    iprp.extend_from_slice(&ipco_box);
    iprp.extend_from_slice(&ipma_box);
    let iprp_box = isobmff::make_box(b"iprp", &iprp);

    let infe1 = isobmff::make_infe_box(1, "hvc1", 0);
    let mut iinf_payload = vec![0, 0, 0, 0];
    isobmff::write_u16be(if exif_blob.is_some() { 2 } else { 1 }, &mut iinf_payload);
    iinf_payload.extend_from_slice(&infe1);
    if exif_blob.is_some() {
        iinf_payload.extend_from_slice(&isobmff::make_infe_box(2, "Exif", 0));
    }
    let iinf_box = isobmff::make_box(b"iinf", &iinf_payload);

    let pitm_box = isobmff::make_pitm_box(0, 1);

    let mut iloc_entries = vec![IlocEntry {
        item_id: 1,
        construction_method: 0,
        data_reference_index: 0,
        extents: vec![(0, 4)],
    }];
    if let Some(blob) = &exif_blob {
        iloc_entries.push(IlocEntry {
            item_id: 2,
            construction_method: 1,
            data_reference_index: 0,
            extents: vec![(0, blob.len() as u64)],
        });
    }
    let iloc = isobmff::make_iloc_box(&iloc_entries);
    let idat_box = isobmff::make_box(b"idat", exif_blob.as_deref().unwrap_or(&[]));
    let hdlr = isobmff::make_box(b"hdlr", &[0u8; 8]);

    let mut meta_kids = Vec::new();
    meta_kids.extend_from_slice(&hdlr);
    meta_kids.extend_from_slice(&pitm_box);
    meta_kids.extend_from_slice(&iinf_box);
    meta_kids.extend_from_slice(&iloc);
    meta_kids.extend_from_slice(&iprp_box);
    meta_kids.extend_from_slice(&idat_box);
    let mut meta_payload = vec![0u8; 4];
    meta_payload.extend_from_slice(&meta_kids);
    out.extend_from_slice(&isobmff::make_box(b"meta", &meta_payload));

    out.extend_from_slice(&isobmff::make_box(b"mdat", &[0u8; 4]));

    out
}

fn heif_exif_blob(orientation: u16) -> Vec<u8> {
    let mut tiff = Vec::new();
    tiff.extend_from_slice(b"II");
    tiff.extend_from_slice(&42u16.to_le_bytes());
    tiff.extend_from_slice(&8u32.to_le_bytes());
    tiff.extend_from_slice(&1u16.to_le_bytes());
    tiff.extend_from_slice(&0x0112u16.to_le_bytes());
    tiff.extend_from_slice(&3u16.to_le_bytes());
    tiff.extend_from_slice(&1u32.to_le_bytes());
    tiff.extend_from_slice(&orientation.to_le_bytes());
    tiff.extend_from_slice(&[0, 0]);
    tiff.extend_from_slice(&0u32.to_le_bytes());

    let mut blob = 6u32.to_be_bytes().to_vec();
    blob.extend_from_slice(b"Exif\0\0");
    blob.extend_from_slice(&tiff);
    blob
}

fn stream() -> Vec<u8> {
    let nals: [&[u8]; 4] = [
        &[0x40, 0x01, 0x0c, 0x01],
        &[0x42, 0x01, 0x01, 0x03, 0x70],
        &[0x44, 0x01, 0xc1],
        &[0x26, 0x01, 0xaf, 0x09, 0x80],
    ];
    let mut out = Vec::new();
    for nal in nals {
        out.extend_from_slice(&[0, 0, 0, 1]);
        out.extend_from_slice(nal);
    }
    out
}

fn stored_slice() -> Vec<u8> {
    vec![0, 0, 0, 5, 0x26, 0x01, 0xaf, 0x09, 0x80]
}

fn rising() -> [u8; 256] {
    std::array::from_fn(|i| i as u8)
}

fn metadata(tmap_len: usize) -> GainMetadata {
    GainMetadata {
        tmap_payload: vec![7u8; tmap_len],
        xmp_bytes: b"<x:xmpmeta/>".to_vec(),
        base_clli: isobmff::make_clli_box(203, 100),
        tmap_clli: isobmff::make_clli_box(1000, 400),
    }
}

fn tail_for(compat: OppoCompat) -> OppoCameraTail {
    OppoCameraTail::default_for_compat(compat)
}

fn prepare(source: &[u8], compat: OppoCompat) -> PreparedTiles {
    prepare_lhdr_tiles(source, &[128u8; 16], 4, 4, &rising(), compat)
        .expect("source and mask are complete")
        .expect("tiles are prepared")
}

fn write(source: &[u8], compat: OppoCompat, tmap_len: usize) -> Vec<u8> {
    let prepared = prepare(source, compat);
    let chroma = tile_chroma(prepared.oppo_rgb, compat);
    assemble_prepared_tiles(
        source,
        &prepared,
        &[stream()],
        chroma,
        metadata(tmap_len),
        compat,
        tail_for(compat),
    )
    .expect("source is complete")
    .expect("output is assembled")
}

fn parsed(file: &[u8]) -> isobmff::ParsedMeta {
    isobmff::parse_source_meta(file).expect("metadata is read")
}

fn item_of(meta: &isobmff::ParsedMeta, itype: &str) -> u32 {
    meta.items
        .iter()
        .find(|item| item.itype == itype)
        .unwrap_or_else(|| panic!("no {itype} item"))
        .item_id
}

fn extent_of(meta: &isobmff::ParsedMeta, id: u32) -> (u64, u64) {
    meta.iloc_entries
        .iter()
        .find(|e| e.item_id == id)
        .and_then(|e| e.extents.first())
        .copied()
        .expect("item has an extent")
}

fn associated_property<'a>(
    meta: &'a isobmff::ParsedMeta,
    item_id: u32,
    property_type: &str,
) -> &'a isobmff::PropertyInfo {
    let association = meta
        .ipma_entries
        .iter()
        .find(|entry| entry.item_id == item_id)
        .unwrap_or_else(|| panic!("item {item_id} has no property associations"));
    let (property_index, _) = association
        .associations
        .iter()
        .find(|(index, _)| {
            meta.props
                .iter()
                .any(|property| property.index == *index && property.ptype == property_type)
        })
        .unwrap_or_else(|| panic!("item {item_id} has no {property_type} property"));
    meta.props
        .iter()
        .find(|property| property.index == *property_index)
        .expect("associated property is present in ipco")
}

fn first_tile_of(meta: &isobmff::ParsedMeta, grid_id: u32) -> u32 {
    meta.refs
        .iter()
        .find(|r| r.rtype == "dimg" && r.from == grid_id)
        .and_then(|r| r.to.first())
        .copied()
        .expect("grid references a tile")
}

#[test]
fn output_row_alignment() {
    for w in [1, 63, 64, 128, 255, 256, 257, 512] {
        let height = 4;
        let mask = vec![128u8; w * height];
        let output = apply_gains(&mask, w, height, w, &rising());
        let expected_row = align_up(w, 256);
        assert_eq!(output.len(), expected_row * height, "width={w}");
    }
}

#[test]
fn gains_replace_mask_values_and_rows_are_padded() {
    let mut gains = [0u8; 256];
    gains[1] = 10;
    gains[2] = 20;
    let out = apply_gains(&[1, 2, 99, 2, 1, 99], 2, 2, 3, &gains);
    assert_eq!(out.len(), 512);
    assert_eq!((out[0], out[1], out[2]), (10, 20, 0));
    assert_eq!((out[256], out[257], out[258]), (20, 10, 0));
    assert_eq!(try_apply_gains(&[1, 2, 3], 2, 2, 2, &gains), None);
}

#[test]
fn gray_tiles_are_prepared_with_their_geometry() {
    let source = make_minimal_heic();
    let prepared = prepare(&source, OppoCompat::Off);
    assert_eq!(prepared.rows, 1);
    assert_eq!(prepared.cols, 1);
    assert_eq!(prepared.gain_width, 4);
    assert_eq!(prepared.gain_height, 4);
    assert!(!prepared.oppo_rgb);
    assert_eq!(prepared.tiles[0], vec![128u8; 512 * 512]);
    let yuv = pack_gray_tiles(&prepared);
    let per_tile = 512 * 512 + 256 * 256 + 256 * 256;
    assert_eq!(yuv.len(), per_tile, "single gray tile in 4:2:0 YUV");
}

#[test]
fn oppo_tiles_are_rgb() {
    let prepared = prepare(&make_minimal_heic(), OppoCompat::On);
    assert!(prepared.oppo_rgb);
    assert_eq!(prepared.tiles[0].len(), 512 * 512 * 3);
}

#[test]
fn masks_take_the_orientation_of_the_source() {
    let source = make_minimal_heic_with_exif_orientation(Some(6));
    let prepared = prepare_lhdr_tiles(&source, &[1, 2, 3, 4, 5, 6], 3, 2, &rising(), OppoCompat::Off)
        .unwrap()
        .unwrap();
    assert_eq!((prepared.gain_width, prepared.gain_height), (2, 3));
    let tile = &prepared.tiles[0];
    assert_eq!((tile[0], tile[1]), (4, 1));
    assert_eq!((tile[1024], tile[1025]), (6, 3));
}

#[test]
fn incomplete_sources_and_masks_are_told() {
    let junk = prepare_lhdr_tiles(&[0u8; 4], &[0; 16], 4, 4, &rising(), OppoCompat::Off);
    assert_eq!(junk.unwrap().err().as_deref(), Some("meta missing"));
    let source = make_minimal_heic();
    assert!(prepare_lhdr_tiles(&source, &[0; 15], 4, 4, &rising(), OppoCompat::Off).is_none());
    let undecoded = prepare_uhdr_tiles(&source, b"no jpeg").unwrap().err().unwrap();
    assert!(undecoded.starts_with("UHDR gain map JPEG decode failed: "));
}

#[test]
fn gain_map_jpegs_are_decoded_and_cut() {
    let mut jpeg = vec![0xff, 0xd8, 0xff, 0xdb, 0x00, 0x43, 0x00];
    jpeg.extend_from_slice(&[1u8; 64]);
    jpeg.extend_from_slice(&[0xff, 0xc0, 0, 11, 8, 0, 6, 0, 7, 1, 1, 0x11, 0]);
    for class in [0x00u8, 0x10] {
        jpeg.extend_from_slice(&[0xff, 0xc4, 0, 20, class, 1]);
        jpeg.extend_from_slice(&[0u8; 16]);
    }
    jpeg.extend_from_slice(&[0xff, 0xda, 0, 8, 1, 1, 0x00, 0, 63, 0, 0x3f, 0xff, 0xd9]);
    let prepared = prepare_uhdr_tiles(&make_minimal_heic(), &jpeg).unwrap().unwrap();
    assert!(prepared.oppo_rgb);
    assert_eq!((prepared.gain_width, prepared.gain_height), (7, 6));
    assert_eq!((prepared.cols, prepared.rows), (1, 1));
    assert!(prepared.tiles[0] == vec![128u8; 512 * 512 * 3]);
}

#[test]
fn decoded_gain_maps_are_cut_in_storage_orientation() {
    let source = make_minimal_heic();
    let pixels: Vec<u8> = (0..18).collect();
    let prepared = tile_uhdr_gain_map(&source, Ok((pixels, 3, 2))).unwrap().unwrap();
    assert!(prepared.oppo_rgb);
    assert_eq!((prepared.gain_width, prepared.gain_height), (3, 2));
    assert_eq!(&prepared.tiles[0][..9], &[0, 1, 2, 3, 4, 5, 6, 7, 8]);
    assert_eq!(&prepared.tiles[0][9..12], &[6, 7, 8], "right edge is replicated");
}

#[test]
fn written_outputs_have_their_boxes() {
    let written = write(&make_minimal_heic(), OppoCompat::Off, 62);
    assert!(written.len() > 100, "output should be > 100 bytes");
    let boxes = isobmff::parse_boxes(&written, 0, written.len());
    assert!(boxes.iter().any(|b| &b.btype == b"ftyp"), "ftyp missing");
    assert!(boxes.iter().any(|b| &b.btype == b"meta"), "meta missing");
    assert!(boxes.iter().any(|b| &b.btype == b"mdat"), "mdat missing");
}

#[test]
fn gain_maps_declare_their_channels() {
    let mono = parsed(&write(&make_minimal_heic(), OppoCompat::Off, 62));
    let grid = item_of(&mono, "grid");
    assert_eq!(associated_property(&mono, grid, "pixi").raw, isobmff::PIXI_RGB8_BOX);
    assert_eq!(associated_property(&mono, grid, "colr").raw, isobmff::COLR_SRGB_BOX);
    let tile = first_tile_of(&mono, grid);
    assert_eq!(associated_property(&mono, tile, "colr").raw, isobmff::COLR_SRGB_BOX);

    let rgb = parsed(&write(&make_minimal_heic(), OppoCompat::On, 62));
    let grid = item_of(&rgb, "grid");
    assert_eq!(associated_property(&rgb, grid, "pixi").raw, isobmff::PIXI_RGB8_BOX);
    assert_eq!(
        associated_property(&rgb, grid, "colr").raw,
        isobmff::COLR_UNSPECIFIED_BT601_BOX
    );
    let tile = first_tile_of(&rgb, grid);
    assert_eq!(
        associated_property(&rgb, tile, "colr").raw,
        isobmff::COLR_UNSPECIFIED_BT601_BOX
    );
}

#[test]
fn the_tone_map_payload_is_an_item() {
    let written = write(&make_minimal_heic(), OppoCompat::Off, 65);
    let meta = parsed(&written);
    assert_eq!(extent_of(&meta, item_of(&meta, "tmap")).1, 65);
}

#[test]
fn outputs_turn_as_the_exif_data_says() {
    let source = make_minimal_heic_with_exif_orientation(Some(6));
    let meta = parsed(&write(&source, OppoCompat::Off, 62));
    let primary_irot = associated_property(&meta, meta.primary_id, "irot");
    assert_eq!(isobmff::irot_quarter_turns(&primary_irot.raw).unwrap(), 3);
    let tmap = item_of(&meta, "tmap");
    let tmap_irot = associated_property(&meta, tmap, "irot");
    assert_eq!(isobmff::irot_quarter_turns(&tmap_irot.raw).unwrap(), 3);
    let tmap_ispe = associated_property(&meta, tmap, "ispe");
    assert_eq!(isobmff::ispe_dimensions(&tmap_ispe.raw).unwrap(), (512, 256));
}

#[test]
fn assembled_outputs_verify() {
    for compat in [OppoCompat::Off, OppoCompat::On, OppoCompat::Iso] {
        let written = write(&make_minimal_heic(), compat, 62);
        assert!(verify_iso_gain_map(&written));
    }
    assert!(!verify_iso_gain_map(&make_minimal_heic()));
}

#[test]
fn tiles_and_source_media_stand_where_they_are_said_to() {
    let source = make_minimal_heic();
    let written = write(&source, OppoCompat::Off, 62);
    let meta = parsed(&written);
    let tile = first_tile_of(&meta, item_of(&meta, "grid"));
    let (offset, length) = extent_of(&meta, tile);
    let (offset, length) = (offset as usize, length as usize);
    assert_eq!(&written[offset..offset + length], stored_slice());
    let top = isobmff::parse_boxes(&written, 0, written.len());
    assert!(top.iter().any(|b| &b.btype == b"mdat" && b.data_end >= offset + length));
    let old = parsed(&source);
    assert_eq!(meta.primary_id, old.primary_id);
    assert!(old.items.iter().all(|i| meta.items.iter().any(|n| n.item_id == i.item_id)));
    assert!(meta.props.len() > old.props.len());
    assert_eq!(meta.props[0].raw, old.props[0].raw);
}

#[test]
fn channels_fit_the_chroma_of_their_tiles() {
    let codec = |chroma_format_idc| HvcCProfile {
        general_profile_idc: 4,
        chroma_format_idc,
        luma_bit_depth: 8,
        chroma_bit_depth: 8,
    };
    assert_eq!(check_channels(&vec![8], codec(0)), None);
    assert_eq!(check_channels(&vec![8], codec(1)), None);
    assert_eq!(check_channels(&vec![8, 8, 8], codec(3)), None);
    for (depths, chroma) in [(vec![8], 2), (vec![8], 3), (vec![8, 8, 8], 0)] {
        let fault = check_channels(&depths, codec(chroma)).unwrap();
        assert!(fault.contains(&format!("declares {} channels", depths.len())));
        assert!(fault.contains(&format!("chroma_format_idc {chroma} cannot carry it")));
    }
    let fault = check_channels(&vec![10], codec(1)).unwrap();
    assert!(fault.contains("bit depths [10] disagree with hvcC 8/8"));
}

#[test]
fn junk_has_no_gain_map_structure() {
    let outcome = try_validate_gain_map_structure(&make_minimal_heic()).unwrap();
    assert!(outcome.is_err());
}

#[test]
fn streams_without_parameter_sets_leave_the_configuration_empty() {
    let source = make_minimal_heic();
    let prepared = prepare(&source, OppoCompat::Off);
    let bare = vec![0u8, 0, 0, 1, 0x26, 0x01, 0xaf];
    let outcome = assemble_prepared_tiles(
        &source,
        &prepared,
        &[bare],
        0,
        metadata(62),
        OppoCompat::Off,
        tail_for(OppoCompat::Off),
    );
    let written = outcome.unwrap().unwrap();
    let meta = parsed(&written);
    let tile = first_tile_of(&meta, item_of(&meta, "grid"));
    assert_eq!(associated_property(&meta, tile, "hvcC").raw.len(), 8);
    let cut = vec![0u8, 0, 0, 1];
    let outcome = assemble_prepared_tiles(
        &source,
        &prepared,
        &[cut],
        0,
        metadata(62),
        OppoCompat::Off,
        tail_for(OppoCompat::Off),
    );
    assert_eq!(outcome, None);
}
