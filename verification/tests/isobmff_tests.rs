use xdremux::isobmff::{
    has_lossy_iso_gainmap_420_in_meta, ispe_dimensions, make_box, make_ftyp_box, make_grid_box,
    make_grpl_altr_box, make_iloc_box, make_imageio_canonical_tmap_ispe_box, make_infe_box,
    make_ipma_entry, make_iref_entry, make_irot_box, make_ispe_box, make_mime_infe_box,
    parse_boxes, parse_iloc, parse_pitm, read_u16be, read_u32be, write_u16be, write_u32be,
    IlocEntry, IpmaEntry, IrefEntry, ParsedMeta, PropertyInfo, AUX_C_BOX, COLR_BT2020_PQ_BOX,
    COLR_SRGB_BOX, COLR_UNSPECIFIED_BT601_BOX, DINF_BOX, IROT_BOX, PIXI_MONO8_BOX,
    PIXI_RGB10_BOX, PIXI_RGB8_BOX,
};

#[test]
fn make_box_roundtrip() {
    let payload = b"\x00\x01\x02\x03";
    let box_bytes = make_box(b"ftyp", payload);
    assert!(box_bytes.len() >= 8);
    let size = read_u32be(&box_bytes, 0);
    assert_eq!(size as usize, box_bytes.len());
    assert_eq!(&box_bytes[4..8], b"ftyp");
    assert_eq!(&box_bytes[8..], payload);
}

#[test]
fn parse_empty_boxes() {
    let boxes = parse_boxes(&[], 0, 0);
    assert!(boxes.is_empty());
}

#[test]
fn parse_single_box() {
    // ftyp box: size=12, type="ftyp", payload=[0,0,0,0]
    let mut data = Vec::new();
    write_u32be(12, &mut data);
    data.extend_from_slice(b"ftyp");
    data.extend_from_slice(&[0u8; 4]);
    let boxes = parse_boxes(&data, 0, data.len());
    assert_eq!(boxes.len(), 1);
    assert_eq!(&boxes[0].btype, b"ftyp");
    assert_eq!(boxes[0].size, 12);
}

#[test]
fn iloc_v1_one_entry() {
    let entry = IlocEntry {
        item_id: 1,
        construction_method: 0,
        data_reference_index: 0,
        extents: vec![(0, 100)],
    };
    let iloc = make_iloc_box(&[entry]);
    // Parse it back
    let boxes = parse_boxes(&iloc, 0, iloc.len());
    assert_eq!(boxes.len(), 1);
    let parsed = parse_iloc(&iloc, &boxes[0]).unwrap();
    assert_eq!(parsed.len(), 1);
    assert_eq!(parsed[0].item_id, 1);
    assert_eq!(parsed[0].extents.len(), 1);
    assert_eq!(parsed[0].extents[0], (0, 100));
}

#[test]
fn base_offsets_are_part_of_extents() {
    let body = [
        1, 0, 0, 0, 0x44, 0x40, 0, 1, 0, 1, 0, 0, 0, 0, 0, 0, 1, 0, 0, 1, 0, 0, 0, 16, 0, 0, 0, 5,
    ];
    let iloc = make_box(b"iloc", &body);
    let boxes = parse_boxes(&iloc, 0, iloc.len());
    let parsed = parse_iloc(&iloc, &boxes[0]).unwrap();
    assert_eq!(parsed.len(), 1);
    assert_eq!((parsed[0].item_id, parsed[0].construction_method), (1, 0));
    assert_eq!(parsed[0].data_reference_index, 0);
    assert_eq!(parsed[0].extents, vec![(272, 5)]);
}

#[test]
fn ipma_entry_roundtrip() {
    let assocs = vec![(1, true), (2, false)];
    let entry = make_ipma_entry(1, &assocs, 0);
    // 16-bit item_id (2 bytes) + count(1) + 2 associations * 1 byte each
    assert!(entry.len() > 4);
}

#[test]
fn infe_hvc1_roundtrip() {
    let infe = make_infe_box(5, "hvc1", 1);
    // Should be a valid box
    assert!(infe.len() >= 8);
    assert_eq!(&infe[4..8], b"infe");

    // Verify it contains "hvc1"
    let hvc1_pos = infe.windows(4).position(|w| w == b"hvc1");
    assert!(hvc1_pos.is_some(), "infe should contain 'hvc1'");
}

#[test]
fn iref_entry_roundtrip() {
    let entry = make_iref_entry("dimg", 1, &[2, 3], false);
    // Should be a valid box
    assert!(entry.len() >= 8);
    assert_eq!(&entry[4..8], b"dimg");
}

#[test]
fn auxc_box_constant() {
    assert_eq!(AUX_C_BOX.len(), 40);
    assert_eq!(&AUX_C_BOX[4..8], b"auxC");
    // Check URN substring exists
    let urn = b"urn:iso:std:iso:ts:21496:-1";
    assert!(AUX_C_BOX.windows(urn.len()).any(|w| w == urn));
}

#[test]
fn dinf_box_present() {
    assert_eq!(&DINF_BOX[4..8], b"dinf");
    assert!(DINF_BOX.len() >= 36);
}

#[test]
fn static_boxes_correct_type() {
    assert_eq!(&IROT_BOX[4..8], b"irot");
    assert_eq!(&COLR_SRGB_BOX[4..8], b"colr");
    assert_eq!(&COLR_BT2020_PQ_BOX[4..8], b"colr");
    assert_eq!(&COLR_UNSPECIFIED_BT601_BOX[4..8], b"colr");
    assert_eq!(&PIXI_MONO8_BOX[4..8], b"pixi");
    assert_eq!(&PIXI_RGB8_BOX[4..8], b"pixi");
    assert_eq!(&PIXI_RGB10_BOX[4..8], b"pixi");
}

#[test]
fn make_ftyp_appends_brands() {
    // Original ftyp payload: major="heic", minor=0, brands=["heic","mif1"]
    let mut original = Vec::new();
    original.extend_from_slice(b"heic"); // major brand
    write_u32be(0, &mut original); // minor version
    original.extend_from_slice(b"heic");
    original.extend_from_slice(b"mif1");

    let new_ftyp = make_ftyp_box(&original);
    // The gain-map brands by which readers recognise the file are added.
    let new_str = String::from_utf8_lossy(&new_ftyp);
    assert!(new_str.contains("tmap"));
    assert!(new_str.contains("MiHE"));
    assert!(new_str.contains("MiHB"));
}

#[test]
fn ispe_box_dimensions() {
    let ispe = make_ispe_box(512, 1024);
    let boxes = parse_boxes(&ispe, 0, ispe.len());
    assert_eq!(boxes.len(), 1);
    assert_eq!(&boxes[0].btype, b"ispe");
    // Payload should be 12 bytes: version(4) + width(4) + height(4)
    assert_eq!(boxes[0].data_end - boxes[0].data_start, 12);
    let w = read_u32be(&ispe, boxes[0].data_start + 4);
    let h = read_u32be(&ispe, boxes[0].data_start + 8);
    assert_eq!(w, 512);
    assert_eq!(h, 1024);
}

/// The tmap keeps the primary's storage dimensions; ImageIO only applies
/// the primary's `irot` at display time, so the tmap ispe must not be
/// transposed by it. Apple portrait files keep a
/// 4284x5712 tmap beside a 4284x5712 primary and a 2142x2856 gain map.
#[test]
fn canonical_tmap_ispe_keeps_primary_storage_dimensions() {
    let primary_ispe = make_ispe_box(4000, 3000);
    let even = make_imageio_canonical_tmap_ispe_box(&primary_ispe, &make_irot_box(2)).unwrap();
    let odd = make_imageio_canonical_tmap_ispe_box(&primary_ispe, &make_irot_box(3)).unwrap();
    assert_eq!(ispe_dimensions(&even).unwrap(), (4000, 3000));
    assert_eq!(ispe_dimensions(&odd).unwrap(), (4000, 3000));
}

#[test]
fn grpl_altr_box() {
    let grpl = make_grpl_altr_box(100, 50, 1);
    assert!(grpl.len() > 8);
    assert_eq!(&grpl[4..8], b"grpl");
    // Should contain "altr" child
    assert!(grpl.windows(4).any(|w| w == b"altr"));
}

#[test]
fn parse_multiple_boxes() {
    let mut data = Vec::new();
    // Box 1: ftyp
    write_u32be(12, &mut data);
    data.extend_from_slice(b"ftyp");
    data.extend_from_slice(b"xxxx");
    // Box 2: mdat (empty)
    write_u32be(8, &mut data);
    data.extend_from_slice(b"mdat");
    // Box 3: free
    write_u32be(16, &mut data);
    data.extend_from_slice(b"free");
    data.extend_from_slice(&[0u8; 8]);

    let boxes = parse_boxes(&data, 0, data.len());
    assert_eq!(boxes.len(), 3);
    assert_eq!(&boxes[0].btype, b"ftyp");
    assert_eq!(&boxes[1].btype, b"mdat");
    assert_eq!(&boxes[2].btype, b"free");
}

#[test]
fn read_write_u32be() {
    let mut buf = Vec::new();
    write_u32be(0xDEAD_BEEF, &mut buf);
    assert_eq!(buf.len(), 4);
    assert_eq!(read_u32be(&buf, 0), 0xDEAD_BEEF);
}

#[test]
fn read_write_u16be() {
    let mut buf = Vec::new();
    write_u16be(0xABCD, &mut buf);
    assert_eq!(buf.len(), 2);
    assert_eq!(read_u16be(&buf, 0), 0xABCD);
}

#[test]
fn parse_pitm_v0() {
    // Version 0 pitm: version(1) flags(3) item_id(2)
    let mut payload = vec![0u8, 0, 0, 0];
    write_u16be(42, &mut payload);
    let box_bytes = make_box(b"pitm", &payload);
    let boxes = parse_boxes(&box_bytes, 0, box_bytes.len());
    let id = parse_pitm(&box_bytes, &boxes[0]);
    assert_eq!(id, 42);
}

#[test]
fn parse_pitm_v1() {
    // Version 1 pitm: version(1) flags(3) item_id(4)
    let mut payload = vec![1u8, 0, 0, 0];
    write_u32be(4242, &mut payload);
    let box_bytes = make_box(b"pitm", &payload);
    let boxes = parse_boxes(&box_bytes, 0, box_bytes.len());
    let id = parse_pitm(&box_bytes, &boxes[0]);
    assert_eq!(id, 4242);
}

#[test]
fn grid_box_structure() {
    let grid = make_grid_box(512, 512, 2, 2, 1024, 1024);
    assert!(&grid[4..8] == b"grid");
    // Compact payload: version(1)+flags(1)+rows_m1(1)+cols_m1(1)+w(2)+h(2) = 8 bytes
    let boxes = parse_boxes(&grid, 0, grid.len());
    assert_eq!(boxes[0].data_end - boxes[0].data_start, 8);
}

#[test]
fn make_infe_contains_type() {
    let infe = make_infe_box(10, "tmap", 0);
    assert!(infe.windows(4).any(|w| w == b"tmap"));

    let infe = make_infe_box(11, "grid", 1);
    assert!(infe.windows(4).any(|w| w == b"grid"));
}

fn test_hvcc(chroma_format_idc: u8) -> Vec<u8> {
    let mut raw = vec![0u8; 25];
    raw[4..8].copy_from_slice(b"hvcC");
    raw[24] = chroma_format_idc;
    raw
}

fn test_iso_gainmap_meta(chroma_format_idc: u8) -> ParsedMeta {
    ParsedMeta {
        iloc_entries: Vec::new(),
        ipma_entries: vec![
            IpmaEntry {
                item_id: 20,
                associations: vec![(1, true)],
            },
            IpmaEntry {
                item_id: 21,
                associations: vec![(2, true)],
            },
        ],
        ipma_flags: 0,
        items: Vec::new(),
        refs: vec![
            IrefEntry {
                rtype: "auxl".into(),
                from: 20,
                to: vec![1],
            },
            IrefEntry {
                rtype: "dimg".into(),
                from: 20,
                to: vec![21],
            },
        ],
        props: vec![
            PropertyInfo {
                index: 1,
                ptype: "auxC".into(),
                raw: AUX_C_BOX.to_vec(),
            },
            PropertyInfo {
                index: 2,
                ptype: "hvcC".into(),
                raw: test_hvcc(chroma_format_idc),
            },
        ],
        primary_id: 1,
        pitm_version: 0,
        iinf_version: 0,
    }
}

#[test]
fn detects_only_iso_gain_tiles_with_420_chroma() {
    assert!(has_lossy_iso_gainmap_420_in_meta(&test_iso_gainmap_meta(1)));
    assert!(!has_lossy_iso_gainmap_420_in_meta(&test_iso_gainmap_meta(
        3
    )));

    let mut only_primary_is_420 = test_iso_gainmap_meta(3);
    only_primary_is_420.ipma_entries.push(IpmaEntry {
        item_id: 1,
        associations: vec![(2, true)],
    });
    assert!(!has_lossy_iso_gainmap_420_in_meta(&only_primary_is_420));
}

#[test]
fn make_mime_infe() {
    let infe = make_mime_infe_box(20, 1);
    assert!(infe.windows(4).any(|w| w == b"mime"));
    assert!(infe.windows(9).any(|w| w == b"hdrgm-xmp"));
}
