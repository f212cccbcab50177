use xdremux::exif::ExifOrientation;
use xdremux::isobmff::{self, IlocEntry};
use xdremux::isobmff_write::{build_padded_gain_tile, orient_gainmap_pixels, GAIN_TILE_SIZE};

#[test]
fn orient_gainmap_applies_all_exif_transforms() {
    // Two 3-pixel rows with one byte of padding each. The transform must
    // ignore the padding and emit a tightly packed raster.
    let input = [1, 2, 3, 99, 4, 5, 6, 99];
    let cases = [
        (ExifOrientation::Normal, (3, 2), vec![1, 2, 3, 4, 5, 6]),
        (
            ExifOrientation::FlipHorizontal,
            (3, 2),
            vec![3, 2, 1, 6, 5, 4],
        ),
        (ExifOrientation::Rotate180, (3, 2), vec![6, 5, 4, 3, 2, 1]),
        (
            ExifOrientation::FlipVertical,
            (3, 2),
            vec![4, 5, 6, 1, 2, 3],
        ),
        (ExifOrientation::Transpose, (2, 3), vec![1, 4, 2, 5, 3, 6]),
        (
            ExifOrientation::Rotate90Clockwise,
            (2, 3),
            vec![4, 1, 5, 2, 6, 3],
        ),
        (ExifOrientation::Transverse, (2, 3), vec![6, 3, 5, 2, 4, 1]),
        (
            ExifOrientation::Rotate90CounterClockwise,
            (2, 3),
            vec![3, 6, 2, 5, 1, 4],
        ),
    ];

    for (orientation, dimensions, expected) in cases {
        let (output, width, height) =
            orient_gainmap_pixels(&input, 3, 2, 1, 4, orientation).unwrap();
        assert_eq!((width, height), dimensions, "{orientation:?}");
        assert_eq!(output, expected, "{orientation:?}");
    }
}

#[test]
fn orient_gainmap_preserves_multibyte_pixels() {
    let input = [1, 2, 3, 4, 5, 6];
    let (output, width, height) =
        orient_gainmap_pixels(&input, 2, 1, 3, 6, ExifOrientation::FlipHorizontal).unwrap();
    assert_eq!((width, height), (2, 1));
    assert_eq!(output, vec![4, 5, 6, 1, 2, 3]);
}

#[test]
fn edge_tiles_preserve_origin_and_pad_only_bottom_right() {
    let width = 513u32;
    let height = 515u32;
    let pixels: Vec<u8> = (0..height)
        .flat_map(|y| (0..width).map(move |x| ((y * 31 + x * 17) % 251) as u8))
        .collect();
    let at = |x: u32, y: u32| pixels[(y * width + x) as usize];

    let origin = build_padded_gain_tile(&pixels, width, height, 1, width as usize, 0, 0)
        .expect("origin tile");
    assert_eq!(origin[0], at(0, 0));
    assert_eq!(origin[511 * GAIN_TILE_SIZE as usize + 511], at(511, 511));

    let edge = build_padded_gain_tile(
        &pixels,
        width,
        height,
        1,
        width as usize,
        GAIN_TILE_SIZE,
        GAIN_TILE_SIZE,
    )
    .expect("bottom-right edge tile");
    let row = GAIN_TILE_SIZE as usize;
    assert_eq!(edge[0], at(512, 512));
    assert_eq!(edge[2 * row], at(512, 514));
    assert_eq!(edge[row - 1], at(512, 512), "right edge is replicated");
    assert_eq!(edge[2 * row + row - 1], at(512, 514));
    assert_eq!(
        edge[(row - 1) * row],
        at(512, 514),
        "bottom edge is replicated"
    );
    assert_eq!(edge[row * row - 1], at(512, 514));

    let grid = isobmff::make_grid_box(GAIN_TILE_SIZE, GAIN_TILE_SIZE, 2, 2, width, height);
    assert_eq!(&grid[10..12], &[1, 1], "two rows and columns");
    assert_eq!(isobmff::read_u16be(&grid, 12), width as u16);
    assert_eq!(isobmff::read_u16be(&grid, 14), height as u16);
}

/// Build a minimal valid ISOBMFF HEIC buffer for testing.
fn make_minimal_heic() -> Vec<u8> {
    make_minimal_heic_with_exif_orientation(None)
}

fn make_minimal_heic_with_exif_orientation(orientation: Option<u16>) -> Vec<u8> {
    let mut out = Vec::new();
    let exif_blob = orientation.map(heif_exif_blob);

    // ftyp
    let mut ftyp_payload = Vec::new();
    ftyp_payload.extend_from_slice(b"heic");
    isobmff::write_u32be(0, &mut ftyp_payload);
    ftyp_payload.extend_from_slice(b"heic");
    ftyp_payload.extend_from_slice(b"mif1");
    out.extend_from_slice(&isobmff::make_box(b"ftyp", &ftyp_payload));

    // ipco with ispe
    let mut ipco = Vec::new();
    ipco.extend_from_slice(&isobmff::make_ispe_box(512, 256));
    let ipco_box = isobmff::make_box(b"ipco", &ipco);

    // ipma
    let mut ipma_payload = vec![0u8; 4];
    isobmff::write_u32be(1, &mut ipma_payload);
    ipma_payload.extend_from_slice(&isobmff::make_ipma_entry(1, &[(1, true)], 0));
    let ipma_box = isobmff::make_box(b"ipma", &ipma_payload);

    let mut iprp = Vec::new();
    iprp.extend_from_slice(&ipco_box);
    iprp.extend_from_slice(&ipma_box);
    let iprp_box = isobmff::make_box(b"iprp", &iprp);

    let infe1 = isobmff::make_infe_box(1, "hvc1", 0);
    let mut iinf_payload = vec![0, 0, 0, 0];
    isobmff::write_u16be(if exif_blob.is_some() { 2 } else { 1 }, &mut iinf_payload);
    iinf_payload.extend_from_slice(&infe1);
    if exif_blob.is_some() {
        iinf_payload.extend_from_slice(&isobmff::make_infe_box(2, "Exif", 0));
    }
    let iinf_box = isobmff::make_box(b"iinf", &iinf_payload);

    let pitm_box = isobmff::make_pitm_box(0, 1);

    let mut iloc_entries = vec![IlocEntry {
        item_id: 1,
        construction_method: 0,
        data_reference_index: 0,
        extents: vec![(0, 4)],
    }];
    if let Some(blob) = &exif_blob {
        iloc_entries.push(IlocEntry {
            item_id: 2,
            construction_method: 1,
            data_reference_index: 0,
            extents: vec![(0, blob.len() as u64)],
        });
    }
    let iloc = isobmff::make_iloc_box(&iloc_entries);
    let idat_box = isobmff::make_box(b"idat", exif_blob.as_deref().unwrap_or(&[]));
    let hdlr = isobmff::make_box(b"hdlr", &[0u8; 8]);

    let mut meta_kids = Vec::new();
    meta_kids.extend_from_slice(&hdlr);
    meta_kids.extend_from_slice(&pitm_box);
    meta_kids.extend_from_slice(&iinf_box);
    meta_kids.extend_from_slice(&iloc);
    meta_kids.extend_from_slice(&iprp_box);
    meta_kids.extend_from_slice(&idat_box);
    let mut meta_payload = vec![0u8; 4];
    meta_payload.extend_from_slice(&meta_kids);
    out.extend_from_slice(&isobmff::make_box(b"meta", &meta_payload));

    out.extend_from_slice(&isobmff::make_box(b"mdat", &[0u8; 4]));

    out
}

fn heif_exif_blob(orientation: u16) -> Vec<u8> {
    let mut tiff = Vec::new();
    tiff.extend_from_slice(b"II");
    tiff.extend_from_slice(&42u16.to_le_bytes());
    tiff.extend_from_slice(&8u32.to_le_bytes());
    tiff.extend_from_slice(&1u16.to_le_bytes());
    tiff.extend_from_slice(&0x0112u16.to_le_bytes());
    tiff.extend_from_slice(&3u16.to_le_bytes());
    tiff.extend_from_slice(&1u32.to_le_bytes());
    tiff.extend_from_slice(&orientation.to_le_bytes());
    tiff.extend_from_slice(&[0, 0]);
    tiff.extend_from_slice(&0u32.to_le_bytes());

    let mut blob = 6u32.to_be_bytes().to_vec();
    blob.extend_from_slice(b"Exif\0\0");
    blob.extend_from_slice(&tiff);
    blob
}

#[test]
fn parse_heic_roundtrip() {
    let source = make_minimal_heic();
    let top = isobmff::parse_boxes(&source, 0, source.len());
    assert!(top.iter().any(|b| &b.btype == b"ftyp"));
    assert!(top.iter().any(|b| &b.btype == b"meta"));
    assert!(top.iter().any(|b| &b.btype == b"mdat"));
}
