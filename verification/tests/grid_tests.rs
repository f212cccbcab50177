use xdremux::container_build::{build_heic_grid, cut_frame, grid_size, try_build_heic_grid};
use xdremux::isobmff;
use xdremux::isobmff_write::read_exif_payload;
use xdremux::jpeg_decode::{jpeg_to_gray, jpeg_to_rgb, JpegFailure, JpegFormat, JpegImage};
use xdremux::linear_thumbnail::{
    crop_to_4_3, decodable_len, f32_to_f16, heif_to_rgb, light_cell, package_thumbnail,
    storage_ordered_light_map, undo_rotation, HeifImage, HeifPixels, RgbRaster,
};
use xdremux::raster::{gain_map_tiles, gray_to_rgb, tile_grid_dims};

fn stream(last: u8) -> Vec<u8> {
    let nals: [&[u8]; 4] = [
        &[0x40, 0x01, 0x0c, 0x01],
        &[0x42, 0x01, 0x01, 0x03, 0x70],
        &[0x44, 0x01, 0xc1],
        &[0x26, 0x01, 0xaf, 0x09, last],
    ];
    let mut out = Vec::new();
    for nal in nals {
        out.extend_from_slice(&[0, 0, 0, 1]);
        out.extend_from_slice(nal);
    }
    out
}

#[test]
fn grids_are_read_back() {
    let streams = vec![stream(0x81), stream(0x82)];
    let grid = build_heic_grid(&streams, 600, 400).unwrap();
    assert_eq!((grid.cols, grid.rows, grid.width, grid.height), (2, 1, 600, 400));
    let meta = isobmff::parse_source_meta(&grid.data).unwrap();
    assert_eq!(meta.primary_id, 1);
    let types: Vec<&str> = meta.items.iter().map(|i| i.itype.as_str()).collect();
    assert_eq!(types, vec!["grid", "Exif", "hvc1", "hvc1"]);
    assert_eq!(meta.refs[0].rtype, "dimg");
    assert_eq!(meta.refs[0].to, vec![3, 4]);
    assert_eq!(isobmff::ispe_dimensions(&meta.props[0].raw).unwrap(), (600, 400));
    for (i, last) in [0x81u8, 0x82].iter().enumerate() {
        let e = meta.iloc_entries.iter().find(|e| e.item_id == 3 + i as u32).unwrap();
        let (offset, length) = e.extents[0];
        let bytes = &grid.data[offset as usize..(offset + length) as usize];
        assert_eq!(bytes, &[0, 0, 0, 5, 0x26, 0x01, 0xaf, 0x09, *last]);
    }
    assert!(read_exif_payload(&grid.data).unwrap().unwrap().starts_with(b"\0\0\0\x06Exif\0\0MM"));
}

#[test]
fn full_frames_have_as_many_tiles_as_they_need() {
    let streams: Vec<Vec<u8>> = (0..48).map(|i| stream(0x80 + i)).collect();
    let grid = build_heic_grid(&streams, 4096, 3072).unwrap();
    assert_eq!((grid.cols, grid.rows), (8, 6));
    let meta = isobmff::parse_source_meta(&grid.data).unwrap();
    assert_eq!(meta.primary_id, 1);
    assert_eq!(meta.items.len(), 50);
    let dimg: Vec<_> = meta.refs.iter().filter(|r| r.rtype == "dimg").collect();
    assert_eq!(dimg.len(), 1);
    assert_eq!((dimg[0].from, dimg[0].to.clone()), (1, (3..51).collect::<Vec<u32>>()));
    for e in &meta.iloc_entries {
        let (offset, length) = e.extents[0];
        assert!((offset + length) as usize <= grid.data.len());
    }
    let (offset, length) = meta.iloc_entries.iter().find(|e| e.item_id == 50).unwrap().extents[0];
    assert_eq!(
        &grid.data[offset as usize..(offset + length) as usize],
        &[0, 0, 0, 5, 0x26, 0x01, 0xaf, 0x09, 0x80 + 47]
    );
}

#[test]
fn grids_need_a_stream_for_each_tile() {
    assert!(try_build_heic_grid(&vec![stream(1)], 600, 400).is_none());
    assert!(try_build_heic_grid(&vec![], 0, 400).is_none());
    let bare = vec![vec![0u8, 0, 0, 1, 0x26, 0x01]];
    assert_eq!(
        try_build_heic_grid(&bare, 4, 4).unwrap().err().as_deref(),
        Some("tile hvcC extraction failed")
    );
    assert_eq!(grid_size(513, 512), Some((2, 1)));
    assert_eq!(grid_size(512 * 41, 1), Some((41, 1)));
    assert_eq!(grid_size(512 * 256, 512), Some((256, 1)));
    assert_eq!(grid_size(512 * 257, 1), None);
}

#[test]
fn frames_are_cut_with_black_beyond_their_edges() {
    let rgb: Vec<u8> = (0..27).map(|i| i + 1).collect();
    let tiles = cut_frame(&rgb, 3, 3).unwrap();
    assert_eq!(tiles.len(), 1);
    assert_eq!(&tiles[0][..10], &[1, 2, 3, 4, 5, 6, 7, 8, 9, 0]);
    assert_eq!(&tiles[0][1536..1539], &[10, 11, 12]);
    assert!(tiles[0][3 * 1536..].iter().all(|b| *b == 0));
    assert_eq!(cut_frame(&rgb[..26], 3, 3), None);
}

#[test]
fn tiles_cover_a_raster() {
    assert_eq!(tile_grid_dims(512, 513), (1, 2));
    let pixels: Vec<u8> = (0..600 * 2).map(|i| (i % 251) as u8).collect();
    let tiles = gain_map_tiles(&pixels, 600, 2, 1, 600).unwrap();
    assert_eq!(tiles.len(), 2);
    assert_eq!(tiles[1][0], pixels[512]);
    assert_eq!(tiles[1][512], pixels[600 + 512]);
    assert_eq!(gray_to_rgb(&[1, 2]), vec![1, 1, 1, 2, 2, 2]);
}

fn raster() -> RgbRaster {
    RgbRaster {
        pixels: (0..18).collect(),
        width: 3,
        height: 2,
    }
}

#[test]
fn four_turns_are_none() {
    let mut r = raster();
    for _ in 0..4 {
        r = undo_rotation(r, 1);
    }
    assert_eq!(r.pixels, raster().pixels);
    assert_eq!((r.width, r.height), (3, 2));
    let twice = undo_rotation(undo_rotation(raster(), 1), 1);
    assert_eq!(twice.pixels, undo_rotation(raster(), 2).pixels);
    assert_eq!(undo_rotation(raster(), 2).pixels[..3], [15, 16, 17]);
}

#[test]
fn crops_keep_the_middle() {
    let wide = RgbRaster {
        pixels: vec![0; 3 * 80 * 30],
        width: 80,
        height: 30,
    };
    let r = crop_to_4_3(wide);
    assert_eq!((r.width, r.height), (40, 30));
    assert_eq!(r.pixels.len(), 3 * 40 * 30);
}

#[test]
fn light_maps_are_turned_into_storage_order() {
    let map: Vec<u8> = (0..32 * 32 * 2).map(|i| (i % 253) as u8).collect();
    let turned = storage_ordered_light_map(&map, 3);
    assert_eq!(storage_ordered_light_map(&turned, 3), map);
    assert_ne!(turned, map);
    assert_eq!(light_cell(0, 64), (0, 2));
}

#[test]
fn half_floats_are_exact() {
    assert_eq!(f32_to_f16(1.0f32.to_bits()), 0x3c00);
    assert_eq!(f32_to_f16((-2.0f32).to_bits()), 0xc000);
    assert_eq!(f32_to_f16(65504.0f32.to_bits()), 0x7bff);
    assert_eq!(f32_to_f16(f32::INFINITY.to_bits()), 0x7c00);
    assert_eq!(f32_to_f16(0), 0);
}

#[test]
fn thumbnails_are_packaged() {
    let (payload, hvcc) = package_thumbnail(&stream(0x80)).unwrap().unwrap();
    assert_eq!(payload, vec![0, 0, 0, 5, 0x26, 0x01, 0xaf, 0x09, 0x80]);
    assert_eq!(hvcc[0], 1);
    assert!(package_thumbnail(&[0, 0, 0, 1, 0x26, 0x01]).unwrap().is_err());
}

#[test]
fn decoded_jpegs_become_gray_and_rgb() {
    let gray = || JpegImage {
        pixels: vec![5, 6],
        width: 2,
        height: 1,
        format: JpegFormat::Gray8,
    };
    assert_eq!(jpeg_to_gray(Ok(gray())), Ok((vec![5, 6], 2, 1)));
    assert_eq!(jpeg_to_rgb(Ok(gray())), Ok((vec![5, 5, 5, 6, 6, 6], 2, 1)));
    let rgb = JpegImage {
        pixels: vec![1, 2, 3],
        width: 1,
        height: 1,
        format: JpegFormat::Rgb,
    };
    assert_eq!(jpeg_to_rgb(Ok(rgb)), Ok((vec![1, 2, 3], 1, 1)));
    assert!(jpeg_to_gray(Err(JpegFailure::NoInfo)).is_err());
    assert!(jpeg_to_rgb(Err(JpegFailure::Decode("bad".into()))).unwrap_err().contains("bad"));
}

#[test]
fn decoded_photos_become_rgb() {
    let image = |pixels| HeifImage {
        width: 1,
        height: 1,
        pixels,
    };
    let pixels = |p| heif_to_rgb(Ok(image(p))).unwrap().pixels;
    assert_eq!(pixels(HeifPixels::Rgb8(vec![1, 2, 3])), vec![1, 2, 3]);
    assert_eq!(pixels(HeifPixels::Rgba8(vec![1, 2, 3, 4])), vec![1, 2, 3]);
    assert!(heif_to_rgb(Err("bad".into())).is_err());
    let mut file = isobmff::make_box(b"ftyp", b"heic");
    let whole = file.len();
    file.extend_from_slice(&[0, 1, 0, 0, b'j', b'x', b'r', b's', 0]);
    assert_eq!(decodable_len(&file), whole);
    assert_eq!(decodable_len(b"no photo"), 8);
}
