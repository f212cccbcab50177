//! The core of a converter from ProXDR photos to ISO 21496-1 HDR photos: HEIF boxes and
//! items, Exif and maker notes, vendor tails, gain-map tiles, HEVC byte streams and Live
//! Photos.

pub mod assemble;
pub mod blob_laws;
pub mod block_laws;
pub mod bytes;
pub mod categorize;
pub mod class_laws;
pub mod comment_laws;
pub mod container;
pub mod container_build;
pub mod convert;
pub mod encoder;
pub mod exif;
pub mod extract_laws;
pub mod filter_laws;
pub mod fourcc;
pub mod frame_laws;
pub mod gain_laws;
pub mod gain_tiles;
pub mod gainmap;
pub mod graph_laws;
pub mod grid_laws;
pub mod hevc;
pub mod hvcc_laws;
pub mod inspect;
pub mod inspect_laws;
pub mod iso_validate;
pub mod isobmff;
pub mod isobmff_write;
pub mod items;
pub mod jpeg_decode;
pub mod lhdr;
pub mod linear_thumbnail;
pub mod live_movie;
pub mod live_photo;
pub mod makernote;
pub mod manifest;
pub mod marker_laws;
pub mod media_laws;
pub mod metadata_laws;
pub mod movie_laws;
pub mod nal_laws;
pub mod neutral_laws;
pub mod orient_laws;
pub mod output_laws;
pub mod output_media_laws;
pub mod pair_laws;
pub mod payload_laws;
pub mod policy_laws;
pub mod quicktime;
pub mod raster;
pub mod rebuild;
pub mod reopened;
pub mod report;
pub mod report_laws;
pub mod round_trip;
pub mod seqs;
pub mod spell_laws;
pub mod steps_laws;
pub mod tail_laws;
pub mod text;
pub mod thumb_laws;
pub mod tiff;
pub mod tiff_laws;
pub mod tiled_laws;
pub mod time_laws;
pub mod validate_laws;
pub mod writeback;
