//! What the tile encoder is asked for and what becomes of its streams.

use crate::bytes::append;
use crate::hevc::{slices_from, try_drop_parameter_nals};
use crate::seqs::{told, views};
use vstd::prelude::*;
use vstd::string::*;

verus! {

/// The settings of an encoder: a preset, parameters, a profile, and parameters that are set
/// once the profile is applied.
pub struct EncoderSettings {
    pub preset: &'static str,
    pub profile: &'static str,
    pub before_profile: Vec<(&'static str, &'static str)>,
    pub after_profile: Vec<(&'static str, &'static str)>,
}

/// What the settings of an encoder say.
#[verifier::ext_equal]
pub struct SettingsView {
    pub preset: Seq<char>,
    pub profile: Seq<char>,
    pub before_profile: Seq<(Seq<char>, Seq<char>)>,
    pub after_profile: Seq<(Seq<char>, Seq<char>)>,
}

/// The texts of parameters.
pub open spec fn texts(p: Seq<(&'static str, &'static str)>) -> Seq<(Seq<char>, Seq<char>)> {
    Seq::new(p.len(), |i: int| (p[i].0@, p[i].1@))
}

impl View for EncoderSettings {
    type V = SettingsView;

    open spec fn view(&self) -> SettingsView {
        SettingsView {
            preset: self.preset@,
            profile: self.profile@,
            before_profile: texts(self.before_profile@),
            after_profile: texts(self.after_profile@),
        }
    }
}

/// The parameters of every encoder: one frame, a keyframe, at full range.
pub open spec fn first_params(csp: Seq<char>, rgb: bool, headers: Seq<char>) -> Seq<
    (Seq<char>, Seq<char>),
> {
    seq![
        ("input-csp"@, csp),
        ("fps"@, "1"@),
        (
            "crf"@,
            if rgb {
                "14"@
            } else {
                "18"@
            },
        ),
        ("range"@, "full"@),
        ("repeat-headers"@, headers),
        ("keyint"@, "1"@),
    ]
}

/// The parameters of colour tiles. Tiles of OPPO photos hold BT.601 data.
pub open spec fn colour_params(oppo: bool) -> Seq<(Seq<char>, Seq<char>)> {
    if oppo {
        seq![
            ("colormatrix"@, "smpte170m"@),
            ("colorprim"@, "bt470bg"@),
            ("transfer"@, "iec61966-2-1"@),
            ("psy-rd"@, "0"@),
            ("aq-mode"@, "1"@),
        ]
    } else {
        seq![
            ("colormatrix"@, "bt709"@),
            ("colorprim"@, "bt709"@),
            ("transfer"@, "bt709"@),
            ("psy-rd"@, "0"@),
            ("aq-mode"@, "1"@),
        ]
    }
}

/// The profile of a tile.
pub open spec fn tile_profile(use_420: bool) -> Seq<char> {
    if use_420 {
        "mainstillpicture"@
    } else {
        "main444-8"@
    }
}

/// How the tiles of a batch are encoded. Gray tiles are monochrome unless 4:2:0 is asked
/// for, and parameter sets come once.
pub open spec fn batch_encoder(rgb: bool, use_420: bool, oppo: bool) -> SettingsView {
    SettingsView {
        preset: if !rgb {
            "ultrafast"@
        } else if oppo {
            "fast"@
        } else {
            "medium"@
        },
        profile: tile_profile(use_420),
        before_profile: first_params(
            if use_420 {
                "i420"@
            } else if rgb {
                "i444"@
            } else {
                "i400"@
            },
            rgb,
            "0"@,
        ),
        after_profile: seq![
            ("bframes"@, "0"@),
            ("rc-lookahead"@, "0"@),
            ("no-open-gop"@, "0"@),
        ] + if rgb {
            colour_params(oppo)
        } else {
            Seq::empty()
        },
    }
}

/// How a tile of its own is encoded. Gray tiles get chroma planes.
pub open spec fn tile_encoder(rgb: bool, use_420: bool) -> SettingsView {
    SettingsView {
        preset: if rgb {
            "medium"@
        } else {
            "ultrafast"@
        },
        profile: tile_profile(use_420),
        before_profile: first_params(
            if use_420 {
                "i420"@
            } else {
                "i444"@
            },
            rgb,
            "1"@,
        ),
        after_profile: (if rgb {
            colour_params(false)
        } else {
            Seq::empty()
        }) + seq![("frame-threads"@, "1"@), ("pools"@, "1"@)],
    }
}

fn make_first_params(csp: &'static str, rgb: bool, headers: &'static str) -> (r: Vec<
    (&'static str, &'static str),
>)
    ensures
        texts(r@) == first_params(csp@, rgb, headers@),
{
    let mut p: Vec<(&'static str, &'static str)> = Vec::new();
    p.push(("input-csp", csp));
    p.push(("fps", "1"));
    p.push(
        (
            "crf",
            if rgb {
                "14"
            } else {
                "18"
            },
        ),
    );
    p.push(("range", "full"));
    p.push(("repeat-headers", headers));
    p.push(("keyint", "1"));
    assert(texts(p@) =~= first_params(csp@, rgb, headers@));
    p
}

fn push_colour_params(p: &mut Vec<(&'static str, &'static str)>, oppo: bool)
    ensures
        texts(final(p)@) == texts(old(p)@) + colour_params(oppo),
{
    if oppo {
        p.push(("colormatrix", "smpte170m"));
        p.push(("colorprim", "bt470bg"));
        p.push(("transfer", "iec61966-2-1"));
    } else {
        p.push(("colormatrix", "bt709"));
        p.push(("colorprim", "bt709"));
        p.push(("transfer", "bt709"));
    }
    p.push(("psy-rd", "0"));
    p.push(("aq-mode", "1"));
    assert(texts(p@) =~= texts(old(p)@) + colour_params(oppo));
}

fn profile_name(use_420: bool) -> (r: &'static str)
    ensures
        r@ == tile_profile(use_420),
{
    if use_420 {
        "mainstillpicture"
    } else {
        "main444-8"
    }
}

/// The settings for a batch of tiles with the given bytes for each pixel.
pub fn batch_settings(pixel_bytes: usize, use_420: bool, oppo: bool) -> (r: EncoderSettings)
    ensures
        r@ == batch_encoder(pixel_bytes == 3, use_420, oppo),
{
    let rgb: bool = pixel_bytes == 3;
    let csp: &'static str = if use_420 {
        "i420"
    } else if rgb {
        "i444"
    } else {
        "i400"
    };
    let preset: &'static str = if !rgb {
        "ultrafast"
    } else if oppo {
        "fast"
    } else {
        "medium"
    };
    let before_profile: Vec<(&'static str, &'static str)> = make_first_params(csp, rgb, "0");
    let mut after_profile: Vec<(&'static str, &'static str)> = Vec::new();
    after_profile.push(("bframes", "0"));
    after_profile.push(("rc-lookahead", "0"));
    after_profile.push(("no-open-gop", "0"));
    assert(texts(after_profile@) =~= seq![
        ("bframes"@, "0"@),
        ("rc-lookahead"@, "0"@),
        ("no-open-gop"@, "0"@),
    ]);
    if rgb {
        push_colour_params(&mut after_profile, oppo);
    }
    let r: EncoderSettings = EncoderSettings {
        preset,
        profile: profile_name(use_420),
        before_profile,
        after_profile,
    };
    assert(r@ =~= batch_encoder(rgb, use_420, oppo));
    r
}

/// The settings for a tile of its own.
pub fn tile_settings(rgb: bool, use_420: bool) -> (r: EncoderSettings)
    ensures
        r@ == tile_encoder(rgb, use_420),
{
    let csp: &'static str = if use_420 {
        "i420"
    } else {
        "i444"
    };
    let preset: &'static str = if rgb {
        "medium"
    } else {
        "ultrafast"
    };
    let before_profile: Vec<(&'static str, &'static str)> = make_first_params(csp, rgb, "1");
    let mut after_profile: Vec<(&'static str, &'static str)> = Vec::new();
    assert(texts(after_profile@) =~= Seq::empty());
    if rgb {
        push_colour_params(&mut after_profile, false);
    }
    let ghost colours = texts(after_profile@);
    after_profile.push(("frame-threads", "1"));
    after_profile.push(("pools", "1"));
    assert(texts(after_profile@) =~= colours + seq![("frame-threads"@, "1"@), ("pools"@, "1"@)]);
    let r: EncoderSettings = EncoderSettings {
        preset,
        profile: profile_name(use_420),
        before_profile,
        after_profile,
    };
    assert(r@ =~= tile_encoder(rgb, use_420));
    r
}

// ---------------------------------------------------------------------------
// Pictures
// ---------------------------------------------------------------------------

/// The planes of a picture, and how many bytes a chroma row has.
pub struct Planes {
    pub y: Vec<u8>,
    pub u: Vec<u8>,
    pub v: Vec<u8>,
    pub chroma_stride: u32,
}

/// How many samples a chroma row or column has.
pub open spec fn chroma_len(n: int, use_420: bool) -> int {
    if use_420 {
        (n + 1) / 2
    } else {
        n
    }
}

/// A plane of neutral chroma samples.
pub open spec fn neutral(len: int) -> Seq<u8> {
    Seq::new(len as nat, |i: int| 128u8)
}

/// The length of a chroma row.
pub fn chroma_stride(width: u32, use_420: bool) -> (r: u32)
    ensures
        r == chroma_len(width as int, use_420),
{
    if use_420 {
        width / 2 + width % 2
    } else {
        width
    }
}

fn make_neutral(len: usize) -> (r: Vec<u8>)
    ensures
        r@ == neutral(len as int),
{
    let mut v: Vec<u8> = Vec::new();
    let mut i: usize = 0;
    while i < len
        invariant
            i <= len,
            v@ == neutral(i as int),
        decreases len - i,
    {
        v.push(128);
        i = i + 1;
        assert(v@ =~= neutral(i as int));
    }
    v
}

/// The planes of a gray picture: its pixels, and neutral chroma.
pub fn gray_planes(pixels: &[u8], width: u32, height: u32, use_420: bool) -> (r: Planes)
    requires
        width * height <= u32::MAX,
        width * height <= usize::MAX,
    ensures
        r.y@ == pixels@,
        r.u@ == neutral(
            chroma_len(width as int, use_420) * chroma_len(height as int, use_420),
        ),
        r.v@ == r.u@,
        r.chroma_stride == chroma_len(width as int, use_420),
{
    let stride: u32 = chroma_stride(width, use_420);
    let rows: u32 = chroma_stride(height, use_420);
    assert(stride * rows <= width * height) by (nonlinear_arith)
        requires
            0 <= stride <= width,
            0 <= rows <= height,
    ;
    let n: usize = (stride * rows) as usize;
    let mut y: Vec<u8> = Vec::new();
    append(&mut y, pixels);
    assert(y@ =~= pixels@);
    Planes { y, u: make_neutral(n), v: make_neutral(n), chroma_stride: stride }
}

// ---------------------------------------------------------------------------
// Streams
// ---------------------------------------------------------------------------

/// Whether each tile has as many bytes as its size asks for.
pub open spec fn sized_tiles(tiles: Seq<Seq<u8>>, width: u32, height: u32, pixel_bytes: usize) -> bool {
    forall|i: int| 0 <= i < tiles.len() ==> #[trigger] tiles[i].len() == width * height * pixel_bytes
}

/// Check that each tile has as many bytes as its size asks for.
pub fn check_tile_sizes(tiles: &[Vec<u8>], width: u32, height: u32, pixel_bytes: usize) -> (r: Result<
    (),
    String,
>)
    requires
        width * height * pixel_bytes <= u32::MAX,
        width * height <= u32::MAX,
        pixel_bytes <= u32::MAX,
    ensures
        r is Ok <==> sized_tiles(views(tiles@), width, height, pixel_bytes),
        r matches Err(e) ==> e@ == "tile size mismatch in batch encode"@,
{
    let expected: u32 = (width * height) * pixel_bytes as u32;
    let ghost v = views(tiles@);
    let mut i: usize = 0;
    while i < tiles.len()
        invariant
            i <= tiles@.len(),
            v == views(tiles@),
            expected == width * height * pixel_bytes,
            forall|j: int| 0 <= j < i ==> #[trigger] v[j].len() == expected,
        decreases tiles@.len() - i,
    {
        assert(v[i as int] == tiles@[i as int]@);
        if tiles[i].len() as u64 != expected as u64 {
            assert(v[i as int].len() != expected);
            return Err("tile size mismatch in batch encode".to_string());
        }
        i = i + 1;
    }
    Ok(())
}

/// What the encoder made of tiles.
pub open spec fn told_all(r: Seq<Result<Vec<u8>, String>>) -> Seq<Result<Seq<u8>, Seq<char>>> {
    Seq::new(r.len(), |i: int| told(r[i]))
}

/// The stream that is kept of the one that came of the `i`-th tile: the first keeps its
/// parameter sets, the others only their slices. `None` where one of the others ends in a
/// start code.
pub open spec fn kept_stream(i: int, stream: Seq<u8>) -> Option<Seq<u8>> {
    if i == 0 {
        Some(stream)
    } else {
        slices_from(stream, 0)
    }
}

/// Whether each stream can be kept.
pub open spec fn all_kept(r: Seq<Result<Seq<u8>, Seq<char>>>) -> bool {
    forall|i: int|
        #![trigger r[i]]
        0 <= i < r.len() ==> (r[i] matches Ok(s) ==> kept_stream(i, s) is Some)
}

/// The first error among the first `n` outcomes.
pub open spec fn first_error(r: Seq<Result<Seq<u8>, Seq<char>>>, n: nat) -> Option<Seq<char>>
    decreases n,
{
    if n == 0 {
        None
    } else {
        match first_error(r, (n - 1) as nat) {
            Some(e) => Some(e),
            None => match r[n - 1] {
                Err(e) => Some(e),
                Ok(_) => None,
            },
        }
    }
}

/// Without an error in the first `n`, each of them is a stream.
proof fn lemma_no_error(r: Seq<Result<Seq<u8>, Seq<char>>>, n: nat)
    requires
        n <= r.len(),
    ensures
        first_error(r, n) is None <==> forall|i: int| 0 <= i < n ==> #[trigger] r[i] is Ok,
    decreases n,
{
    if n > 0 {
        lemma_no_error(r, (n - 1) as nat);
    }
}

/// The streams of a batch: the first error where there is one, else what is kept of each
/// stream. `None` where a stream after the first ends in a start code.
pub fn batch_streams(outcomes: &[Result<Vec<u8>, String>]) -> (r: Option<
    Result<Vec<Vec<u8>>, String>,
>)
    ensures
        ({
            let all = told_all(outcomes@);
            match r {
                None => !all_kept(all),
                Some(Err(e)) => all_kept(all) && first_error(all, all.len()) == Some(e@),
                Some(Ok(streams)) => {
                    &&& all_kept(all)
                    &&& first_error(all, all.len()) is None
                    &&& streams@.len() == all.len()
                    &&& forall|i: int|
                        #![trigger streams@[i]]
                        0 <= i < all.len() ==> kept_stream(i, all[i]->Ok_0) == Some(streams@[i]@)
                },
            }
        }),
{
    let ghost all = told_all(outcomes@);
    let mut streams: Vec<Vec<u8>> = Vec::new();
    let mut error: Option<String> = None;
    let mut i: usize = 0;
    while i < outcomes.len()
        invariant
            i <= outcomes@.len(),
            all == told_all(outcomes@),
            forall|j: int|
                #![trigger all[j]]
                0 <= j < i ==> (all[j] matches Ok(s) ==> kept_stream(j, s) is Some),
            match error {
                Some(e) => first_error(all, i as nat) == Some(e@),
                None => first_error(all, i as nat) is None && streams@.len() == i,
            },
            error is None ==> forall|j: int|
                #![trigger streams@[j]]
                0 <= j < i ==> kept_stream(j, all[j]->Ok_0) == Some(streams@[j]@),
        decreases outcomes@.len() - i,
    {
        assert(all[i as int] == told(outcomes@[i as int]));
        match &outcomes[i] {
            Err(e) => {
                if error.is_none() {
                    error = Some(e.clone());
                }
            },
            Ok(stream) => {
                let mut kept: Vec<u8> = Vec::new();
                if i == 0 {
                    append(&mut kept, stream.as_slice());
                    assert(kept@ =~= stream@);
                } else {
                    match try_drop_parameter_nals(stream.as_slice()) {
                        None => {
                            return None;
                        },
                        Some(k) => {
                            kept = k;
                        },
                    }
                }
                streams.push(kept);
            },
        }
        i = i + 1;
    }
    match error {
        Some(e) => Some(Err(e)),
        None => Some(Ok(streams)),
    }
}

/// A batch succeeds exactly where every tile does: an error of any tile fails it.
pub proof fn batches_fail_with_their_tiles(r: Seq<Result<Seq<u8>, Seq<char>>>)
    ensures
        first_error(r, r.len()) is Some <==> exists|i: int| 0 <= i < r.len() && #[trigger] r[i] is Err,
{
    lemma_no_error(r, r.len());
}

} // verus!
