//! The course of a conversion: which step comes next, and what is reported where one
//! fails.

use crate::bytes::{matches_at, starts_with};
use crate::container::{OppoCameraTail, default_tail_policy, resolved_tail_policy};
use crate::exif::{OppoCompat, compat_of};
use crate::jpeg_decode::SOI_MARKER;
use crate::text::{join, opt_string};
use vstd::prelude::*;

verus! {

/// The options of a conversion as callers pass them.
#[derive(Debug, Clone, Copy)]
pub struct ConvertConfig {
    pub oppo_compat: u8,
    pub oppo_camera_tail: u8,
    pub strict_tmap: u8,
    /// 1 adds a Photographic Styles graph.
    pub apple_photographic_styles: u8,
    /// 1 adds a Portrait graph.
    pub apple_portrait: u8,
}

/// The options of a conversion.
#[derive(Debug, Clone, Copy, PartialEq, Eq, Structural)]
pub struct Settings {
    pub oppo_compat: OppoCompat,
    pub tail_policy: OppoCameraTail,
    pub strict_tmap: bool,
    pub styles: bool,
    pub portrait: bool,
}

/// What options mean; without any, the output is clean ISO.
pub open spec fn settings_of(config: Option<ConvertConfig>) -> Settings {
    match config {
        None => Settings {
            oppo_compat: OppoCompat::Off,
            tail_policy: default_tail_policy(OppoCompat::Off),
            strict_tmap: false,
            styles: false,
            portrait: false,
        },
        Some(c) => {
            let compat = compat_of(c.oppo_compat);
            Settings {
                oppo_compat: compat,
                tail_policy: resolved_tail_policy(c.oppo_camera_tail, compat),
                strict_tmap: c.strict_tmap != 0,
                styles: c.apple_photographic_styles != 0,
                portrait: c.apple_portrait != 0,
            }
        },
    }
}

/// Resolve the options of a conversion.
pub fn resolve_settings(config: Option<ConvertConfig>) -> (r: Settings)
    ensures
        r == settings_of(config),
{
    match config {
        None => Settings {
            oppo_compat: OppoCompat::Off,
            tail_policy: OppoCameraTail::default_for_compat(OppoCompat::Off),
            strict_tmap: false,
            styles: false,
            portrait: false,
        },
        Some(c) => {
            let oppo_compat: OppoCompat = OppoCompat::from_u8(c.oppo_compat);
            Settings {
                oppo_compat,
                tail_policy: OppoCameraTail::resolve(c.oppo_camera_tail, oppo_compat),
                strict_tmap: c.strict_tmap != 0,
                styles: c.apple_photographic_styles != 0,
                portrait: c.apple_portrait != 0,
            }
        },
    }
}

// ---------------------------------------------------------------------------
// Conversion
// ---------------------------------------------------------------------------

/// What a step came to: it was done, it found nothing, or it failed.
pub enum StepOutcome {
    Done,
    Nothing,
    Failed(String),
}

/// What a step came to.
#[verifier::ext_equal]
pub enum OutcomeView {
    Done,
    Nothing,
    Failed(Seq<char>),
}

impl View for StepOutcome {
    type V = OutcomeView;

    open spec fn view(&self) -> OutcomeView {
        match *self {
            StepOutcome::Done => OutcomeView::Done,
            StepOutcome::Nothing => OutcomeView::Nothing,
            StepOutcome::Failed(e) => OutcomeView::Failed(e@),
        }
    }
}

/// The step of a conversion that is to be taken next.
pub enum Stage {
    /// Look for a clear source image in the tail of a portrait.
    FindSrcImage,
    /// Look for a gain map of its own in a JPEG.
    ParseJpeg,
    /// Build a container from a JPEG with a gain map.
    SynthesizeJpeg,
    /// Extract the gain-map data of a container.
    Extract,
    /// Build a container from an image without a gain map; why it has none, where that
    /// was a failure to report.
    SynthesizeSdr(Option<String>),
    /// Write the ISO output: the final file, or a private base for what follows.
    WriteBase,
    /// Read the private base for the portrait.
    ReadBase,
    /// Build the portrait.
    MakePortrait,
    /// Write the portrait over the private base.
    WritePortrait,
    /// Build the styles from the private base, publish them and remove the base.
    MakeStyles,
    /// Publish the private base under its final name.
    Publish,
    /// Success.
    Finished,
    /// Failure; whether the private base is to be removed.
    Broken(String, bool),
}

/// A step of a conversion.
#[verifier::ext_equal]
pub enum StageView {
    FindSrcImage,
    ParseJpeg,
    SynthesizeJpeg,
    Extract,
    SynthesizeSdr(Option<Seq<char>>),
    WriteBase,
    ReadBase,
    MakePortrait,
    WritePortrait,
    MakeStyles,
    Publish,
    Finished,
    Broken(Seq<char>, bool),
}

impl View for Stage {
    type V = StageView;

    open spec fn view(&self) -> StageView {
        match *self {
            Stage::FindSrcImage => StageView::FindSrcImage,
            Stage::ParseJpeg => StageView::ParseJpeg,
            Stage::SynthesizeJpeg => StageView::SynthesizeJpeg,
            Stage::Extract => StageView::Extract,
            Stage::SynthesizeSdr(e) => StageView::SynthesizeSdr(opt_string(e)),
            Stage::WriteBase => StageView::WriteBase,
            Stage::ReadBase => StageView::ReadBase,
            Stage::MakePortrait => StageView::MakePortrait,
            Stage::WritePortrait => StageView::WritePortrait,
            Stage::MakeStyles => StageView::MakeStyles,
            Stage::Publish => StageView::Publish,
            Stage::Finished => StageView::Finished,
            Stage::Broken(e, remove) => StageView::Broken(e@, remove),
        }
    }
}

/// The step for a source that is taken as it is.
pub open spec fn source_stage(jpeg: bool) -> StageView {
    if jpeg {
        StageView::ParseJpeg
    } else {
        StageView::Extract
    }
}

/// The first step of a conversion.
pub open spec fn first_stage(s: Settings, jpeg: bool) -> StageView {
    if s.portrait {
        StageView::FindSrcImage
    } else {
        source_stage(jpeg)
    }
}

/// Whether the ISO output is only a base for what follows.
pub open spec fn base_is_private(s: Settings) -> bool {
    s.styles || s.portrait
}

/// What an outcome other than success says.
pub open spec fn failure_text(o: OutcomeView) -> Seq<char> {
    match o {
        OutcomeView::Failed(e) => e,
        _ => ""@,
    }
}

/// The step that follows a step with its outcome.
pub open spec fn next_stage(stage: StageView, s: Settings, jpeg: bool, o: OutcomeView) -> StageView {
    let e = failure_text(o);
    let done = o is Done;
    match stage {
        StageView::FindSrcImage => if done {
            StageView::WriteBase
        } else {
            source_stage(jpeg)
        },
        StageView::ParseJpeg => if done {
            StageView::SynthesizeJpeg
        } else if s.styles {
            StageView::SynthesizeSdr(None)
        } else if o is Failed {
            StageView::Broken("Ultra HDR JPEG parse: "@ + e, false)
        } else {
            StageView::Broken(
                "JPEG input requires an Ultra HDR gain map (MPF); plain JPEG is not supported"@,
                false,
            )
        },
        StageView::SynthesizeJpeg => if done {
            StageView::WriteBase
        } else {
            StageView::Broken("Ultra HDR JPEG container synthesis: "@ + e, false)
        },
        StageView::Extract => if done {
            StageView::WriteBase
        } else if s.styles {
            StageView::SynthesizeSdr(Some(e))
        } else {
            StageView::Broken(e, false)
        },
        StageView::SynthesizeSdr(reason) => if done {
            StageView::WriteBase
        } else {
            match reason {
                None => StageView::Broken("SDR styles source: "@ + e, false),
                Some(r) => StageView::Broken(r + " (SDR styles source: "@ + e + ")"@, false),
            }
        },
        StageView::WriteBase => if !done {
            StageView::Broken(e, base_is_private(s))
        } else if s.portrait {
            StageView::ReadBase
        } else if s.styles {
            StageView::MakeStyles
        } else {
            StageView::Finished
        },
        StageView::ReadBase => if done {
            StageView::MakePortrait
        } else {
            StageView::Broken("read Rust Portrait base output: "@ + e, true)
        },
        StageView::MakePortrait => if done {
            StageView::WritePortrait
        } else {
            StageView::Broken("Rust Apple Portrait: "@ + e, true)
        },
        StageView::WritePortrait => if !done {
            StageView::Broken("write Rust Portrait output: "@ + e, true)
        } else if s.styles {
            StageView::MakeStyles
        } else {
            StageView::Publish
        },
        StageView::MakeStyles => if done {
            StageView::Finished
        } else {
            StageView::Broken(e, true)
        },
        StageView::Publish => if done {
            StageView::Finished
        } else {
            StageView::Broken("publish Rust Portrait output: "@ + e, true)
        },
        StageView::Finished => StageView::Finished,
        StageView::Broken(text, remove) => StageView::Broken(text, remove),
    }
}

fn source_step(jpeg: bool) -> (r: Stage)
    ensures
        r@ == source_stage(jpeg),
{
    if jpeg {
        Stage::ParseJpeg
    } else {
        Stage::Extract
    }
}

/// The first step of a conversion of a source, which is a JPEG or not.
pub fn begin_conversion(settings: &Settings, jpeg: bool) -> (r: Stage)
    ensures
        r@ == first_stage(*settings, jpeg),
{
    if settings.portrait {
        Stage::FindSrcImage
    } else {
        source_step(jpeg)
    }
}

fn broken(prefix: &str, error: &str, remove: bool) -> (r: Stage)
    ensures
        r@ == StageView::Broken(prefix@ + error@, remove),
{
    Stage::Broken(join(prefix, error), remove)
}

/// The step of a conversion that follows a step with its outcome.
pub fn continue_conversion(stage: Stage, settings: &Settings, jpeg: bool, outcome: StepOutcome) -> (r: Stage)
    ensures
        r@ == next_stage(stage@, *settings, jpeg, outcome@),
{
    let (done, failed, error): (bool, bool, String) = match outcome {
        StepOutcome::Done => (true, false, "".to_string()),
        StepOutcome::Nothing => (false, false, "".to_string()),
        StepOutcome::Failed(e) => (false, true, e),
    };
    match stage {
        Stage::FindSrcImage => if done {
            Stage::WriteBase
        } else {
            source_step(jpeg)
        },
        Stage::ParseJpeg => if done {
            Stage::SynthesizeJpeg
        } else if settings.styles {
            Stage::SynthesizeSdr(None)
        } else if failed {
            broken("Ultra HDR JPEG parse: ", error.as_str(), false)
        } else {
            Stage::Broken(
                "JPEG input requires an Ultra HDR gain map (MPF); plain JPEG is not supported".to_string(),
                false,
            )
        },
        Stage::SynthesizeJpeg => if done {
            Stage::WriteBase
        } else {
            broken("Ultra HDR JPEG container synthesis: ", error.as_str(), false)
        },
        Stage::Extract => if done {
            Stage::WriteBase
        } else if settings.styles {
            Stage::SynthesizeSdr(Some(error))
        } else {
            Stage::Broken(error, false)
        },
        Stage::SynthesizeSdr(reason) => if done {
            Stage::WriteBase
        } else {
            match reason {
                None => broken("SDR styles source: ", error.as_str(), false),
                Some(r) => {
                    let head: String = join(r.as_str(), " (SDR styles source: ");
                    Stage::Broken(join(join(head.as_str(), error.as_str()).as_str(), ")"), false)
                },
            }
        },
        Stage::WriteBase => if !done {
            Stage::Broken(error, settings.styles || settings.portrait)
        } else if settings.portrait {
            Stage::ReadBase
        } else if settings.styles {
            Stage::MakeStyles
        } else {
            Stage::Finished
        },
        Stage::ReadBase => if done {
            Stage::MakePortrait
        } else {
            broken("read Rust Portrait base output: ", error.as_str(), true)
        },
        Stage::MakePortrait => if done {
            Stage::WritePortrait
        } else {
            broken("Rust Apple Portrait: ", error.as_str(), true)
        },
        Stage::WritePortrait => if !done {
            broken("write Rust Portrait output: ", error.as_str(), true)
        } else if settings.styles {
            Stage::MakeStyles
        } else {
            Stage::Publish
        },
        Stage::MakeStyles => if done {
            Stage::Finished
        } else {
            Stage::Broken(error, true)
        },
        Stage::Publish => if done {
            Stage::Finished
        } else {
            broken("publish Rust Portrait output: ", error.as_str(), true)
        },
        Stage::Finished => Stage::Finished,
        Stage::Broken(text, remove) => Stage::Broken(text, remove),
    }
}

/// How far a step is from the end.
pub open spec fn distance(stage: StageView) -> nat {
    match stage {
        StageView::FindSrcImage => 8,
        StageView::ParseJpeg => 7,
        StageView::Extract => 7,
        StageView::SynthesizeJpeg => 6,
        StageView::SynthesizeSdr(_) => 6,
        StageView::WriteBase => 5,
        StageView::ReadBase => 4,
        StageView::MakePortrait => 3,
        StageView::WritePortrait => 2,
        StageView::MakeStyles => 1,
        StageView::Publish => 1,
        StageView::Finished => 0,
        StageView::Broken(_, _) => 0,
    }
}

/// Whether a step works on a base that was written.
pub open spec fn after_base(stage: StageView) -> bool {
    stage is ReadBase || stage is MakePortrait || stage is WritePortrait || stage is MakeStyles
        || stage is Publish
}

/// Every step brings a conversion nearer to its end, whatever the outcomes: a conversion
/// takes at most eight steps.
pub proof fn conversions_end(stage: StageView, s: Settings, jpeg: bool, o: OutcomeView)
    ensures
        distance(stage) > 0 ==> distance(next_stage(stage, s, jpeg, o)) < distance(stage),
        distance(stage) <= 8,
        distance(first_stage(s, jpeg)) <= 8,
{
}

/// A private base never stays behind: a conversion that breaks while it writes or uses
/// one removes it, and one that breaks before has none to remove.
pub proof fn broken_conversions_leave_no_base(stage: StageView, s: Settings, jpeg: bool, o: OutcomeView)
    requires
        !(stage is Broken),
        after_base(stage) ==> base_is_private(s),
    ensures
        next_stage(stage, s, jpeg, o) matches StageView::Broken(_, remove) ==> remove == (
        base_is_private(s) && (after_base(stage) || stage is WriteBase)),
        after_base(next_stage(stage, s, jpeg, o)) ==> base_is_private(s),
{
}

/// A conversion that asked for neither styles nor a portrait finishes with its ISO
/// output, and one that asked for a feature only after it was built.
pub proof fn features_are_built(stage: StageView, s: Settings, jpeg: bool, o: OutcomeView)
    requires
        !(stage is Finished),
    ensures
        next_stage(stage, s, jpeg, o) is Finished ==> o is Done && (stage is MakeStyles
            || stage is Publish || (stage is WriteBase && !base_is_private(s))),
        next_stage(stage, s, jpeg, o) is Publish ==> stage is WritePortrait && !s.styles,
        next_stage(stage, s, jpeg, o) is MakeStyles ==> s.styles && (stage is WritePortrait || (
        stage is WriteBase && !s.portrait)),
{
}

/// An image without a gain map is only taken where styles are asked for.
pub proof fn sdr_needs_styles(stage: StageView, s: Settings, jpeg: bool, o: OutcomeView)
    ensures
        next_stage(stage, s, jpeg, o) is SynthesizeSdr && !(stage is SynthesizeSdr) ==> s.styles,
{
}

// ---------------------------------------------------------------------------
// Gain-map data
// ---------------------------------------------------------------------------

/// The step of a search for gain-map data that is to be taken next.
pub enum Hunt {
    /// Parse an Ultra HDR JPEG.
    Jpeg,
    /// Extract the data of a container.
    Container,
    /// Parse a JPEG that is not named as one, since its data could not be extracted.
    Disguised(String),
    /// The data is that of the JPEG.
    FoundJpeg,
    /// The data is that of the container.
    FoundContainer,
    /// There is none.
    Missing(String),
}

/// A step of a search for gain-map data.
#[verifier::ext_equal]
pub enum HuntView {
    Jpeg,
    Container,
    Disguised(Seq<char>),
    FoundJpeg,
    FoundContainer,
    Missing(Seq<char>),
}

impl View for Hunt {
    type V = HuntView;

    open spec fn view(&self) -> HuntView {
        match *self {
            Hunt::Jpeg => HuntView::Jpeg,
            Hunt::Container => HuntView::Container,
            Hunt::Disguised(e) => HuntView::Disguised(e@),
            Hunt::FoundJpeg => HuntView::FoundJpeg,
            Hunt::FoundContainer => HuntView::FoundContainer,
            Hunt::Missing(e) => HuntView::Missing(e@),
        }
    }
}

/// The first step of a search for gain-map data.
pub open spec fn first_hunt(s: Seq<u8>) -> HuntView {
    if starts_with(s, SOI_MARKER@) {
        HuntView::Jpeg
    } else {
        HuntView::Container
    }
}

/// The step that follows a step with its outcome.
pub open spec fn next_hunt(h: HuntView, o: OutcomeView) -> HuntView {
    match h {
        HuntView::Jpeg => match o {
            OutcomeView::Done => HuntView::FoundJpeg,
            OutcomeView::Nothing => HuntView::Missing("JPEG lacks an Ultra HDR gain map"@),
            OutcomeView::Failed(e) => HuntView::Missing(e),
        },
        HuntView::Container => if o is Done {
            HuntView::FoundContainer
        } else {
            HuntView::Disguised(failure_text(o))
        },
        HuntView::Disguised(e) => if o is Done {
            HuntView::FoundJpeg
        } else {
            HuntView::Missing(e)
        },
        other => other,
    }
}

/// Whether data begins like a JPEG.
pub fn is_jpeg(data: &[u8]) -> (r: bool)
    ensures
        r == starts_with(data@, SOI_MARKER@),
{
    matches_at(data, SOI_MARKER.as_slice(), 0)
}

/// The first step of a search for gain-map data.
pub fn begin_hunt(data: &[u8]) -> (r: Hunt)
    ensures
        r@ == first_hunt(data@),
{
    if is_jpeg(data) {
        Hunt::Jpeg
    } else {
        Hunt::Container
    }
}

/// The step of a search for gain-map data that follows a step with its outcome.
pub fn continue_hunt(hunt: Hunt, outcome: StepOutcome) -> (r: Hunt)
    ensures
        r@ == next_hunt(hunt@, outcome@),
{
    match hunt {
        Hunt::Jpeg => match outcome {
            StepOutcome::Done => Hunt::FoundJpeg,
            StepOutcome::Nothing => Hunt::Missing("JPEG lacks an Ultra HDR gain map".to_string()),
            StepOutcome::Failed(e) => Hunt::Missing(e),
        },
        Hunt::Container => match outcome {
            StepOutcome::Done => Hunt::FoundContainer,
            StepOutcome::Nothing => Hunt::Disguised("".to_string()),
            StepOutcome::Failed(e) => Hunt::Disguised(e),
        },
        Hunt::Disguised(e) => match outcome {
            StepOutcome::Done => Hunt::FoundJpeg,
            _ => Hunt::Missing(e),
        },
        Hunt::FoundJpeg => Hunt::FoundJpeg,
        Hunt::FoundContainer => Hunt::FoundContainer,
        Hunt::Missing(e) => Hunt::Missing(e),
    }
}

/// The family of a photo: `x7` for Ultra HDR and for late metadata, else `x6`.
pub fn hdr_family(uhdr: bool, late_metadata: bool) -> (r: &'static str)
    ensures
        r@ == if uhdr || late_metadata {
            "x7"@
        } else {
            "x6"@
        },
{
    if uhdr || late_metadata {
        "x7"
    } else {
        "x6"
    }
}

} // verus!
