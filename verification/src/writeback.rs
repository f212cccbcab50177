//! Writing back photos that an editor returned: which step comes next, and how the
//! result is completed from the untouched donor.

use crate::bytes::append;
use crate::container::{
    display_filter_names, file_tail_without, get_oppo_tail_without_display_filter_keep_local,
    has_watermark_entries, is_watermark_entry, strip_oppo_tail, tail_entry_names, tail_names,
    tail_start,
};
use crate::convert::{OutcomeView, StepOutcome, failure_text};
use crate::iso_validate::said;
use crate::isobmff_write::{grafted, try_graft_exif_item};
use crate::seqs::{told_some, views};
use crate::text::join;
use vstd::prelude::*;

verus! {

/// What a returned photo is written back as.
#[derive(Debug, Clone, Copy, PartialEq, Eq, Structural)]
pub enum Route {
    /// The returned photo without its tail.
    Stripped,
    /// A photo with the donor's gain map and a new styles graph.
    Apple,
    /// A photo with the donor's gain map and camera tail.
    Oppo,
}

/// What an output mode asks for, or why it cannot be had.
pub open spec fn route_for(output_mode: u8, has_donor: bool) -> Result<Route, Seq<char>> {
    if output_mode == 0 {
        if has_donor {
            Ok(Route::Apple)
        } else {
            Ok(Route::Stripped)
        }
    } else if output_mode == 1 {
        if has_donor {
            Ok(Route::Oppo)
        } else {
            Err("OPPO output requires the untouched donor photo"@)
        }
    } else {
        Err("unknown returned-photo output mode"@)
    }
}

/// Choose what a returned photo is written back as.
pub fn writeback_route(output_mode: u8, has_donor: bool) -> (r: Result<Route, String>)
    ensures
        said(r) == route_for(output_mode, has_donor),
{
    if output_mode == 0 {
        if has_donor {
            Ok(Route::Apple)
        } else {
            Ok(Route::Stripped)
        }
    } else if output_mode == 1 {
        if has_donor {
            Ok(Route::Oppo)
        } else {
            Err("OPPO output requires the untouched donor photo".to_string())
        }
    } else {
        Err("unknown returned-photo output mode".to_string())
    }
}

/// Whether the donor's watermark canvas is restored: where the donor has a watermark, and
/// for Apple output only on request.
pub open spec fn canvas_wanted(route: Route, requested: bool, watermark: bool) -> bool {
    watermark && (route == Route::Oppo || (route == Route::Apple && requested))
}

/// The step of a writeback that is to be taken next.
pub enum Step {
    /// Extract the donor's gain-map data.
    ExtractDonor,
    /// Draw the returned photo onto the donor's watermark canvas.
    RestoreCanvas,
    /// Disable the filter recipe and remove the gain-map graph of the returned photo.
    StripGraph,
    /// Write the ISO intermediate.
    WriteIso,
    /// Read the ISO intermediate and remove it.
    ReadIso,
    /// Build the styles.
    MakeStyles,
    /// Complete the photo.
    Complete,
    /// Failure.
    Failed(String),
}

/// A step of a writeback.
#[verifier::ext_equal]
pub enum StepView {
    ExtractDonor,
    RestoreCanvas,
    StripGraph,
    WriteIso,
    ReadIso,
    MakeStyles,
    Complete,
    Failed(Seq<char>),
}

impl View for Step {
    type V = StepView;

    open spec fn view(&self) -> StepView {
        match *self {
            Step::ExtractDonor => StepView::ExtractDonor,
            Step::RestoreCanvas => StepView::RestoreCanvas,
            Step::StripGraph => StepView::StripGraph,
            Step::WriteIso => StepView::WriteIso,
            Step::ReadIso => StepView::ReadIso,
            Step::MakeStyles => StepView::MakeStyles,
            Step::Complete => StepView::Complete,
            Step::Failed(e) => StepView::Failed(e@),
        }
    }
}

/// The first step of a writeback.
pub open spec fn first_step(route: Route) -> StepView {
    if route == Route::Stripped {
        StepView::Complete
    } else {
        StepView::ExtractDonor
    }
}

/// The step of a writeback that follows a step with its outcome; `canvas` says whether
/// the watermark canvas is restored.
pub open spec fn next_step(step: StepView, route: Route, canvas: bool, o: OutcomeView) -> StepView {
    let e = failure_text(o);
    let done = o is Done;
    match step {
        StepView::ExtractDonor => match o {
            OutcomeView::Done => if canvas {
                StepView::RestoreCanvas
            } else {
                StepView::StripGraph
            },
            OutcomeView::Nothing => StepView::Failed("donor photo has no UHDR gain-map payload"@),
            OutcomeView::Failed(text) => StepView::Failed(text),
        },
        StepView::RestoreCanvas => if done {
            StepView::StripGraph
        } else {
            StepView::Failed(e)
        },
        StepView::StripGraph => if done {
            StepView::WriteIso
        } else {
            StepView::Failed(e)
        },
        StepView::WriteIso => if done {
            StepView::ReadIso
        } else {
            StepView::Failed(e)
        },
        StepView::ReadIso => if !done {
            StepView::Failed(
                (if route == Route::Apple {
                    "read Apple ISO intermediate: "@
                } else {
                    "read OPPO ISO intermediate: "@
                }) + e,
            )
        } else if route == Route::Apple {
            StepView::MakeStyles
        } else {
            StepView::Complete
        },
        StepView::MakeStyles => if done {
            StepView::Complete
        } else {
            StepView::Failed("Rust Apple Styles writeback: "@ + e)
        },
        StepView::Complete => StepView::Complete,
        StepView::Failed(text) => StepView::Failed(text),
    }
}

/// The first step of a writeback.
pub fn begin_writeback(route: Route) -> (r: Step)
    ensures
        r@ == first_step(route),
{
    match route {
        Route::Stripped => Step::Complete,
        _ => Step::ExtractDonor,
    }
}

fn told_failure(outcome: StepOutcome) -> (r: (bool, String))
    ensures
        r.0 == (outcome@ is Done),
        r.1@ == failure_text(outcome@),
{
    match outcome {
        StepOutcome::Done => (true, "".to_string()),
        StepOutcome::Nothing => (false, "".to_string()),
        StepOutcome::Failed(e) => (false, e),
    }
}

/// The step of a writeback that follows a step with its outcome; `canvas` says whether
/// the watermark canvas is restored.
pub fn continue_writeback(step: Step, route: Route, canvas: bool, outcome: StepOutcome) -> (r: Step)
    ensures
        r@ == next_step(step@, route, canvas, outcome@),
{
    match (&step, &outcome) {
        (Step::ExtractDonor, StepOutcome::Nothing) => {
            return Step::Failed("donor photo has no UHDR gain-map payload".to_string());
        },
        _ => {},
    }
    let (done, error): (bool, String) = told_failure(outcome);
    match step {
        Step::ExtractDonor => if !done {
            Step::Failed(error)
        } else if canvas {
            Step::RestoreCanvas
        } else {
            Step::StripGraph
        },
        Step::RestoreCanvas => if done {
            Step::StripGraph
        } else {
            Step::Failed(error)
        },
        Step::StripGraph => if done {
            Step::WriteIso
        } else {
            Step::Failed(error)
        },
        Step::WriteIso => if done {
            Step::ReadIso
        } else {
            Step::Failed(error)
        },
        Step::ReadIso => match route {
            Route::Apple => if done {
                Step::MakeStyles
            } else {
                Step::Failed(join("read Apple ISO intermediate: ", error.as_str()))
            },
            _ => if done {
                Step::Complete
            } else {
                Step::Failed(join("read OPPO ISO intermediate: ", error.as_str()))
            },
        },
        Step::MakeStyles => if done {
            Step::Complete
        } else {
            Step::Failed(join("Rust Apple Styles writeback: ", error.as_str()))
        },
        Step::Complete => Step::Complete,
        Step::Failed(text) => Step::Failed(text),
    }
}

/// How far a step of a writeback is from the end.
pub open spec fn steps_left(step: StepView) -> nat {
    match step {
        StepView::ExtractDonor => 6,
        StepView::RestoreCanvas => 5,
        StepView::StripGraph => 4,
        StepView::WriteIso => 3,
        StepView::ReadIso => 2,
        StepView::MakeStyles => 1,
        StepView::Complete => 0,
        StepView::Failed(_) => 0,
    }
}

/// Every step brings a writeback nearer to its end, whatever the outcomes, and styles are
/// built for Apple output alone.
pub proof fn writebacks_end(step: StepView, route: Route, canvas: bool, o: OutcomeView)
    ensures
        steps_left(step) > 0 ==> steps_left(next_step(step, route, canvas, o)) < steps_left(step),
        next_step(step, route, canvas, o) is MakeStyles ==> route == Route::Apple,
        next_step(step, route, canvas, o) is RestoreCanvas ==> canvas,
{
}

// ---------------------------------------------------------------------------
// Completion
// ---------------------------------------------------------------------------

/// A photo that was written back.
pub struct Returned {
    pub output: Vec<u8>,
    /// Whether the camera tail still describes a watermark.
    pub watermark_metadata: bool,
    /// The names of the tail entries that were restored.
    pub entries: Vec<String>,
    /// Whether the donor has a watermark canvas.
    pub raster_restored: bool,
    pub exif_grafted: bool,
}

/// What a photo that was written back is.
#[verifier::ext_equal]
pub struct ReturnedView {
    pub output: Seq<u8>,
    pub watermark_metadata: bool,
    pub entries: Seq<Seq<char>>,
    pub raster_restored: bool,
    pub exif_grafted: bool,
}

impl View for Returned {
    type V = ReturnedView;

    open spec fn view(&self) -> ReturnedView {
        ReturnedView {
            output: self.output@,
            watermark_metadata: self.watermark_metadata,
            entries: views(self.entries@),
            raster_restored: self.raster_restored,
            exif_grafted: self.exif_grafted,
        }
    }
}

/// Whether a file has a watermark entry in its tail.
pub open spec fn has_watermark(s: Seq<u8>) -> bool {
    exists|i: int| 0 <= i < tail_names(s).len() && is_watermark_entry(#[trigger] tail_names(s)[i])
}

/// The returned photo without its tail.
pub open spec fn without_tail(s: Seq<u8>) -> Seq<u8> {
    match tail_start(s) {
        Some(p) => s.take(p),
        None => s,
    }
}

/// A photo with the donor's Exif data, and whether it has any.
pub open spec fn with_donor_exif(s: Seq<u8>, donor: Seq<u8>) -> Option<
    Result<(Seq<u8>, bool), Seq<char>>,
> {
    match grafted(s, donor) {
        None => None,
        Some(Err(e)) => Some(Err("Exif graft: "@ + e)),
        Some(Ok(None)) => Some(Ok((s, false))),
        Some(Ok(Some(new))) => Some(Ok((new, true))),
    }
}

/// The result of a photo for Apple: with the donor's Exif data.
pub open spec fn apple_return(styled: Seq<u8>, donor: Seq<u8>) -> Option<
    Result<ReturnedView, Seq<char>>,
> {
    match with_donor_exif(styled, donor) {
        None => None,
        Some(Err(e)) => Some(Err(e)),
        Some(Ok((output, exif_grafted))) => Some(
            Ok(
                ReturnedView {
                    output,
                    watermark_metadata: false,
                    entries: Seq::empty(),
                    raster_restored: has_watermark(donor),
                    exif_grafted,
                },
            ),
        ),
    }
}

/// The result of a photo for OPPO: with the donor's Exif data and, behind it, the
/// donor's camera tail without display filters.
pub open spec fn oppo_return(base: Seq<u8>, donor: Seq<u8>) -> Option<
    Result<ReturnedView, Seq<char>>,
> {
    match with_donor_exif(base, donor) {
        None => None,
        Some(Err(e)) => Some(Err(e)),
        Some(Ok((output, exif_grafted))) => match file_tail_without(donor, display_filter_names()) {
            None => Some(Err("donor photo has no OPPO camera footer"@)),
            Some(tail) => Some(
                Ok(
                    ReturnedView {
                        output: output + tail,
                        watermark_metadata: has_watermark(donor),
                        entries: tail_names(donor),
                        raster_restored: false,
                        exif_grafted,
                    },
                ),
            ),
        },
    }
}

fn graft_donor_exif(photo: Vec<u8>, donor: &[u8]) -> (r: Option<Result<(Vec<u8>, bool), String>>)
    ensures
        match r {
            None => with_donor_exif(photo@, donor@) is None,
            Some(Err(e)) => with_donor_exif(photo@, donor@) == Some(
                Err::<(Seq<u8>, bool), Seq<char>>(e@),
            ),
            Some(Ok(x)) => with_donor_exif(photo@, donor@) == Some(
                Ok::<(Seq<u8>, bool), Seq<char>>((x.0@, x.1)),
            ),
        },
{
    match try_graft_exif_item(photo.as_slice(), donor) {
        None => None,
        Some(Err(e)) => Some(Err(join("Exif graft: ", e.as_str()))),
        Some(Ok(None)) => Some(Ok((photo, false))),
        Some(Ok(Some(new))) => Some(Ok((new, true))),
    }
}

/// Return a photo as it is, without its tail.
pub fn return_stripped(returned: &[u8]) -> (r: Returned)
    ensures
        r@ == (ReturnedView {
            output: without_tail(returned@),
            watermark_metadata: false,
            entries: Seq::empty(),
            raster_restored: false,
            exif_grafted: false,
        }),
{
    let entries: Vec<String> = Vec::new();
    assert(views(entries@) =~= Seq::empty());
    Returned {
        output: strip_oppo_tail(returned),
        watermark_metadata: false,
        entries,
        raster_restored: false,
        exif_grafted: false,
    }
}

/// Complete a photo for Apple: the donor's Exif data, position included, is put back,
/// which the editor dropped. `None` where metadata is cut short or a number does not fit.
pub fn complete_apple(styled: Vec<u8>, donor: &[u8]) -> (r: Option<Result<Returned, String>>)
    ensures
        told_some(r) == apple_return(styled@, donor@),
{
    let (output, exif_grafted): (Vec<u8>, bool) = match graft_donor_exif(styled, donor) {
        None => {
            return None;
        },
        Some(Err(e)) => {
            return Some(Err(e));
        },
        Some(Ok(x)) => x,
    };
    let entries: Vec<String> = Vec::new();
    assert(views(entries@) =~= Seq::empty());
    Some(
        Ok(
            Returned {
                output,
                watermark_metadata: false,
                entries,
                raster_restored: has_watermark_entries(donor),
                exif_grafted,
            },
        ),
    )
}

/// Complete a photo for OPPO: the donor's Exif data is put back, and the donor's camera
/// tail without display filters is appended. `None` where metadata is cut short or a
/// number does not fit.
pub fn complete_oppo(base: Vec<u8>, donor: &[u8]) -> (r: Option<Result<Returned, String>>)
    ensures
        told_some(r) == oppo_return(base@, donor@),
{
    let (photo, exif_grafted): (Vec<u8>, bool) = match graft_donor_exif(base, donor) {
        None => {
            return None;
        },
        Some(Err(e)) => {
            return Some(Err(e));
        },
        Some(Ok(x)) => x,
    };
    let tail: Vec<u8> = match get_oppo_tail_without_display_filter_keep_local(donor) {
        None => {
            return Some(Err("donor photo has no OPPO camera footer".to_string()));
        },
        Some(t) => t,
    };
    let mut output: Vec<u8> = photo;
    append(&mut output, tail.as_slice());
    Some(
        Ok(
            Returned {
                output,
                watermark_metadata: has_watermark_entries(donor),
                entries: tail_entry_names(donor),
                raster_restored: false,
                exif_grafted,
            },
        ),
    )
}

/// Whether the donor's watermark canvas is restored: where the donor has a watermark, and
/// for Apple output only on request.
pub fn restores_canvas(route: Route, requested: bool, donor: &[u8]) -> (r: bool)
    ensures
        r == canvas_wanted(route, requested, has_watermark(donor@)),
{
    match route {
        Route::Stripped => false,
        Route::Apple => requested && has_watermark_entries(donor),
        Route::Oppo => has_watermark_entries(donor),
    }
}

} // verus!
