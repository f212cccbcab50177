//! When conversions and writebacks come to their end, and what options ask for.

use crate::bytes::starts_with;
use crate::container::{
    OppoCameraTail, display_filter_names, file_tail_without, tail_names, tail_start,
};
use crate::convert::{
    ConvertConfig, HuntView, OutcomeView, Settings, StageView, first_hunt, first_stage, next_hunt,
    next_stage, settings_of,
};
use crate::exif::OppoCompat;
use crate::isobmff::{MetaView, source_meta};
use crate::isobmff_write::{donor_payload, exif_payload, grafted};
use crate::jpeg_decode::SOI_MARKER;
use crate::payload_laws::{exif_fits, grafted_exif_is_that_of_the_donor};
use crate::reopened::holds_metadata;
use crate::writeback::{
    ReturnedView, Route, StepView, apple_return, canvas_wanted, first_step, next_step, oppo_return,
    route_for,
};
use vstd::prelude::*;

verus! {

// ---------------------------------------------------------------------------
// Conversions
// ---------------------------------------------------------------------------

/// What each step of a conversion comes to when it is taken.
#[verifier::ext_equal]
pub struct Outcomes {
    pub find: OutcomeView,
    pub parse: OutcomeView,
    pub from_jpeg: OutcomeView,
    pub extract: OutcomeView,
    pub from_sdr: OutcomeView,
    pub write: OutcomeView,
    pub read: OutcomeView,
    pub portrait: OutcomeView,
    pub write_portrait: OutcomeView,
    pub styles: OutcomeView,
    pub publish: OutcomeView,
}

/// What a step comes to.
pub open spec fn outcome_at(stage: StageView, o: Outcomes) -> OutcomeView {
    match stage {
        StageView::FindSrcImage => o.find,
        StageView::ParseJpeg => o.parse,
        StageView::SynthesizeJpeg => o.from_jpeg,
        StageView::Extract => o.extract,
        StageView::SynthesizeSdr(_) => o.from_sdr,
        StageView::WriteBase => o.write,
        StageView::ReadBase => o.read,
        StageView::MakePortrait => o.portrait,
        StageView::WritePortrait => o.write_portrait,
        StageView::MakeStyles => o.styles,
        StageView::Publish => o.publish,
        _ => OutcomeView::Done,
    }
}

/// The step that a conversion has come to `n` steps behind `stage`.
pub open spec fn stage_after(stage: StageView, s: Settings, jpeg: bool, o: Outcomes, n: nat) -> StageView
    decreases n,
{
    if n == 0 {
        stage
    } else {
        stage_after(
            next_stage(stage, s, jpeg, outcome_at(stage, o)),
            s,
            jpeg,
            o,
            (n - 1) as nat,
        )
    }
}

/// Whether a conversion gets a source with a gain map: the image in a portrait's tail, the
/// gain map of a JPEG that is built into a container, the data of a container, or, where
/// styles are asked for and there is no gain map, a container without one.
pub open spec fn has_source(s: Settings, jpeg: bool, o: Outcomes) -> bool {
    ||| s.portrait && o.find is Done
    ||| jpeg && o.parse is Done && o.from_jpeg is Done
    ||| !jpeg && o.extract is Done
    ||| s.styles && o.from_sdr is Done && !(if jpeg {
        o.parse is Done
    } else {
        o.extract is Done
    })
}

/// A conversion succeeds exactly where it gets a source, its output is written, the portrait,
/// where one is asked for, is built of that output and written, the styles, where they are
/// asked for, are built last, and a portrait without styles is published. It fails otherwise,
/// and takes eight steps at most.
pub proof fn conversions_succeed_with_their_steps(s: Settings, jpeg: bool, o: Outcomes)
    ensures
        ({
            let end = stage_after(first_stage(s, jpeg), s, jpeg, o, 8);
            let succeeds = {
                &&& has_source(s, jpeg, o)
                &&& o.write is Done
                &&& s.portrait ==> o.read is Done && o.portrait is Done && o.write_portrait is Done
                &&& s.portrait && !s.styles ==> o.publish is Done
                &&& s.styles ==> o.styles is Done
            };
            if succeeds {
                end is Finished
            } else {
                end is Broken
            }
        }),
{
    let a = first_stage(s, jpeg);
    let b = next_stage(a, s, jpeg, outcome_at(a, o));
    let c = next_stage(b, s, jpeg, outcome_at(b, o));
    let d = next_stage(c, s, jpeg, outcome_at(c, o));
    lemma_one_step(a, s, jpeg, o, 8);
    lemma_one_step(b, s, jpeg, o, 7);
    lemma_one_step(c, s, jpeg, o, 6);
    lemma_ended(b, s, jpeg, o, 7);
    lemma_ended(c, s, jpeg, o, 6);
    lemma_ended(d, s, jpeg, o, 5);
    lemma_from_base(s, jpeg, o, 5);
    lemma_from_base(s, jpeg, o, 6);
    lemma_from_base(s, jpeg, o, 7);
}

proof fn lemma_one_step(stage: StageView, s: Settings, jpeg: bool, o: Outcomes, n: nat)
    requires
        n > 0,
    ensures
        stage_after(stage, s, jpeg, o, n) == stage_after(
            next_stage(stage, s, jpeg, outcome_at(stage, o)),
            s,
            jpeg,
            o,
            (n - 1) as nat,
        ),
{
}

proof fn lemma_ended(stage: StageView, s: Settings, jpeg: bool, o: Outcomes, n: nat)
    ensures
        stage is Finished || stage is Broken ==> stage_after(stage, s, jpeg, o, n) == stage,
    decreases n,
{
    if n > 0 && (stage is Finished || stage is Broken) {
        lemma_one_step(stage, s, jpeg, o, n);
        lemma_ended(stage, s, jpeg, o, (n - 1) as nat);
    }
}

/// What a conversion comes to once it has a source.
proof fn lemma_from_base(s: Settings, jpeg: bool, o: Outcomes, n: nat)
    requires
        n >= 5,
    ensures
        ({
            let end = stage_after(StageView::WriteBase, s, jpeg, o, n);
            let succeeds = {
                &&& o.write is Done
                &&& s.portrait ==> o.read is Done && o.portrait is Done && o.write_portrait is Done
                &&& s.portrait && !s.styles ==> o.publish is Done
                &&& s.styles ==> o.styles is Done
            };
            if succeeds {
                end is Finished
            } else {
                end is Broken
            }
        }),
{
    let a = StageView::WriteBase;
    let b = next_stage(a, s, jpeg, outcome_at(a, o));
    let c = next_stage(b, s, jpeg, outcome_at(b, o));
    let d = next_stage(c, s, jpeg, outcome_at(c, o));
    let e = next_stage(d, s, jpeg, outcome_at(d, o));
    let f = next_stage(e, s, jpeg, outcome_at(e, o));
    lemma_one_step(a, s, jpeg, o, n);
    lemma_one_step(b, s, jpeg, o, (n - 1) as nat);
    lemma_one_step(c, s, jpeg, o, (n - 2) as nat);
    lemma_one_step(d, s, jpeg, o, (n - 3) as nat);
    lemma_one_step(e, s, jpeg, o, (n - 4) as nat);
    lemma_ended(b, s, jpeg, o, (n - 1) as nat);
    lemma_ended(c, s, jpeg, o, (n - 2) as nat);
    lemma_ended(d, s, jpeg, o, (n - 3) as nat);
    lemma_ended(e, s, jpeg, o, (n - 4) as nat);
    lemma_ended(f, s, jpeg, o, (n - 5) as nat);
}

/// The steps behind the output are those that were asked for, in their order.
pub proof fn features_follow_the_output(s: Settings, jpeg: bool)
    ensures
        ({
            let done = OutcomeView::Done;
            let step = |stage: StageView| next_stage(stage, s, jpeg, done);
            &&& step(StageView::WriteBase) == (if s.portrait {
                StageView::ReadBase
            } else if s.styles {
                StageView::MakeStyles
            } else {
                StageView::Finished
            })
            &&& step(StageView::ReadBase) == StageView::MakePortrait
            &&& step(StageView::MakePortrait) == StageView::WritePortrait
            &&& step(StageView::WritePortrait) == (if s.styles {
                StageView::MakeStyles
            } else {
                StageView::Publish
            })
        }),
{
}

/// Whether a text holds another.
pub open spec fn holds_text(text: Seq<char>, part: Seq<char>) -> bool {
    exists|i: int|
        0 <= i && i + part.len() <= text.len() && #[trigger] text.subrange(i, i + part.len())
            == part
}

proof fn lemma_holds(a: Seq<char>, part: Seq<char>, b: Seq<char>)
    ensures
        holds_text(a + part + b, part),
        holds_text(a + part, part),
        holds_text(part, part),
{
    let i = a.len() as int;
    assert((a + part + b).subrange(i, i + part.len()) =~= part);
    assert((a + part).subrange(i, i + part.len()) =~= part);
    assert(part.subrange(0int, 0int + part.len()) =~= part);
}

/// A conversion that breaks tells what its last step failed with, and why there was no gain
/// map where that was asked first. Only a JPEG that cannot be used for styles, and a failed
/// search, are passed over.
pub proof fn failures_are_told(stage: StageView, s: Settings, jpeg: bool, e: Seq<char>)
    requires
        !(stage is Broken),
        !(stage is Finished),
    ensures
        ({
            let next = next_stage(stage, s, jpeg, OutcomeView::Failed(e));
            &&& next matches StageView::Broken(text, _) ==> holds_text(text, e)
            &&& next is Broken <==> !(stage is FindSrcImage) && !(s.styles && (stage is ParseJpeg
                || stage is Extract))
            &&& stage is Extract && s.styles ==> next == StageView::SynthesizeSdr(Some(e))
            &&& stage matches StageView::SynthesizeSdr(Some(why)) ==> (
            next matches StageView::Broken(text, _) && holds_text(text, why))
        }),
{
    let none = Seq::<char>::empty();
    lemma_holds("Ultra HDR JPEG parse: "@, e, none);
    lemma_holds("Ultra HDR JPEG container synthesis: "@, e, none);
    lemma_holds("SDR styles source: "@, e, none);
    lemma_holds("read Rust Portrait base output: "@, e, none);
    lemma_holds("Rust Apple Portrait: "@, e, none);
    lemma_holds("write Rust Portrait output: "@, e, none);
    lemma_holds("publish Rust Portrait output: "@, e, none);
    match stage {
        StageView::SynthesizeSdr(Some(why)) => {
            let mid = why + " (SDR styles source: "@;
            lemma_holds(mid, e, ")"@);
            let rest = " (SDR styles source: "@ + e + ")"@;
            assert(why + " (SDR styles source: "@ + e + ")"@ =~= none + why + rest);
            lemma_holds(none, why, rest);
        },
        _ => {},
    }
}

/// A search finds the gain map of a JPEG where it has one, and the data of a container where
/// they can be extracted; a container that has none is tried as a JPEG under another name.
pub proof fn hunts_find_what_there_is(s: Seq<u8>, first: OutcomeView, second: OutcomeView)
    ensures
        ({
            let jpeg = s.len() >= 2 && s[0] == 0xff && s[1] == 0xd8;
            let one = next_hunt(first_hunt(s), first);
            let two = next_hunt(one, second);
            &&& jpeg && first is Done ==> one is FoundJpeg && two is FoundJpeg
            &&& jpeg && !(first is Done) ==> one is Missing && two is Missing
            &&& !jpeg && first is Done ==> one is FoundContainer && two is FoundContainer
            &&& !jpeg && !(first is Done) && second is Done ==> two is FoundJpeg
            &&& !jpeg && !(second is Done) ==> (first matches OutcomeView::Failed(e) ==> two
                == HuntView::Missing(e))
            &&& jpeg ==> (first matches OutcomeView::Failed(e) ==> one == HuntView::Missing(e))
        }),
{
    assert(SOI_MARKER@ =~= seq![0xffu8, 0xd8u8]);
    if s.len() >= 2 && s[0] == 0xff && s[1] == 0xd8 {
        assert(s.subrange(0, 2) =~= SOI_MARKER@);
    } else if starts_with(s, SOI_MARKER@) {
        assert(s.subrange(0, 2)[0] == s[0] && s.subrange(0, 2)[1] == s[1]);
    }
}

/// Options mean what their numbers say: each feature is asked for by any number but zero, the
/// compatibility and the tail by their own, and what names no tail asks for the whole tail
/// beside OPPO output and for one without private HDR data beside clean output. Without
/// options the output is clean and has no features.
pub proof fn options_mean_their_numbers(c: ConvertConfig)
    ensures
        ({
            let s = settings_of(Some(c));
            &&& s.strict_tmap <==> c.strict_tmap != 0
            &&& s.styles <==> c.apple_photographic_styles != 0
            &&& s.portrait <==> c.apple_portrait != 0
            &&& c.oppo_compat == 0 || c.oppo_compat > 6 ==> s.oppo_compat == OppoCompat::Off
            &&& c.oppo_compat == 1 ==> s.oppo_compat == OppoCompat::Auto
            &&& c.oppo_compat == 2 ==> s.oppo_compat == OppoCompat::On
            &&& c.oppo_compat == 3 ==> s.oppo_compat == OppoCompat::Tail
            &&& c.oppo_compat == 4 ==> s.oppo_compat == OppoCompat::Iso
            &&& c.oppo_compat == 5 ==> s.oppo_compat == OppoCompat::IsoNoLocal
            &&& c.oppo_compat == 6 ==> s.oppo_compat == OppoCompat::IsoGraph
            &&& c.oppo_camera_tail == 0 ==> s.tail_policy == OppoCameraTail::Off
            &&& c.oppo_camera_tail == 1 ==> s.tail_policy == OppoCameraTail::Watermark
            &&& c.oppo_camera_tail == 2 ==> s.tail_policy == OppoCameraTail::Compact
            &&& c.oppo_camera_tail == 3 ==> s.tail_policy == OppoCameraTail::Preserve
            &&& c.oppo_camera_tail == 4 ==> s.tail_policy == OppoCameraTail::PreserveWithoutPortrait
            &&& c.oppo_camera_tail == 5 ==> s.tail_policy
                == OppoCameraTail::PreserveWithoutPortraitOrPrivateHdr
            &&& c.oppo_camera_tail == 6 ==> s.tail_policy
                == OppoCameraTail::PreserveWithoutPrivateUhdr
            &&& c.oppo_camera_tail == 7 ==> s.tail_policy
                == OppoCameraTail::PreserveWithoutPrivateHdr
            &&& c.oppo_camera_tail == 8 ==> s.tail_policy == OppoCameraTail::PreserveNoUhdr
            &&& c.oppo_camera_tail == 9 ==> s.tail_policy == OppoCameraTail::PreserveNoHdr
            &&& c.oppo_camera_tail > 9 ==> s.tail_policy == (if 1 <= c.oppo_compat <= 6 {
                OppoCameraTail::Preserve
            } else {
                OppoCameraTail::PreserveWithoutPrivateHdr
            })
        }),
        settings_of(None) == (Settings {
            oppo_compat: OppoCompat::Off,
            tail_policy: OppoCameraTail::PreserveWithoutPrivateHdr,
            strict_tmap: false,
            styles: false,
            portrait: false,
        }),
{
}

// ---------------------------------------------------------------------------
// Writebacks
// ---------------------------------------------------------------------------

/// What each step of a writeback comes to when it is taken.
#[verifier::ext_equal]
pub struct BackOutcomes {
    pub extract: OutcomeView,
    pub canvas: OutcomeView,
    pub strip: OutcomeView,
    pub write: OutcomeView,
    pub read: OutcomeView,
    pub styles: OutcomeView,
}

/// What a step comes to.
pub open spec fn back_outcome(step: StepView, o: BackOutcomes) -> OutcomeView {
    match step {
        StepView::ExtractDonor => o.extract,
        StepView::RestoreCanvas => o.canvas,
        StepView::StripGraph => o.strip,
        StepView::WriteIso => o.write,
        StepView::ReadIso => o.read,
        StepView::MakeStyles => o.styles,
        _ => OutcomeView::Done,
    }
}

/// The step that a writeback has come to `n` steps behind `step`.
pub open spec fn step_after(step: StepView, route: Route, canvas: bool, o: BackOutcomes, n: nat) -> StepView
    decreases n,
{
    if n == 0 {
        step
    } else {
        step_after(
            next_step(step, route, canvas, back_outcome(step, o)),
            route,
            canvas,
            o,
            (n - 1) as nat,
        )
    }
}

/// A writeback succeeds exactly where the donor's gain map is extracted, the canvas is restored
/// where it is wanted, the old graph is removed, the output is written and read, and, for
/// Apple output, the styles are built; a photo that is only stripped needs none of this. It
/// fails otherwise, and takes six steps at most.
pub proof fn writebacks_succeed_with_their_steps(route: Route, canvas: bool, o: BackOutcomes)
    ensures
        ({
            let end = step_after(first_step(route), route, canvas, o, 6);
            let succeeds = route == Route::Stripped || {
                &&& o.extract is Done
                &&& canvas ==> o.canvas is Done
                &&& o.strip is Done
                &&& o.write is Done
                &&& o.read is Done
                &&& route == Route::Apple ==> o.styles is Done
            };
            if succeeds {
                end is Complete
            } else {
                end is Failed
            }
        }),
{
    reveal_with_fuel(step_after, 7);
}

/// A writeback restores the canvas, removes the old graph, writes, reads and styles in this
/// order.
pub proof fn writebacks_keep_their_order(route: Route, canvas: bool)
    ensures
        ({
            let done = OutcomeView::Done;
            let step = |at: StepView| next_step(at, route, canvas, done);
            &&& step(StepView::ExtractDonor) == (if canvas {
                StepView::RestoreCanvas
            } else {
                StepView::StripGraph
            })
            &&& step(StepView::RestoreCanvas) == StepView::StripGraph
            &&& step(StepView::StripGraph) == StepView::WriteIso
            &&& step(StepView::WriteIso) == StepView::ReadIso
            &&& step(StepView::ReadIso) == (if route == Route::Apple {
                StepView::MakeStyles
            } else {
                StepView::Complete
            })
            &&& step(StepView::MakeStyles) == StepView::Complete
        }),
{
}

/// A writeback that fails tells what its last step failed with.
pub proof fn writeback_failures_are_told(step: StepView, route: Route, canvas: bool, e: Seq<char>)
    requires
        !(step is Complete),
        !(step is Failed),
    ensures
        next_step(step, route, canvas, OutcomeView::Failed(e)) matches StepView::Failed(text)
            && holds_text(text, e),
{
    let none = Seq::<char>::empty();
    lemma_holds("read Apple ISO intermediate: "@, e, none);
    lemma_holds("read OPPO ISO intermediate: "@, e, none);
    lemma_holds("Rust Apple Styles writeback: "@, e, none);
}

/// Output for Apple is written back with mode 0, for OPPO with mode 1, both with the gain map
/// of a donor: without a donor, mode 0 strips the photo and mode 1 fails, as do all others. The
/// canvas is restored where the donor has a watermark: always for OPPO, on request for Apple.
pub proof fn routes_follow_mode_and_donor(mode: u8, donor: bool, requested: bool, watermark: bool)
    ensures
        route_for(mode, donor) matches Ok(Route::Apple) <==> mode == 0 && donor,
        route_for(mode, donor) matches Ok(Route::Stripped) <==> mode == 0 && !donor,
        route_for(mode, donor) matches Ok(Route::Oppo) <==> mode == 1 && donor,
        route_for(mode, donor) is Err <==> mode > 1 || (mode == 1 && !donor),
        canvas_wanted(Route::Oppo, requested, watermark) == watermark,
        canvas_wanted(Route::Apple, requested, watermark) == (watermark && requested),
        !canvas_wanted(Route::Stripped, requested, watermark),
{
}

/// A photo that was completed for Apple has the Exif payload of its donor.
pub proof fn apple_photos_have_the_donors_exif(
    photo: Seq<u8>,
    m: MetaView,
    donor: Seq<u8>,
    payload: Seq<u8>,
    v: ReturnedView,
)
    requires
        holds_metadata(photo),
        source_meta(photo) == Some(Ok::<MetaView, Seq<char>>(m)),
        donor_payload(donor) == Some(Ok::<Seq<u8>, Seq<char>>(payload)),
        exif_fits(photo, m, payload),
        apple_return(photo, donor) == Some(Ok::<ReturnedView, Seq<char>>(v)),
        v.exif_grafted,
        v.output.len() <= u32::MAX,
    ensures
        exif_payload(v.output) == exif_payload(donor),
        v.entries.len() == 0,
        !v.watermark_metadata,
{
    grafted_exif_is_that_of_the_donor(photo, m, donor, payload, v.output);
}

/// A photo that was completed for OPPO is the photo with the donor's Exif payload, and behind
/// it the donor's tail, in which every display filter was renamed and nothing moved.
pub proof fn oppo_photos_end_with_the_donors_tail(
    photo: Seq<u8>,
    m: MetaView,
    donor: Seq<u8>,
    payload: Seq<u8>,
    v: ReturnedView,
    p: int,
)
    requires
        holds_metadata(photo),
        source_meta(photo) == Some(Ok::<MetaView, Seq<char>>(m)),
        donor_payload(donor) == Some(Ok::<Seq<u8>, Seq<char>>(payload)),
        exif_fits(photo, m, payload),
        oppo_return(photo, donor) == Some(Ok::<ReturnedView, Seq<char>>(v)),
        v.exif_grafted,
        v.output.len() <= u32::MAX,
        tail_start(donor) == Some(p),
        0 <= p <= donor.len(),
    ensures
        ({
            let n = v.output.len() - (donor.len() - p);
            &&& 0 <= n
            &&& exif_payload(v.output.take(n)) == exif_payload(donor)
            &&& file_tail_without(donor, display_filter_names()) == Some(v.output.skip(n))
            &&& v.entries == tail_names(donor)
        }),
{
    let output = grafted(photo, donor)->0->Ok_0->0;
    let tail = file_tail_without(donor, display_filter_names())->0;
    let n = v.output.len() - (donor.len() - p);
    assert(tail.len() == donor.len() - p);
    assert(v.output.take(n) =~= output);
    assert(v.output.skip(n) =~= tail);
    grafted_exif_is_that_of_the_donor(photo, m, donor, payload, output);
}

} // verus!
