//! Reports to callers, as JSON text with the members of each object in order of their
//! names.

use crate::iso_validate::hex_digit;
use crate::isobmff_write::opt_text;
use crate::seqs::views;
use crate::text::{decimal, decimal_text, join, replace_char, with_replaced};
use crate::writeback::{Returned, ReturnedView};
use vstd::prelude::*;

verus! {

/// A character as it stands in a JSON string.
pub open spec fn json_char(c: char) -> Seq<char> {
    let n = c as u32;
    if n == 0x22 {
        seq!['\\', '\u{22}']
    } else if n == 0x5c {
        seq!['\\', '\\']
    } else if n == 0x08 {
        seq!['\\', 'b']
    } else if n == 0x09 {
        seq!['\\', 't']
    } else if n == 0x0a {
        seq!['\\', 'n']
    } else if n == 0x0c {
        seq!['\\', 'f']
    } else if n == 0x0d {
        seq!['\\', 'r']
    } else if n < 0x20 {
        seq!['\\', 'u', '0', '0'] + hex_digit(n as int / 16) + hex_digit(n as int % 16)
    } else {
        seq![c]
    }
}

/// The characters of a text as they stand in a JSON string.
pub open spec fn json_chars(s: Seq<char>) -> Seq<char>
    decreases s.len(),
{
    if s.len() == 0 {
        Seq::empty()
    } else {
        json_chars(s.drop_last()) + json_char(s.last())
    }
}

/// A text as a JSON string.
pub open spec fn json_string(s: Seq<char>) -> Seq<char> {
    seq!['\u{22}'] + json_chars(s) + seq!['\u{22}']
}

/// Writes a text as a JSON string by `serde_json::to_string`, which quotes it and escapes
/// quotes, backslashes and control characters, and never fails for text.
#[verifier::external_body]
fn quote(text: &str) -> (r: String)
    ensures
        r@ == json_string(text@),
{
    serde_json::to_string(text).unwrap_or_default()
}

/// A member of a JSON object: its name, which needs no escapes, and its value as JSON.
pub struct Member {
    pub name: String,
    pub value: String,
}

/// A member of a JSON object.
#[verifier::ext_equal]
pub struct MemberView {
    pub name: Seq<char>,
    pub value: Seq<char>,
}

impl View for Member {
    type V = MemberView;

    open spec fn view(&self) -> MemberView {
        MemberView { name: self.name@, value: self.value@ }
    }
}

/// The members of a JSON object with commas between them.
pub open spec fn members_text(members: Seq<MemberView>) -> Seq<char>
    decreases members.len(),
{
    if members.len() == 0 {
        ""@
    } else {
        let m = members.last();
        let before = members_text(members.drop_last());
        (if members.len() > 1 {
            before + ","@
        } else {
            before
        }) + "\""@ + m.name + "\":"@ + m.value
    }
}

/// A JSON object.
pub open spec fn object_text(members: Seq<MemberView>) -> Seq<char> {
    "{"@ + members_text(members) + "}"@
}

fn write_object(members: &Vec<Member>) -> (r: String)
    ensures
        r@ == object_text(views(members@)),
{
    let ghost v = views(members@);
    let mut out: String = "".to_string();
    let mut i: usize = 0;
    assert(v.take(0) =~= Seq::empty());
    while i < members.len()
        invariant
            i <= members@.len(),
            v == views(members@),
            out@ == members_text(v.take(i as int)),
        decreases members@.len() - i,
    {
        let start: String = if i > 0 {
            join(out.as_str(), ",")
        } else {
            out
        };
        let named: String = join(
            join(join(start.as_str(), "\"").as_str(), members[i].name.as_str()).as_str(),
            "\":",
        );
        out = join(named.as_str(), members[i].value.as_str());
        proof {
            assert(v.take(i + 1).drop_last() =~= v.take(i as int));
            assert(v.take(i + 1).last() == members@[i as int]@);
        }
        i = i + 1;
    }
    assert(v.take(i as int) =~= v);
    join(join("{", out.as_str()).as_str(), "}")
}

/// A member whose value is a text.
pub open spec fn text_member(name: Seq<char>, text: Seq<char>) -> MemberView {
    MemberView { name, value: json_string(text) }
}

/// A member whose value is true or false.
pub open spec fn flag_member(name: Seq<char>, flag: bool) -> MemberView {
    MemberView {
        name,
        value: if flag {
            "true"@
        } else {
            "false"@
        },
    }
}

fn text(name: &str, value: &str) -> (r: Member)
    ensures
        r@ == text_member(name@, value@),
{
    Member { name: name.to_string(), value: quote(value) }
}

fn flag(name: &str, value: bool) -> (r: Member)
    ensures
        r@ == flag_member(name@, value),
{
    Member {
        name: name.to_string(),
        value: if value {
            "true".to_string()
        } else {
            "false".to_string()
        },
    }
}

fn raw(name: &str, value: String) -> (r: Member)
    ensures
        r@ == (MemberView { name: name@, value: value@ }),
{
    Member { name: name.to_string(), value }
}

/// Report a failure.
pub fn failure_report(error: &str) -> (r: String)
    ensures
        r@ == object_text(
            seq![text_member("errorMessage"@, error@), flag_member("success"@, false)],
        ),
{
    let members: Vec<Member> = vec![text("errorMessage", error), flag("success", false)];
    assert(views(members@) =~= seq![
        text_member("errorMessage"@, error@),
        flag_member("success"@, false),
    ]);
    write_object(&members)
}

/// Report that a photo is no Motion Photo, or why that is not known.
pub fn no_motion_report(error: Option<&str>) -> (r: String)
    ensures
        r@ == object_text(
            match opt_text(error) {
                Some(e) => seq![
                    text_member("errorMessage"@, e),
                    flag_member("isMotionPhoto"@, false),
                ],
                None => seq![flag_member("isMotionPhoto"@, false)],
            },
        ),
{
    match error {
        Some(e) => {
            let members: Vec<Member> = vec![text("errorMessage", e), flag("isMotionPhoto", false)];
            assert(views(members@) =~= seq![
                text_member("errorMessage"@, e@),
                flag_member("isMotionPhoto"@, false),
            ]);
            write_object(&members)
        },
        None => {
            let members: Vec<Member> = vec![flag("isMotionPhoto", false)];
            assert(views(members@) =~= seq![flag_member("isMotionPhoto"@, false)]);
            write_object(&members)
        },
    }
}

/// Report a Live Photo pair.
pub fn live_photo_report(still_path: &str, video_path: &str, content_identifier: &str) -> (r: String)
    ensures
        r@ == object_text(
            seq![
                text_member("contentIdentifier"@, content_identifier@),
                text_member("stillPath"@, still_path@),
                flag_member("success"@, true),
                text_member("videoPath"@, video_path@),
            ],
        ),
{
    let members: Vec<Member> = vec![
        text("contentIdentifier", content_identifier),
        text("stillPath", still_path),
        flag("success", true),
        text("videoPath", video_path),
    ];
    assert(views(members@) =~= seq![
        text_member("contentIdentifier"@, content_identifier@),
        text_member("stillPath"@, still_path@),
        flag_member("success"@, true),
        text_member("videoPath"@, video_path@),
    ]);
    write_object(&members)
}

/// Report the replacement of a style payload.
pub fn style_report(out_path: &str, renamed: bool, payload_len: usize) -> (r: String)
    ensures
        r@ == object_text(
            seq![
                text_member("outPath"@, out_path@),
                MemberView { name: "payloadLen"@, value: decimal_text(payload_len as int) },
                flag_member("renamed"@, renamed),
                flag_member("success"@, true),
            ],
        ),
{
    let members: Vec<Member> = vec![
        text("outPath", out_path),
        raw("payloadLen", decimal(payload_len as u64)),
        flag("renamed", renamed),
        flag("success", true),
    ];
    assert(views(members@) =~= seq![
        text_member("outPath"@, out_path@),
        MemberView { name: "payloadLen"@, value: decimal_text(payload_len as int) },
        flag_member("renamed"@, renamed),
        flag_member("success"@, true),
    ]);
    write_object(&members)
}

/// Texts as the elements of a JSON array.
pub open spec fn array_items(texts: Seq<Seq<char>>) -> Seq<char>
    decreases texts.len(),
{
    if texts.len() == 0 {
        ""@
    } else {
        let before = array_items(texts.drop_last());
        (if texts.len() > 1 {
            before + ","@
        } else {
            before
        }) + json_string(texts.last())
    }
}

fn write_array(texts: &Vec<String>) -> (r: String)
    ensures
        r@ == "["@ + array_items(views(texts@)) + "]"@,
{
    let ghost v = views(texts@);
    let mut out: String = "".to_string();
    let mut i: usize = 0;
    assert(v.take(0) =~= Seq::empty());
    while i < texts.len()
        invariant
            i <= texts@.len(),
            v == views(texts@),
            out@ == array_items(v.take(i as int)),
        decreases texts@.len() - i,
    {
        let start: String = if i > 0 {
            join(out.as_str(), ",")
        } else {
            out
        };
        out = join(start.as_str(), quote(texts[i].as_str()).as_str());
        proof {
            assert(v.take(i + 1).drop_last() =~= v.take(i as int));
            assert(v.take(i + 1).last() == texts@[i as int]@);
        }
        i = i + 1;
    }
    assert(v.take(i as int) =~= v);
    join(join("[", out.as_str()).as_str(), "]")
}

/// What is reported of a photo that was written back; `timings` is JSON.
pub open spec fn writeback_members(
    p: ReturnedView,
    oppo: bool,
    requested: bool,
    timings: Seq<char>,
) -> Seq<MemberView> {
    seq![
        MemberView { name: "errorMessage"@, value: "null"@ },
        flag_member("exifGrafted"@, p.exif_grafted),
        text_member(
            "outputMode"@,
            if oppo {
                "oppo"@
            } else {
                "apple"@
            },
        ),
        flag_member("outputValid"@, true),
        flag_member("rasterWatermarkRestored"@, p.raster_restored),
        flag_member("requestedRasterWatermark"@, requested),
        MemberView {
            name: "restoredOppoEntries"@,
            value: "["@ + array_items(p.entries) + "]"@,
        },
        flag_member("success"@, true),
        MemberView { name: "timingsMs"@, value: timings },
        flag_member("watermarkMetadataPreserved"@, p.watermark_metadata),
    ]
}

/// Report a photo that was written back; `timings` is JSON.
pub fn writeback_report(photo: &Returned, oppo: bool, requested: bool, timings: String) -> (r: String)
    ensures
        r@ == object_text(writeback_members(photo@, oppo, requested, timings@)),
{
    let ghost t = timings@;
    let mode: &str = if oppo {
        "oppo"
    } else {
        "apple"
    };
    let members: Vec<Member> = vec![
        raw("errorMessage", "null".to_string()),
        flag("exifGrafted", photo.exif_grafted),
        text("outputMode", mode),
        flag("outputValid", true),
        flag("rasterWatermarkRestored", photo.raster_restored),
        flag("requestedRasterWatermark", requested),
        raw("restoredOppoEntries", write_array(&photo.entries)),
        flag("success", true),
        raw("timingsMs", timings),
        flag("watermarkMetadataPreserved", photo.watermark_metadata),
    ];
    assert(views(members@) =~= writeback_members(photo@, oppo, requested, t));
    write_object(&members)
}

/// Report that a photo was not written back.
pub fn writeback_failure_report(error: &str) -> (r: String)
    ensures
        r@ == object_text(
            seq![
                text_member("errorMessage"@, error@),
                flag_member("outputValid"@, false),
                flag_member("rasterWatermarkRestored"@, false),
                flag_member("success"@, false),
                flag_member("watermarkMetadataPreserved"@, false),
            ],
        ),
{
    let members: Vec<Member> = vec![
        text("errorMessage", error),
        flag("outputValid", false),
        flag("rasterWatermarkRestored", false),
        flag("success", false),
        flag("watermarkMetadataPreserved", false),
    ];
    assert(views(members@) =~= seq![
        text_member("errorMessage"@, error@),
        flag_member("outputValid"@, false),
        flag_member("rasterWatermarkRestored"@, false),
        flag_member("success"@, false),
        flag_member("watermarkMetadataPreserved"@, false),
    ]);
    write_object(&members)
}

/// What is reported of a photo whose portrait depth cannot be told.
pub open spec fn portrait_members(classification: Seq<char>, error: Option<Seq<char>>) -> Seq<MemberView> {
    let head = seq![
        flag_member("available"@, false),
        text_member("classification"@, classification),
    ];
    let tail = seq![
        flag_member("safeToTransform"@, false),
        text_member("schema"@, "xdremux-portrait-depth-diagnostic-v1"@),
    ];
    match error {
        Some(e) => head + seq![text_member("error"@, e)] + tail,
        None => head + tail,
    }
}

/// Report that the portrait depth of a photo cannot be told.
pub fn portrait_failure_report(classification: &str, error: Option<&str>) -> (r: String)
    ensures
        r@ == object_text(portrait_members(classification@, opt_text(error))),
{
    let mut members: Vec<Member> = vec![
        flag("available", false),
        text("classification", classification),
    ];
    match error {
        Some(e) => {
            members.push(text("error", e));
        },
        None => {},
    }
    members.push(flag("safeToTransform", false));
    members.push(text("schema", "xdremux-portrait-depth-diagnostic-v1"));
    assert(views(members@) =~= portrait_members(classification@, opt_text(error)));
    write_object(&members)
}

/// Texts in plain quotes with commas between them.
pub open spec fn plain_list(texts: Seq<Seq<char>>) -> Seq<char>
    decreases texts.len(),
{
    if texts.len() == 0 {
        ""@
    } else {
        let before = plain_list(texts.drop_last());
        (if texts.len() > 1 {
            before + ","@
        } else {
            before
        }) + "\""@ + texts.last() + "\""@
    }
}

/// Report what was attached to a photo.
pub fn attach_report(status: &str, added: &Vec<String>) -> (r: String)
    ensures
        r@ == "{\"status\":\""@ + status@ + "\",\"added\":["@ + plain_list(views(added@)) + "]}"@,
{
    let ghost v = views(added@);
    let mut out: String = "".to_string();
    let mut i: usize = 0;
    assert(v.take(0) =~= Seq::empty());
    while i < added.len()
        invariant
            i <= added@.len(),
            v == views(added@),
            out@ == plain_list(v.take(i as int)),
        decreases added@.len() - i,
    {
        let start: String = if i > 0 {
            join(out.as_str(), ",")
        } else {
            out
        };
        out = join(join(join(start.as_str(), "\"").as_str(), added[i].as_str()).as_str(), "\"");
        proof {
            assert(v.take(i + 1).drop_last() =~= v.take(i as int));
            assert(v.take(i + 1).last() == added@[i as int]@);
        }
        i = i + 1;
    }
    assert(v.take(i as int) =~= v);
    let head: String = join(join("{\"status\":\"", status).as_str(), "\",\"added\":[");
    join(join(head.as_str(), out.as_str()).as_str(), "]}")
}

/// Report why nothing was attached to a photo.
pub fn attach_failure_report(message: &str) -> (r: String)
    ensures
        r@ == "{\"status\":\"error\",\"message\":\""@ + with_replaced(
            with_replaced(message@, '\\', "\\\\"@),
            '\u{22}',
            "\\\""@,
        ) + "\"}"@,
{
    let slashed: String = replace_char(message, '\\', "\\\\");
    let escaped: String = replace_char(slashed.as_str(), '\u{22}', "\\\"");
    join(join("{\"status\":\"error\",\"message\":\"", escaped.as_str()).as_str(), "\"}")
}

} // verus!
