use crate::report::{
    MemberView, array_items, json_string, members_text, object_text, plain_list, portrait_members,
    writeback_members,
};
use crate::text::with_replaced;
use crate::writeback::ReturnedView;
use vstd::prelude::*;
use vstd::string::*;

verus! {

// ---------------------------------------------------------------------------
// Objects and lists
// ---------------------------------------------------------------------------

/// One member is its name in quotes, a colon and its value. Members are written in their order, with
/// a comma between two lists of them.
pub proof fn members_are_joined_by_commas(a: Seq<MemberView>, b: Seq<MemberView>, m: MemberView)
    ensures
        members_text(seq![m]) == seq!['\u{22}'] + m.name + seq!['\u{22}', ':'] + m.value,
        a.len() > 0 && b.len() > 0 ==> members_text(a + b) == members_text(a) + seq![','] + members_text(b),
        object_text(a) == seq!['{'] + members_text(a) + seq!['}'],
    decreases b.len(),
{
    reveal_strlit("");
    reveal_strlit(",");
    reveal_strlit("{");
    reveal_strlit("}");
    reveal_strlit("\"");
    reveal_strlit("\":");
    assert("\""@ =~= seq!['\u{22}']);
    assert("\":"@ =~= seq!['\u{22}', ':']);
    assert(","@ =~= seq![',']);
    assert("{"@ =~= seq!['{']);
    assert("}"@ =~= seq!['}']);
    assert(seq![m].drop_last() =~= Seq::empty());
    assert(members_text(Seq::<MemberView>::empty()) =~= Seq::empty());
    assert(members_text(seq![m]) =~= seq!['\u{22}'] + m.name + seq!['\u{22}', ':'] + m.value);
    if a.len() > 0 && b.len() > 0 {
        let front = b.drop_last();
        assert((a + b).drop_last() =~= a + front);
        assert((a + b).last() == b.last());
        if front.len() > 0 {
            members_are_joined_by_commas(a, front, m);
        } else {
            assert(a + front =~= a);
            assert(members_text(front) =~= Seq::empty());
        }
        assert(members_text(a + b) =~= members_text(a) + seq![','] + members_text(b));
    }
}

/// Texts stand in arrays in their order, with a comma between two lists of them.
pub proof fn elements_are_joined_by_commas(a: Seq<Seq<char>>, b: Seq<Seq<char>>, t: Seq<char>)
    ensures
        array_items(seq![t]) == json_string(t),
        a.len() > 0 && b.len() > 0 ==> array_items(a + b) == array_items(a) + seq![','] + array_items(b),
        plain_list(seq![t]) == seq!['\u{22}'] + t + seq!['\u{22}'],
        a.len() > 0 && b.len() > 0 ==> plain_list(a + b) == plain_list(a) + seq![','] + plain_list(b),
    decreases b.len(),
{
    reveal_strlit("");
    reveal_strlit(",");
    reveal_strlit("\"");
    assert("\""@ =~= seq!['\u{22}']);
    assert(","@ =~= seq![',']);
    assert(seq![t].drop_last() =~= Seq::empty());
    assert(array_items(Seq::<Seq<char>>::empty()) =~= Seq::empty());
    assert(plain_list(Seq::<Seq<char>>::empty()) =~= Seq::empty());
    assert(array_items(seq![t]) =~= json_string(t));
    assert(plain_list(seq![t]) =~= seq!['\u{22}'] + t + seq!['\u{22}']);
    if a.len() > 0 && b.len() > 0 {
        let front = b.drop_last();
        assert((a + b).drop_last() =~= a + front);
        assert((a + b).last() == b.last());
        if front.len() > 0 {
            elements_are_joined_by_commas(a, front, t);
        } else {
            assert(a + front =~= a);
            assert(array_items(front) =~= Seq::empty());
            assert(plain_list(front) =~= Seq::empty());
        }
        assert(array_items(a + b) =~= array_items(a) + seq![','] + array_items(b));
        assert(plain_list(a + b) =~= plain_list(a) + seq![','] + plain_list(b));
    }
}

/// A member of the name has the value.
pub open spec fn tells(members: Seq<MemberView>, name: Seq<char>, value: Seq<char>) -> bool {
    exists|i: int| 0 <= i < members.len() && #[trigger] members[i] == (MemberView { name, value })
}

/// The report of a photo that was written back tells what was done to it.
pub proof fn writebacks_are_told(p: ReturnedView, oppo: bool, requested: bool, timings: Seq<char>)
    ensures
        ({
            let m = writeback_members(p, oppo, requested, timings);
            let yes = "true"@;
            let no = "false"@;
            &&& m.len() == 10
            &&& tells(m, "errorMessage"@, "null"@)
            &&& tells(m, "success"@, yes)
            &&& tells(m, "outputValid"@, yes)
            &&& p.exif_grafted ==> tells(m, "exifGrafted"@, yes)
            &&& !p.exif_grafted ==> tells(m, "exifGrafted"@, no)
            &&& p.raster_restored ==> tells(m, "rasterWatermarkRestored"@, yes)
            &&& !p.raster_restored ==> tells(m, "rasterWatermarkRestored"@, no)
            &&& p.watermark_metadata ==> tells(m, "watermarkMetadataPreserved"@, yes)
            &&& !p.watermark_metadata ==> tells(m, "watermarkMetadataPreserved"@, no)
            &&& requested ==> tells(m, "requestedRasterWatermark"@, yes)
            &&& !requested ==> tells(m, "requestedRasterWatermark"@, no)
            &&& oppo ==> tells(m, "outputMode"@, json_string("oppo"@))
            &&& !oppo ==> tells(m, "outputMode"@, json_string("apple"@))
            &&& tells(m, "timingsMs"@, timings)
            &&& tells(m, "restoredOppoEntries"@, "["@ + array_items(p.entries) + "]"@)
        }),
{
    let m = writeback_members(p, oppo, requested, timings);
    assert(m[0].name == "errorMessage"@ && m[1].name == "exifGrafted"@ && m[2].name == "outputMode"@ && m[3].name
        == "outputValid"@ && m[4].name == "rasterWatermarkRestored"@ && m[5].name == "requestedRasterWatermark"@
        && m[6].name == "restoredOppoEntries"@ && m[7].name == "success"@ && m[8].name == "timingsMs"@ && m[9].name
        == "watermarkMetadataPreserved"@);
}

/// The report of a photo whose depth cannot be told says that it is not available and not safe to
/// transform, how it was classified, and why, where that is known.
pub proof fn portraits_without_depth_are_told(classification: Seq<char>, error: Option<Seq<char>>)
    ensures
        ({
            let m = portrait_members(classification, error);
            &&& tells(m, "available"@, "false"@)
            &&& tells(m, "safeToTransform"@, "false"@)
            &&& tells(m, "classification"@, json_string(classification))
            &&& tells(m, "schema"@, json_string("xdremux-portrait-depth-diagnostic-v1"@))
            &&& error matches Some(e) ==> m.len() == 5 && tells(m, "error"@, json_string(e))
        }),
        error is None ==> portrait_members(classification, error).len() == 4,
{
    let m = portrait_members(classification, error);
    let k: int = if error is Some {
        1
    } else {
        0
    };
    assert(m[0].name == "available"@ && m[1].name == "classification"@);
    assert(m[2 + k].name == "safeToTransform"@ && m[3 + k].name == "schema"@);
    if error is Some {
        assert(m[2].name == "error"@);
    }
}

// ---------------------------------------------------------------------------
// Escapes
// ---------------------------------------------------------------------------

/// What a reader makes of a text with backslashes: each one stands for the character behind it.
pub open spec fn read_escaped(s: Seq<char>) -> Seq<char>
    decreases s.len(),
{
    if s.len() == 0 {
        Seq::empty()
    } else if s[0] == '\\' && s.len() > 1 {
        seq![s[1]] + read_escaped(s.skip(2))
    } else {
        seq![s[0]] + read_escaped(s.skip(1))
    }
}

/// The backslashes of a text doubled, and one before each quote.
pub open spec fn slashed(s: Seq<char>) -> Seq<char> {
    with_replaced(with_replaced(s, '\\', "\\\\"@), '\u{22}', "\\\""@)
}

proof fn lemma_replaced_joined(a: Seq<char>, b: Seq<char>, c: char, with: Seq<char>)
    ensures
        with_replaced(a + b, c, with) == with_replaced(a, c, with) + with_replaced(b, c, with),
    decreases b.len(),
{
    if b.len() == 0 {
        assert(a + b =~= a);
        assert(with_replaced(b, c, with) =~= Seq::empty());
        assert(with_replaced(a, c, with) + with_replaced(b, c, with) =~= with_replaced(a, c, with));
    } else {
        let front = b.drop_last();
        lemma_replaced_joined(a, front, c, with);
        assert((a + b).drop_last() =~= a + front);
        assert((a + b).last() == b.last());
        assert(with_replaced(a + b, c, with) =~= with_replaced(a, c, with) + with_replaced(b, c, with));
    }
}

proof fn lemma_one_slashed(c: char)
    ensures
        slashed(seq![c]) == if c == '\\' || c == '\u{22}' {
            seq!['\\', c]
        } else {
            seq![c]
        },
{
    reveal_strlit("\\\\");
    reveal_strlit("\\\"");
    reveal_with_fuel(with_replaced, 3);
    assert("\\\\"@ =~= seq!['\\', '\\']);
    assert("\\\""@ =~= seq!['\\', '\u{22}']);
    let one = seq![c];
    assert(one.drop_last() =~= Seq::empty());
    let a = with_replaced(one, '\\', "\\\\"@);
    if c == '\\' {
        assert(a =~= seq!['\\', '\\']);
        assert(a.drop_last() =~= seq!['\\']);
        assert(a.drop_last().drop_last() =~= Seq::empty());
        assert(with_replaced(a, '\u{22}', "\\\""@) =~= seq!['\\', '\\']);
    } else {
        assert(a =~= one);
        assert(with_replaced(a, '\u{22}', "\\\""@) =~= if c == '\u{22}' {
            seq!['\\', c]
        } else {
            seq![c]
        });
    }
}

/// A message is read back from the form in which it is reported.
pub proof fn reported_messages_are_read_back(message: Seq<char>)
    ensures
        read_escaped(slashed(message)) == message,
    decreases message.len(),
{
    if message.len() == 0 {
        assert(with_replaced(message, '\\', "\\\\"@) =~= Seq::empty());
        assert(slashed(message) =~= Seq::empty());
        assert(read_escaped(slashed(message)) =~= message);
    } else {
        let c = message[0];
        let one = seq![c];
        let rest = message.skip(1);
        assert(one + rest =~= message);
        lemma_replaced_joined(one, rest, '\\', "\\\\"@);
        lemma_replaced_joined(
            with_replaced(one, '\\', "\\\\"@),
            with_replaced(rest, '\\', "\\\\"@),
            '\u{22}',
            "\\\""@,
        );
        assert(slashed(message) == slashed(one) + slashed(rest));
        lemma_one_slashed(c);
        reported_messages_are_read_back(rest);
        let s = slashed(message);
        if c == '\\' || c == '\u{22}' {
            assert(s[0] == '\\' && s[1] == c);
            assert(s.skip(2) =~= slashed(rest));
            assert(read_escaped(s) =~= message);
        } else {
            assert(s[0] == c);
            assert(s.skip(1) =~= slashed(rest));
            assert(read_escaped(s) =~= message);
        }
    }
}

} // verus!
