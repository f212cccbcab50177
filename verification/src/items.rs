//! Looking items up and copying their descriptions.

use crate::isobmff::{IlocEntry, IlocView, IrefEntry, ItemInfo, ItemView};
use crate::seqs::{first_where, lemma_first_where_at, lemma_first_where_none, views};
use crate::text::same_text;
use vstd::prelude::*;

verus! {

/// Being an item of a given type.
pub open spec fn item_typed(itype: Seq<char>) -> spec_fn(ItemView) -> bool {
    |it: ItemView| it.itype == itype
}

/// Being the location of a given item.
pub open spec fn iloc_for(item_id: u32) -> spec_fn(IlocView) -> bool {
    |e: IlocView| e.item_id == item_id
}

/// The largest item number, 1 where there is no item.
pub open spec fn max_item_id(items: Seq<ItemView>) -> u32
    decreases items.len(),
{
    if items.len() == 0 {
        1
    } else if items.len() == 1 {
        items[0].item_id
    } else {
        let rest = max_item_id(items.drop_last());
        if items.last().item_id >= rest {
            items.last().item_id
        } else {
            rest
        }
    }
}

/// The first item of a type.
pub fn find_item<'a>(items: &'a Vec<ItemInfo>, itype: &str) -> (r: Option<&'a ItemInfo>)
    ensures
        match r {
            Some(it) => first_where(views(items@), item_typed(itype@)) == Some(it@),
            None => first_where(views(items@), item_typed(itype@)) is None,
        },
{
    let mut i: usize = 0;
    while i < items.len()
        invariant
            i <= items@.len(),
            forall|j: int| 0 <= j < i ==> (#[trigger] items@[j]).itype@ != itype@,
        decreases items@.len() - i,
    {
        if same_text(items[i].itype.as_str(), itype) {
            proof {
                lemma_first_where_at(views(items@), item_typed(itype@), i as int);
            }
            return Some(&items[i]);
        }
        i = i + 1;
    }
    proof {
        lemma_first_where_none(views(items@), item_typed(itype@));
    }
    None
}

/// The first location entry of an item.
pub fn find_iloc<'a>(entries: &'a Vec<IlocEntry>, item_id: u32) -> (r: Option<&'a IlocEntry>)
    ensures
        match r {
            Some(e) => first_where(views(entries@), iloc_for(item_id)) == Some(e@),
            None => first_where(views(entries@), iloc_for(item_id)) is None,
        },
{
    let mut i: usize = 0;
    while i < entries.len()
        invariant
            i <= entries@.len(),
            forall|j: int| 0 <= j < i ==> (#[trigger] entries@[j]).item_id != item_id,
        decreases entries@.len() - i,
    {
        if entries[i].item_id == item_id {
            proof {
                lemma_first_where_at(views(entries@), iloc_for(item_id), i as int);
            }
            return Some(&entries[i]);
        }
        i = i + 1;
    }
    proof {
        lemma_first_where_none(views(entries@), iloc_for(item_id));
    }
    None
}

/// The largest item number, 1 where there is no item.
pub fn largest_item_id(items: &Vec<ItemInfo>) -> (r: u32)
    ensures
        r == max_item_id(views(items@)),
{
    if items.len() == 0 {
        return 1;
    }
    let mut max: u32 = items[0].item_id;
    let mut i: usize = 1;
    let ghost v = views(items@);
    assert(v.take(1) =~= seq![v[0]]);
    while i < items.len()
        invariant
            1 <= i <= items@.len(),
            v == views(items@),
            max == max_item_id(v.take(i as int)),
        decreases items@.len() - i,
    {
        assert(v.take(i + 1).drop_last() =~= v.take(i as int));
        assert(v.take(i + 1).last() == items@[i as int]@);
        if items[i].item_id >= max {
            max = items[i].item_id;
        }
        i = i + 1;
    }
    assert(v.take(i as int) =~= v);
    max
}

/// A copy of extents.
pub fn copy_extents(x: &Vec<(u64, u64)>) -> (r: Vec<(u64, u64)>)
    ensures
        r@ == x@,
{
    let mut out: Vec<(u64, u64)> = Vec::new();
    let mut i: usize = 0;
    while i < x.len()
        invariant
            i <= x@.len(),
            out@ == x@.take(i as int),
        decreases x@.len() - i,
    {
        out.push(x[i]);
        i = i + 1;
        assert(out@ =~= x@.take(i as int));
    }
    assert(out@ =~= x@);
    out
}

/// A copy of an item location.
pub fn copy_iloc(e: &IlocEntry) -> (r: IlocEntry)
    ensures
        r@ == e@,
{
    IlocEntry {
        item_id: e.item_id,
        construction_method: e.construction_method,
        data_reference_index: e.data_reference_index,
        extents: copy_extents(&e.extents),
    }
}

/// A copy of item locations.
pub fn copy_ilocs(entries: &Vec<IlocEntry>) -> (r: Vec<IlocEntry>)
    ensures
        views(r@) == views(entries@),
        r@.len() == entries@.len(),
{
    let mut out: Vec<IlocEntry> = Vec::new();
    let mut i: usize = 0;
    while i < entries.len()
        invariant
            i <= entries@.len(),
            out@.len() == i,
            forall|j: int| 0 <= j < i ==> (#[trigger] out@[j])@ == entries@[j]@,
        decreases entries@.len() - i,
    {
        out.push(copy_iloc(&entries[i]));
        i = i + 1;
    }
    assert(views(out@) =~= views(entries@));
    out
}

/// A copy of item numbers.
pub fn copy_ids(x: &Vec<u32>) -> (r: Vec<u32>)
    ensures
        r@ == x@,
{
    let mut out: Vec<u32> = Vec::new();
    let mut i: usize = 0;
    while i < x.len()
        invariant
            i <= x@.len(),
            out@ == x@.take(i as int),
        decreases x@.len() - i,
    {
        out.push(x[i]);
        i = i + 1;
        assert(out@ =~= x@.take(i as int));
    }
    assert(out@ =~= x@);
    out
}

/// A copy of a reference rule.
pub fn copy_iref(r: &IrefEntry) -> (c: IrefEntry)
    ensures
        c@ == r@,
{
    IrefEntry { rtype: r.rtype.clone(), from: r.from, to: copy_ids(&r.to) }
}

/// A copy of reference rules.
pub fn copy_irefs(refs: &Vec<IrefEntry>) -> (r: Vec<IrefEntry>)
    ensures
        views(r@) == views(refs@),
{
    let mut out: Vec<IrefEntry> = Vec::new();
    let mut i: usize = 0;
    while i < refs.len()
        invariant
            i <= refs@.len(),
            out@.len() == i,
            forall|j: int| 0 <= j < i ==> (#[trigger] out@[j])@ == refs@[j]@,
        decreases refs@.len() - i,
    {
        out.push(copy_iref(&refs[i]));
        i = i + 1;
    }
    assert(views(out@) =~= views(refs@));
    out
}

/// The raw infe boxes of items.
pub open spec fn raw_infes(items: Seq<ItemView>) -> Seq<Seq<u8>> {
    Seq::new(items.len(), |i: int| items[i].raw_infe)
}

/// The raw infe boxes of items.
pub fn copy_infes(items: &Vec<ItemInfo>) -> (r: Vec<Vec<u8>>)
    ensures
        views(r@) == raw_infes(views(items@)),
{
    let mut out: Vec<Vec<u8>> = Vec::new();
    let mut i: usize = 0;
    while i < items.len()
        invariant
            i <= items@.len(),
            out@.len() == i,
            forall|j: int| 0 <= j < i ==> (#[trigger] out@[j])@ == items@[j].raw_infe@,
        decreases items@.len() - i,
    {
        out.push(
            crate::bytes::copy_range(items[i].raw_infe.as_slice(), 0, items[i].raw_infe.len()),
        );
        assert(out@[i as int]@ =~= items@[i as int].raw_infe@);
        i = i + 1;
    }
    assert(views(out@) =~= raw_infes(views(items@)));
    out
}

} // verus!
