//! Which items of a sheet a region takes along, and what they read afterwards.

use vstd::prelude::*;
use crate::again::{block_of, exchanges_kid, kid, lemma_kids};
use crate::alike::{lemma_block_of_itself, lemma_coord_heads};
use crate::back::{lemma_moved_block, lemma_moving_edits, moves_item, moves_some, numbers};
use crate::coord::{coord_range, read_coord, FixedCoord, Site};
use crate::edit::{
    edited, in_line, lemma_in_line_ordered, lemma_one_edit, lengthened, rewritten, Edit,
};
use crate::node::{found, found_all, found_text, head, parsed, Sexp};
use crate::num::Num;
use crate::numeral::{coordinate, pair, point, Point};
use crate::region::{
    all_plain, all_read, decision, item_at, item_moved, item_sites, items, items_below, lemma_items,
    lemma_items_below, moving, reads, site_edits, turned, with_list, with_points, with_properties,
    Box2, Item, Reading, RegionKind,
};
use crate::reread::law_coordinates_read_back;
use crate::scan::{
    block_end, block_starts, direct_children, lemma_block_end, lemma_direct_children,
    lemma_direct_children_apart,
};
use crate::text::{occurs_at, utf8};

verus! {

// ── The items of a sheet ─────────────────────────────────────────────────────

/// A head of items that one anchor places.
pub open spec fn anchored_head(tag: Seq<u8>) -> bool {
    ||| tag == utf8("label"@)
    ||| tag == utf8("global_label"@)
    ||| tag == utf8("hierarchical_label"@)
    ||| tag == utf8("junction"@)
    ||| tag == utf8("no_connect"@)
    ||| tag == utf8("text"@)
    ||| tag == utf8("text_box"@)
}

/// An item of the sheet stands in a block, under a uuid and a name.
pub open spec fn listed_as(s: Seq<u8>, b: (int, int), uuid: Seq<u8>, label: Seq<char>, k: int) -> bool {
    &&& 0 <= k < items(s).len()
    &&& items(s)[k].span == b
    &&& items(s)[k].uuid == uuid
    &&& items(s)[k].kind.label() == label
}

/// An item that stands in one of the first blocks is listed.
proof fn lemma_listed(s: Seq<u8>, blocks: Seq<(int, int)>, n: int, m: int) -> (k: int)
    requires
        0 <= m < n <= blocks.len(),
        item_at(s, blocks[m]) is Some,
    ensures
        0 <= k < items_below(s, blocks, n).len(),
        items_below(s, blocks, n)[k] == item_at(s, blocks[m])->0,
    decreases n,
{
    if m == n - 1 {
        items_below(s, blocks, n - 1).len() as int
    } else {
        let k = lemma_listed(s, blocks, n - 1, m);
        assert(items_below(s, blocks, n)[k] == items_below(s, blocks, n - 1)[k]);
        k
    }
}

proof fn lemma_heads_differ()
    ensures
        forall|tag: Seq<u8>| #[trigger]
            anchored_head(tag) ==> tag != utf8("wire"@) && tag != utf8("rectangle"@) && tag != utf8(
                "symbol"@,
            ),
        utf8("wire"@) != utf8("rectangle"@),
        utf8("wire"@) != utf8("symbol"@),
        utf8("rectangle"@) != utf8("symbol"@),
        utf8("label"@) != utf8("global_label"@),
        utf8("label"@) != utf8("hierarchical_label"@),
        utf8("label"@) != utf8("junction"@),
        utf8("label"@) != utf8("no_connect"@),
        utf8("label"@) != utf8("text"@),
        utf8("label"@) != utf8("text_box"@),
        utf8("global_label"@) != utf8("hierarchical_label"@),
        utf8("global_label"@) != utf8("junction"@),
        utf8("global_label"@) != utf8("no_connect"@),
        utf8("global_label"@) != utf8("text"@),
        utf8("global_label"@) != utf8("text_box"@),
        utf8("hierarchical_label"@) != utf8("junction"@),
        utf8("hierarchical_label"@) != utf8("no_connect"@),
        utf8("hierarchical_label"@) != utf8("text"@),
        utf8("hierarchical_label"@) != utf8("text_box"@),
        utf8("junction"@) != utf8("no_connect"@),
        utf8("junction"@) != utf8("text"@),
        utf8("junction"@) != utf8("text_box"@),
        utf8("no_connect"@) != utf8("text"@),
        utf8("no_connect"@) != utf8("text_box"@),
        utf8("text"@) != utf8("text_box"@),
{
    reveal_strlit("label");
    reveal_strlit("global_label");
    reveal_strlit("hierarchical_label");
    reveal_strlit("junction");
    reveal_strlit("no_connect");
    reveal_strlit("text");
    reveal_strlit("text_box");
    reveal_strlit("wire");
    reveal_strlit("rectangle");
    reveal_strlit("symbol");
    vstd::utf8::is_ascii_chars_encode_utf8("label"@);
    vstd::utf8::is_ascii_chars_encode_utf8("global_label"@);
    vstd::utf8::is_ascii_chars_encode_utf8("hierarchical_label"@);
    vstd::utf8::is_ascii_chars_encode_utf8("junction"@);
    vstd::utf8::is_ascii_chars_encode_utf8("no_connect"@);
    vstd::utf8::is_ascii_chars_encode_utf8("text"@);
    vstd::utf8::is_ascii_chars_encode_utf8("text_box"@);
    vstd::utf8::is_ascii_chars_encode_utf8("wire"@);
    vstd::utf8::is_ascii_chars_encode_utf8("rectangle"@);
    vstd::utf8::is_ascii_chars_encode_utf8("symbol"@);
    assert(utf8("label"@)[0] == 0x6c);
    assert(utf8("global_label"@)[0] == 0x67);
    assert(utf8("hierarchical_label"@)[0] == 0x68);
    assert(utf8("junction"@)[0] == 0x6a);
    assert(utf8("no_connect"@)[0] == 0x6e);
    assert(utf8("text"@)[0] == 0x74);
    assert(utf8("text_box"@)[0] == 0x74);
    assert(utf8("wire"@)[0] == 0x77);
    assert(utf8("rectangle"@)[0] == 0x72);
    assert(utf8("symbol"@)[0] == 0x73);
    assert(utf8("text"@).len() != utf8("text_box"@).len());
}

/// Every label, junction, no-connect and text of a sheet that has a uuid is an
/// item of it, under the name of its head, and its anchor decides for it.
pub proof fn law_anchored_items_are_found(s: Seq<u8>, m: int, t: Sexp, uuid: Seq<u8>, tag: Seq<char>)
    requires
        0 <= m < direct_children(s, utf8("kicad_sch"@)).len(),
        parsed(kid(s, utf8("kicad_sch"@), m)) == Some(t),
        head(t) == Some(utf8(tag)),
        anchored_head(utf8(tag)),
        found_text(t, utf8("uuid"@)) == Some(uuid),
    ensures
        exists|k: int| #[trigger]
            listed_as(s, direct_children(s, utf8("kicad_sch"@))[m], uuid, tag, k) && {
                &&& items(s)[k].a == point(t, utf8("at"@))
                &&& items(s)[k].b is None
                &&& !(items(s)[k].kind is Wire)
                &&& !(items(s)[k].kind is Rectangle)
            },
{
    let blocks = direct_children(s, utf8("kicad_sch"@));
    lemma_heads_differ();
    assert(item_at(s, blocks[m]) is Some);
    let k = lemma_listed(s, blocks, blocks.len() as int, m);
    crate::text::lemma_utf8_injective(tag, items(s)[k].kind.label());
    assert(listed_as(s, blocks[m], uuid, tag, k));
}

/// The name of a placed symbol among the items of a sheet.
pub open spec fn symbol_label(t: Sexp) -> Seq<char> {
    if found_text(t, utf8("lib_id"@)) matches Some(lib) && occurs_at(lib, utf8("power:"@), 0) {
        "power_symbol"@
    } else {
        "symbol"@
    }
}

/// Every placed symbol of a sheet that has a uuid is an item of it, one of the
/// power library under a name of its own, and its anchor decides for it.
pub proof fn law_symbols_are_found(s: Seq<u8>, m: int, t: Sexp, uuid: Seq<u8>)
    requires
        0 <= m < direct_children(s, utf8("kicad_sch"@)).len(),
        parsed(kid(s, utf8("kicad_sch"@), m)) == Some(t),
        head(t) == Some(utf8("symbol"@)),
        found(t, utf8("lib_id"@)) is Some,
        found_text(t, utf8("uuid"@)) == Some(uuid),
    ensures
        exists|k: int| #[trigger]
            listed_as(
                s,
                direct_children(s, utf8("kicad_sch"@))[m],
                uuid,
                symbol_label(t),
                k,
            ) && {
                &&& items(s)[k].a == point(t, utf8("at"@))
                &&& items(s)[k].b is None
                &&& !(items(s)[k].kind is Wire)
                &&& !(items(s)[k].kind is Rectangle)
            },
{
    let blocks = direct_children(s, utf8("kicad_sch"@));
    lemma_heads_differ();
    assert(!anchored_head(utf8("symbol"@)));
    assert(item_at(s, blocks[m]) is Some);
    let k = lemma_listed(s, blocks, blocks.len() as int, m);
    assert(listed_as(s, blocks[m], uuid, symbol_label(t), k));
}

/// Every wire of a sheet that has a uuid and two points is an item of it, and
/// those points decide for it.
pub proof fn law_wires_are_found(
    s: Seq<u8>,
    m: int,
    t: Sexp,
    uuid: Seq<u8>,
    pts: Sexp,
    p: Point,
    q: Point,
)
    requires
        0 <= m < direct_children(s, utf8("kicad_sch"@)).len(),
        parsed(kid(s, utf8("kicad_sch"@), m)) == Some(t),
        head(t) == Some(utf8("wire"@)),
        found_text(t, utf8("uuid"@)) == Some(uuid),
        found(t, utf8("pts"@)) == Some(pts),
        found_all(pts, utf8("xy"@)).len() >= 2,
        pair(found_all(pts, utf8("xy"@))[0]) == Some(p),
        pair(found_all(pts, utf8("xy"@))[1]) == Some(q),
    ensures
        exists|k: int| #[trigger]
            listed_as(s, direct_children(s, utf8("kicad_sch"@))[m], uuid, "wire"@, k) && {
                &&& items(s)[k].a == Some(p)
                &&& items(s)[k].b == Some(q)
                &&& items(s)[k].kind is Wire
            },
{
    let blocks = direct_children(s, utf8("kicad_sch"@));
    assert(item_at(s, blocks[m]) is Some);
    let k = lemma_listed(s, blocks, blocks.len() as int, m);
    assert(listed_as(s, blocks[m], uuid, "wire"@, k));
}

/// Every rectangle of a sheet that has a uuid is an item of it, and its two
/// corners decide for it.
pub proof fn law_rectangles_are_found(s: Seq<u8>, m: int, t: Sexp, uuid: Seq<u8>)
    requires
        0 <= m < direct_children(s, utf8("kicad_sch"@)).len(),
        parsed(kid(s, utf8("kicad_sch"@), m)) == Some(t),
        head(t) == Some(utf8("rectangle"@)),
        found_text(t, utf8("uuid"@)) == Some(uuid),
    ensures
        exists|k: int| #[trigger]
            listed_as(s, direct_children(s, utf8("kicad_sch"@))[m], uuid, "rectangle"@, k) && {
                &&& items(s)[k].a == point(t, utf8("start"@))
                &&& items(s)[k].b == point(t, utf8("end"@))
                &&& items(s)[k].kind is Rectangle
            },
{
    let blocks = direct_children(s, utf8("kicad_sch"@));
    lemma_heads_differ();
    assert(!anchored_head(utf8("rectangle"@)));
    assert(item_at(s, blocks[m]) is Some);
    let k = lemma_listed(s, blocks, blocks.len() as int, m);
    assert(listed_as(s, blocks[m], uuid, "rectangle"@, k));
}

// ── What moves ───────────────────────────────────────────────────────────────

/// A point lies in a region, edges included.
pub open spec fn in_box(area: Box2, p: (Num, Num)) -> bool {
    area.x1.le(p.0) && p.0.le(area.x2) && area.y1.le(p.1) && p.1.le(area.y2)
}

/// All points of an item lie in a region: both of a wire or a rectangle, the
/// anchor of anything else.
pub open spec fn all_inside(area: Box2, kind: RegionKind, r: Reading) -> bool {
    if kind is Wire || kind is Rectangle {
        r.a matches Some(a) && r.b matches Some(b) && in_box(area, a) && in_box(area, b)
    } else {
        r.a matches Some(a) && in_box(area, a)
    }
}

/// A wire or a rectangle reaches into a region: one of its points lies there,
/// or the line between them passes through.
pub open spec fn reaches_in(area: Box2, kind: RegionKind, r: Reading) -> bool {
    &&& kind is Wire || kind is Rectangle
    &&& r.a matches Some(a) && r.b matches Some(b) && (in_box(area, a) || in_box(area, b)
        || r.clipped)
}

/// The points of an item are numbers.
pub open spec fn true_numbers(r: Reading) -> bool {
    &&& r.a matches Some(a) ==> !a.0.is_nan() && !a.1.is_nan()
    &&& r.b matches Some(b) ==> !b.0.is_nan() && !b.1.is_nan()
}

proof fn lemma_decision(area: Box2, kind: RegionKind, r: Reading)
    ensures
        all_inside(area, kind, r) ==> decision(area, kind, r) is Move,
        true_numbers(r) && decision(area, kind, r) is Move ==> all_inside(area, kind, r),
        true_numbers(r) && !all_inside(area, kind, r) && reaches_in(area, kind, r) ==> decision(
            area,
            kind,
            r,
        ) is Skip,
        decision(area, kind, r) is Skip ==> reaches_in(area, kind, r),
        decision(area, kind, r) is Skip ==> !all_inside(area, kind, r),
{
}

/// How many of the first `n` items have all their points in a region.
pub open spec fn inside_below(
    area: Box2,
    all: Seq<Item>,
    readings: Seq<Reading>,
    n: int,
) -> int
    decreases n,
{
    if n <= 0 {
        0
    } else if all_inside(area, all[n - 1].kind, readings[n - 1]) {
        inside_below(area, all, readings, n - 1) + 1
    } else {
        inside_below(area, all, readings, n - 1)
    }
}

/// How many of the first `n` items reach into a region and do not lie in it.
pub open spec fn crossing_below(
    area: Box2,
    all: Seq<Item>,
    readings: Seq<Reading>,
    n: int,
) -> int
    decreases n,
{
    if n <= 0 {
        0
    } else if reaches_in(area, all[n - 1].kind, readings[n - 1]) && !all_inside(
        area,
        all[n - 1].kind,
        readings[n - 1],
    ) {
        crossing_below(area, all, readings, n - 1) + 1
    } else {
        crossing_below(area, all, readings, n - 1)
    }
}

/// Everything whose points all lie in the region is among what is moved, and
/// nothing else is; what only reaches in is among what is skipped, and nothing
/// else is.
pub proof fn law_region_takes_what_lies_inside(
    s: Seq<u8>,
    area: Box2,
    all: Seq<Item>,
    readings: Seq<Reading>,
    n: int,
)
    requires
        0 <= n <= all.len(),
        readings.len() == all.len(),
        moving(s, area, all, readings, n) is Ok,
        forall|k: int| 0 <= k < n ==> true_numbers(#[trigger] readings[k]),
    ensures
        ({
            let m = moving(s, area, all, readings, n)->Ok_0;
            &&& forall|k: int|
                0 <= k < n && all_inside(area, (#[trigger] all[k]).kind, readings[k])
                    ==> m.moved.contains((all[k].kind, all[k].uuid))
            &&& forall|k: int|
                0 <= k < n && reaches_in(area, (#[trigger] all[k]).kind, readings[k])
                    && !all_inside(area, all[k].kind, readings[k]) ==> m.skipped.contains(
                    (all[k].kind, all[k].uuid),
                )
            &&& m.moved.len() == inside_below(area, all, readings, n)
            &&& m.skipped.len() == crossing_below(area, all, readings, n)
            &&& m.edits.len() == m.moved.len()
        }),
    decreases n,
{
    if n > 0 {
        law_region_takes_what_lies_inside(s, area, all, readings, n - 1);
        let before = moving(s, area, all, readings, n - 1)->Ok_0;
        let m = moving(s, area, all, readings, n)->Ok_0;
        let item = all[n - 1];
        let entry = (item.kind, item.uuid);
        lemma_decision(area, item.kind, readings[n - 1]);
        assert(true_numbers(readings[n - 1]));
        assert forall|x: (RegionKind, Seq<u8>)| before.moved.contains(x) implies
            #[trigger] m.moved.contains(x) by {
            let i = choose|i: int| 0 <= i < before.moved.len() && before.moved[i] == x;
            assert(m.moved[i] == x);
        }
        assert forall|x: (RegionKind, Seq<u8>)| before.skipped.contains(x) implies
            #[trigger] m.skipped.contains(x) by {
            let i = choose|i: int| 0 <= i < before.skipped.len() && before.skipped[i] == x;
            assert(m.skipped[i] == x);
        }
        if all_inside(area, item.kind, readings[n - 1]) {
            assert(m.moved[before.moved.len() as int] == entry);
        } else if reaches_in(area, item.kind, readings[n - 1]) {
            assert(m.skipped[before.skipped.len() as int] == entry);
        }
    }
}

/// An item whose points all lie in the region is among what is moved, whatever
/// its numbers are.
proof fn lemma_inside_moves(
    s: Seq<u8>,
    area: Box2,
    all: Seq<Item>,
    readings: Seq<Reading>,
    n: int,
    k: int,
)
    requires
        0 <= k < n <= all.len(),
        moving(s, area, all, readings, n) is Ok,
        all_inside(area, all[k].kind, readings[k]),
    ensures
        exists|i: int|
            0 <= i < (moving(s, area, all, readings, n)->Ok_0).edits.len() && #[trigger] moves_item(
                s,
                area,
                all,
                readings,
                (moving(s, area, all, readings, n)->Ok_0).edits[i],
                k,
            ),
    decreases n,
{
    lemma_decision(area, all[k].kind, readings[k]);
    let now = (moving(s, area, all, readings, n)->Ok_0).edits;
    let before = (moving(s, area, all, readings, n - 1)->Ok_0).edits;
    if k == n - 1 {
        assert(moves_item(s, area, all, readings, now[before.len() as int], k));
    } else {
        lemma_inside_moves(s, area, all, readings, n - 1, k);
        let i = choose|i: int|
            0 <= i < before.len() && #[trigger] moves_item(s, area, all, readings, before[i], k);
        assert(now[i] == before[i]);
        assert(moves_item(s, area, all, readings, now[i], k));
    }
}

// ── What a moved item reads ──────────────────────────────────────────────────

/// The edits of a move exchange whole items.
proof fn lemma_region_edits(s: Seq<u8>, area: Box2, readings: Seq<Reading>)
    requires
        all_read(s, readings),
        forall|i: int| 0 <= i < readings.len() ==> all_plain((#[trigger] readings[i]).moved@),
        moving(s, area, items(s), readings, readings.len() as int) is Ok,
    ensures
        ({
            let es = (moving(s, area, items(s), readings, readings.len() as int)->Ok_0).edits;
            let tag = utf8("kicad_sch"@);
            &&& crate::again::lined_up(es)
            &&& edited(s, es) == rewritten(s, es, 0)
            &&& forall|i: int| 0 <= i < tag.len() ==> #[trigger] tag[i] != 0x28
            &&& forall|k: int|
                0 <= k < es.len() ==> {
                    &&& exchanges_kid(s, tag, #[trigger] es[k])
                    &&& block_end(es[k].text, 0) == Some(es[k].text.len() as int)
                    &&& moves_some(s, area, items(s), readings, es[k], readings.len() as int)
                }
        }),
{
    let tag = utf8("kicad_sch"@);
    let all = items(s);
    let n = readings.len() as int;
    let es = (moving(s, area, all, readings, n)->Ok_0).edits;
    let kids = direct_children(s, tag);
    lemma_items(s);
    lemma_direct_children(s, tag);
    lemma_direct_children_apart(s, tag);
    lemma_items_below(s, kids, kids.len() as int);
    assert forall|j: int| 0 <= j < all.len() implies (#[trigger] all[j]).span.0 < all[j].span.1 by {
        lemma_block_end(s, all[j].span.0);
    }
    lemma_moving_edits(s, area, all, readings, n);
    reveal_strlit("kicad_sch");
    vstd::utf8::is_ascii_chars_encode_utf8("kicad_sch"@);
    assert forall|k: int| 0 <= k < es.len() implies {
        &&& exchanges_kid(s, tag, #[trigger] es[k])
        &&& block_end(es[k].text, 0) == Some(es[k].text.len() as int)
        &&& 0 <= es[k].start
        &&& moves_some(s, area, all, readings, es[k], n)
    } by {
        assert(moves_some(s, area, all, readings, es[k], n));
        let i = choose|i: int| i < n && #[trigger] moves_item(s, area, all, readings, es[k], i);
        let item = items_below(s, kids, kids.len() as int)[i];
        assert(item == all[i]);
        let m = choose|m: int| 0 <= m < kids.len() && #[trigger] kids[m] == item.span;
        assert(kids[m] == (es[k].start, es[k].end));
        let block = s.subrange(es[k].start, es[k].end);
        lemma_block_end(s, es[k].start);
        lemma_block_of_itself(s, es[k].start, es[k].end);
        assert(item_at(s, item.span) == Some(item));
        assert(reads(readings[i], all[i], block));
        assert(all_plain(readings[i].moved@));
        lemma_moved_block(block, item.span, readings[i].moved@);
    }
    assert forall|i: int| 0 <= i < es.len() implies 0 <= (#[trigger] es[i]).start <= es[i].end by {
        assert(exchanges_kid(s, tag, es[i]));
    }
    lemma_in_line_ordered(es);
}

/// An item whose points all lie in the region stands in the moved sheet where
/// it stood among its blocks, with its coordinate lists rewritten; an item of
/// which not all points do stands there as it was.
proof fn lemma_region_block(s: Seq<u8>, area: Box2, readings: Seq<Reading>, k: int, j: int)
    requires
        all_read(s, readings),
        forall|i: int| 0 <= i < readings.len() ==> all_plain((#[trigger] readings[i]).moved@),
        moving(s, area, items(s), readings, readings.len() as int) is Ok,
        0 <= k < readings.len(),
        0 <= j < direct_children(s, utf8("kicad_sch"@)).len(),
        direct_children(s, utf8("kicad_sch"@))[j] == items(s)[k].span,
    ensures
        ({
            let tag = utf8("kicad_sch"@);
            let m = moving(s, area, items(s), readings, readings.len() as int)->Ok_0;
            let t = edited(s, m.edits);
            let item = items(s)[k];
            &&& direct_children(t, tag).len() == direct_children(s, tag).len()
            &&& all_inside(area, item.kind, readings[k]) ==> item_moved(
                kid(s, tag, j),
                item.kind,
                readings[k].moved@,
            ) == Ok::<Seq<u8>, Seq<char>>(kid(t, tag, j))
            &&& true_numbers(readings[k]) && !all_inside(area, item.kind, readings[k]) ==> kid(
                t,
                tag,
                j,
            ) == kid(s, tag, j)
        }),
{
    let tag = utf8("kicad_sch"@);
    let n = readings.len() as int;
    let all = items(s);
    let es = (moving(s, area, all, readings, n)->Ok_0).edits;
    let t = edited(s, es);
    lemma_region_edits(s, area, readings);
    lemma_kids(s, tag, es);
    lemma_items(s);
    lemma_decision(area, all[k].kind, readings[k]);
    if all_inside(area, all[k].kind, readings[k]) {
        lemma_inside_moves(s, area, all, readings, n, k);
        let i = choose|i: int|
            0 <= i < es.len() && #[trigger] moves_item(s, area, all, readings, es[i], k);
        assert(es[i].start == direct_children(s, tag)[j].0);
        assert(kid(t, tag, j) == block_of(es[i].text));
        assert(block_of(es[i].text) =~= es[i].text);
    } else if true_numbers(readings[k]) {
        assert forall|i: int| 0 <= i < es.len() implies (#[trigger] es[i]).start
            != direct_children(s, tag)[j].0 by {
            assert(moves_some(s, area, all, readings, es[i], n));
            let x = choose|x: int| x < n && #[trigger] moves_item(s, area, all, readings, es[i], x);
            if x < k {
                assert(all[x].span.1 <= all[k].span.0);
                lemma_block_end(s, all[x].span.0);
            } else if k < x {
                assert(all[k].span.1 <= all[x].span.0);
                lemma_block_end(s, all[k].span.0);
            }
        }
        assert(kid(t, tag, j) == kid(s, tag, j));
    }
}

/// A label, a junction, a no-connect, a text or a text box whose anchor lies in
/// the region reads the new numbers at its anchor afterwards: the block in its
/// place begins its first `(at …)` with them.
pub proof fn law_moved_anchor_reads_its_numbers(
    s: Seq<u8>,
    area: Box2,
    readings: Seq<Reading>,
    k: int,
    j: int,
)
    requires
        all_read(s, readings),
        forall|i: int| 0 <= i < readings.len() ==> all_plain((#[trigger] readings[i]).moved@),
        moving(s, area, items(s), readings, readings.len() as int) is Ok,
        0 <= k < readings.len(),
        0 <= j < direct_children(s, utf8("kicad_sch"@)).len(),
        direct_children(s, utf8("kicad_sch"@))[j] == items(s)[k].span,
        !(items(s)[k].kind is Wire),
        !(items(s)[k].kind is Rectangle),
        !(items(s)[k].kind is Symbol),
        !(items(s)[k].kind is PowerSymbol),
        readings[k].a matches Some(a) && in_box(area, a),
        readings[k].moved@.len() > 0,
        numbers(readings[k].moved@[0]),
    ensures
        ({
            let tag = utf8("kicad_sch"@);
            let t = edited(
                s,
                (moving(s, area, items(s), readings, readings.len() as int)->Ok_0).edits,
            );
            let text = kid(t, tag, j);
            let now = readings[k].moved@[0];
            &&& direct_children(t, tag).len() == direct_children(s, tag).len()
            &&& coord_range(text, utf8("at"@)) matches Some(c) && read_coord(
                text.subrange(c.0, c.1),
            ) matches Some(numbers) && {
                &&& numbers.at.x == coordinate(utf8(now.x@))
                &&& numbers.at.y == coordinate(utf8(now.y@))
                &&& numbers.rotation matches Some(r) ==> r == coordinate(utf8(now.rotation@))
            }
        }),
{
    let tag = utf8("kicad_sch"@);
    let item = items(s)[k];
    let block = kid(s, tag, j);
    let moved = readings[k].moved@;
    lemma_region_block(s, area, readings, k, j);
    assert(reads(readings[k], item, s.subrange(item.span.0, item.span.1)));
    let none: Result<Seq<Site>, Seq<char>> = Ok(Seq::empty());
    let sites = item_sites(block, item.kind)->Ok_0;
    assert(item_sites(block, item.kind) == with_list(none, block, "at"@));
    let es = site_edits(sites, moved);
    assert(sites.len() == moved.len());
    let r = coord_range(block, utf8("at"@))->0;
    assert(coord_range(block, utf8("at"@)) is Some);
    assert(es =~= seq![es[0]]);
    lemma_block_end(block, r.0);
    lemma_one_edit(block, es[0]);
    reveal_strlit("at");
    vstd::utf8::is_ascii_chars_encode_utf8("at"@);
    lemma_coord_heads();
    assert(crate::alike::is_word(utf8("at"@)));
    law_coordinates_read_back(block, utf8("at"@), moved[0], turned(sites[0]));
}

/// The text of an edit stands in the rewritten text where the edits before it
/// have moved it.
pub proof fn lemma_edit_stands(s: Seq<u8>, es: Seq<Edit>, c: int, i: int)
    requires
        in_line(es),
        0 <= c,
        es.len() > 0 ==> c <= es[0].start,
        forall|j: int| 0 <= j < es.len() ==> (#[trigger] es[j]).end <= s.len(),
        0 <= i < es.len(),
    ensures
        occurs_at(
            rewritten(s, es, c),
            es[i].text,
            es[i].start - c + lengthened(es, 0, i),
        ),
    decreases es.len(),
{
    let rest = es.drop_first();
    let e = es[0];
    let now = rewritten(s, es, c);
    let after = rewritten(s, rest, e.end);
    assert(now == s.subrange(c, e.start) + e.text + after);
    if i == 0 {
        assert(lengthened(es, 0, 0) == 0);
        assert(now.subrange(e.start - c, e.start - c + e.text.len()) =~= e.text);
    } else {
        assert forall|x: int, y: int| 0 <= x < y < rest.len() implies (#[trigger] rest[x]).end <= (
        #[trigger] rest[y]).start by {
            assert(es[x + 1].end <= es[y + 1].start);
        }
        assert forall|x: int| 0 <= x < rest.len() implies 0 <= (#[trigger] rest[x]).start
            <= rest[x].end <= s.len() by {
            assert(0 <= es[x + 1].start <= es[x + 1].end);
        }
        assert(es[0].end <= es[1].start);
        lemma_edit_stands(s, rest, e.end, i - 1);
        lemma_lengthened_rest(es, 0, i - 1);
        let at = es[i].start - e.end + lengthened(rest, 0, i - 1);
        let off = e.start - c + e.text.len();
        assert(rest[i - 1] == es[i]);
        assert(now.subrange(off + at, off + at + es[i].text.len()) =~= after.subrange(
            at,
            at + es[i].text.len(),
        ));
        assert(lengthened(es, 0, i) == e.text.len() - (e.end - e.start) + lengthened(es, 1, i));
    }
}

proof fn lemma_lengthened_rest(es: Seq<Edit>, i: int, j: int)
    requires
        0 <= i <= j < es.len(),
    ensures
        lengthened(es.drop_first(), i, j) == lengthened(es, i + 1, j + 1),
    decreases j - i,
{
    if i < j {
        lemma_lengthened_rest(es, i + 1, j);
        assert(es.drop_first()[i] == es[i + 1]);
    }
}

/// A coordinate list as it is written with new numbers: with a rotation where
/// it is an anchor that had one.
pub open spec fn list_text(site: Site, now: FixedCoord) -> Seq<u8> {
    let at = utf8("("@) + site.tag + utf8(" "@) + coordinate(utf8(now.x@)) + utf8(" "@)
        + coordinate(utf8(now.y@));
    if site.tag == utf8("at"@) && site.numbers.rotation is Some {
        at + utf8(" "@) + coordinate(utf8(now.rotation@)) + utf8(")"@)
    } else {
        at + utf8(")"@)
    }
}

/// A text stands somewhere in another.
pub open spec fn found_in(text: Seq<u8>, part: Seq<u8>) -> bool {
    exists|at: int| occurs_at(text, part, at)
}

/// A moved item holds each of its coordinate lists with new numbers.
proof fn lemma_item_text(block: Seq<u8>, kind: RegionKind, moved: Seq<FixedCoord>, i: int)
    requires
        item_sites(block, kind) matches Ok(sites) && {
            &&& moved.len() == sites.len()
            &&& 0 <= i < sites.len()
            &&& forall|x: int, y: int|
                0 <= x < y < sites.len() ==> (#[trigger] sites[x]).end <= (#[trigger] sites[y]).start
        },
    ensures
        ({
            let site = (item_sites(block, kind)->Ok_0)[i];
            found_in(item_moved(block, kind, moved)->Ok_0, list_text(site, moved[i]))
        }),
{
    let sites = item_sites(block, kind)->Ok_0;
    let es = site_edits(sites, moved);
    crate::region::lemma_item_sites_good(block, kind);
    assert forall|x: int| 0 <= x < sites.len() implies 0 <= (#[trigger] sites[x]).start
        < sites[x].end <= block.len() by {
        assert(crate::alike::site_good(block, sites[x]));
        lemma_block_end(block, sites[x].start);
    }
    assert forall|x: int| 0 <= x < es.len() implies 0 <= (#[trigger] es[x]).start <= es[x].end
        <= block.len() by {
        assert(0 <= sites[x].start);
    }
    assert forall|x: int, y: int| 0 <= x < y < es.len() implies (#[trigger] es[x]).end <= (
    #[trigger] es[y]).start by {
        assert(sites[x].end <= sites[y].start);
    }
    lemma_in_line_ordered(es);
    assert(0 <= es[0].start);
    lemma_edit_stands(block, es, 0, i);
    assert(es[i].text =~= list_text(sites[i], moved[i]));
    assert(found_in(rewritten(block, es, 0), es[i].text));
}

/// An item of any kind whose points all lie in the region has the new numbers
/// in every one of its coordinate lists afterwards: each list stands in the
/// block with its head and those numbers, an anchor that had a rotation with
/// one, provided that the lists stand one behind the other.
pub proof fn law_moved_item_has_its_numbers(
    s: Seq<u8>,
    area: Box2,
    readings: Seq<Reading>,
    k: int,
    j: int,
    i: int,
)
    requires
        all_read(s, readings),
        forall|i: int| 0 <= i < readings.len() ==> all_plain((#[trigger] readings[i]).moved@),
        moving(s, area, items(s), readings, readings.len() as int) is Ok,
        0 <= k < readings.len(),
        0 <= j < direct_children(s, utf8("kicad_sch"@)).len(),
        direct_children(s, utf8("kicad_sch"@))[j] == items(s)[k].span,
        all_inside(area, items(s)[k].kind, readings[k]),
        item_sites(kid(s, utf8("kicad_sch"@), j), items(s)[k].kind) matches Ok(sites) && {
            &&& 0 <= i < sites.len()
            &&& forall|x: int, y: int|
                0 <= x < y < sites.len() ==> (#[trigger] sites[x]).end <= (#[trigger] sites[y]).start
        },
    ensures
        ({
            let tag = utf8("kicad_sch"@);
            let t = edited(
                s,
                (moving(s, area, items(s), readings, readings.len() as int)->Ok_0).edits,
            );
            let site = (item_sites(kid(s, tag, j), items(s)[k].kind)->Ok_0)[i];
            found_in(kid(t, tag, j), list_text(site, readings[k].moved@[i]))
        }),
{
    let tag = utf8("kicad_sch"@);
    let item = items(s)[k];
    lemma_region_block(s, area, readings, k, j);
    assert(reads(readings[k], item, s.subrange(item.span.0, item.span.1)));
    lemma_item_text(kid(s, tag, j), item.kind, readings[k].moved@, i);
}

/// An item of which not all points lie in the region stands in the moved sheet
/// where it stood, byte for byte.
pub proof fn law_what_lies_outside_stays(
    s: Seq<u8>,
    area: Box2,
    readings: Seq<Reading>,
    k: int,
    j: int,
)
    requires
        all_read(s, readings),
        forall|i: int| 0 <= i < readings.len() ==> all_plain((#[trigger] readings[i]).moved@),
        moving(s, area, items(s), readings, readings.len() as int) is Ok,
        0 <= k < readings.len(),
        0 <= j < direct_children(s, utf8("kicad_sch"@)).len(),
        direct_children(s, utf8("kicad_sch"@))[j] == items(s)[k].span,
        true_numbers(readings[k]),
        !all_inside(area, items(s)[k].kind, readings[k]),
    ensures
        kid(
            edited(
                s,
                (moving(s, area, items(s), readings, readings.len() as int)->Ok_0).edits,
            ),
            utf8("kicad_sch"@),
            j,
        ) == kid(s, utf8("kicad_sch"@), j),
{
    lemma_region_block(s, area, readings, k, j);
}

// ── Which lists move ─────────────────────────────────────────────────────────

/// A list of a block is among those that move with the item.
pub open spec fn moves_list(sites: Seq<Site>, tag: Seq<u8>, start: int) -> bool {
    exists|i: int| 0 <= i < sites.len() && (#[trigger] sites[i]).start == start && sites[i].tag == tag
}

spec fn keeps_lists(a: Seq<Site>, b: Seq<Site>) -> bool {
    &&& a.len() <= b.len()
    &&& forall|i: int| 0 <= i < a.len() ==> #[trigger] b[i] == a[i]
}

proof fn lemma_kept(a: Seq<Site>, b: Seq<Site>, tag: Seq<u8>, start: int)
    requires
        keeps_lists(a, b),
        moves_list(a, tag, start),
    ensures
        moves_list(b, tag, start),
{
    let i = choose|i: int| 0 <= i < a.len() && (#[trigger] a[i]).start == start && a[i].tag == tag;
    assert(b[i] == a[i]);
}

proof fn lemma_points_move(
    before: Result<Seq<Site>, Seq<char>>,
    block: Seq<u8>,
    starts: Seq<int>,
    n: int,
)
    requires
        n <= starts.len(),
        with_points(before, block, starts, n) is Ok,
    ensures
        before is Ok,
        keeps_lists(before->Ok_0, with_points(before, block, starts, n)->Ok_0),
        forall|m: int|
            0 <= m < n ==> moves_list(
                with_points(before, block, starts, n)->Ok_0,
                utf8("xy"@),
                #[trigger] starts[m],
            ),
    decreases n,
{
    if n > 0 {
        lemma_points_move(before, block, starts, n - 1);
        let a = with_points(before, block, starts, n - 1)->Ok_0;
        let b = with_points(before, block, starts, n)->Ok_0;
        assert(keeps_lists(a, b));
        assert forall|m: int| 0 <= m < n implies moves_list(b, utf8("xy"@), #[trigger] starts[m]) by {
            if m < n - 1 {
                lemma_kept(a, b, utf8("xy"@), starts[m]);
            } else {
                assert(b[a.len() as int].start == starts[m]);
            }
        }
    }
}

/// Where the anchor of a property of a symbol begins.
pub open spec fn property_anchor(block: Seq<u8>, start: int) -> Option<int> {
    match block_end(block, start) {
        Some(end) => match coord_range(block.subrange(start, end), utf8("at"@)) {
            Some(r) => Some(start + r.0),
            None => None,
        },
        None => None,
    }
}

proof fn lemma_properties_move(
    before: Result<Seq<Site>, Seq<char>>,
    block: Seq<u8>,
    starts: Seq<int>,
    n: int,
)
    requires
        n <= starts.len(),
        with_properties(before, block, starts, n) is Ok,
    ensures
        before is Ok,
        keeps_lists(before->Ok_0, with_properties(before, block, starts, n)->Ok_0),
        forall|m: int|
            0 <= m < n ==> (property_anchor(block, #[trigger] starts[m]) matches Some(a)
                ==> moves_list(
                with_properties(before, block, starts, n)->Ok_0,
                utf8("at"@),
                a,
            )),
    decreases n,
{
    if n > 0 {
        lemma_properties_move(before, block, starts, n - 1);
        let a = with_properties(before, block, starts, n - 1)->Ok_0;
        let b = with_properties(before, block, starts, n)->Ok_0;
        assert(keeps_lists(a, b));
        assert forall|m: int|
            0 <= m < n && property_anchor(block, #[trigger] starts[m]) is Some implies moves_list(
            b,
            utf8("at"@),
            property_anchor(block, starts[m])->0,
        ) by {
            let at = property_anchor(block, starts[m])->0;
            if m < n - 1 {
                lemma_kept(a, b, utf8("at"@), at);
            } else {
                assert(b[a.len() as int].start == at);
            }
        }
    }
}

/// What moves with an item: every point of a wire, both corners of a
/// rectangle, the anchor of anything else, and the anchors of all properties of
/// a symbol.
pub proof fn law_all_lists_move(block: Seq<u8>, kind: RegionKind)
    requires
        item_sites(block, kind) is Ok,
    ensures
        ({
            let sites = item_sites(block, kind)->Ok_0;
            &&& kind is Wire ==> forall|m: int|
                0 <= m < block_starts(block, utf8("xy"@)).len() ==> moves_list(
                    sites,
                    utf8("xy"@),
                    #[trigger] block_starts(block, utf8("xy"@))[m],
                )
            &&& kind is Wire || kind is Rectangle ==> {
                &&& coord_range(block, utf8("start"@)) matches Some(r) ==> moves_list(
                    sites,
                    utf8("start"@),
                    r.0,
                )
                &&& coord_range(block, utf8("end"@)) matches Some(r) ==> moves_list(
                    sites,
                    utf8("end"@),
                    r.0,
                )
            }
            &&& !(kind is Wire) && !(kind is Rectangle) ==> (coord_range(
                block,
                utf8("at"@),
            ) matches Some(r) ==> moves_list(sites, utf8("at"@), r.0))
            &&& kind is Symbol || kind is PowerSymbol ==> forall|m: int|
                0 <= m < block_starts(block, utf8("property"@)).len() ==> (property_anchor(
                    block,
                    #[trigger] block_starts(block, utf8("property"@))[m],
                ) matches Some(a) ==> moves_list(sites, utf8("at"@), a))
        }),
{
    let none: Result<Seq<Site>, Seq<char>> = Ok(Seq::empty());
    let sites = item_sites(block, kind)->Ok_0;
    let first = with_list(none, block, "start"@);
    let corners = with_list(first, block, "end"@);
    let anchor = with_list(none, block, "at"@);
    match kind {
        RegionKind::Wire => {
            let starts = block_starts(block, utf8("xy"@));
            lemma_points_move(corners, block, starts, starts.len() as int);
            lemma_corners_move(block, sites);
        },
        RegionKind::Rectangle => {
            lemma_corners_move(block, sites);
        },
        RegionKind::Symbol | RegionKind::PowerSymbol => {
            let starts = block_starts(block, utf8("property"@));
            lemma_properties_move(anchor, block, starts, starts.len() as int);
            if let Some(r) = coord_range(block, utf8("at"@)) {
                assert((anchor->Ok_0)[0].start == r.0);
                lemma_kept(anchor->Ok_0, sites, utf8("at"@), r.0);
            }
        },
        _ => {
            if let Some(r) = coord_range(block, utf8("at"@)) {
                assert(sites[0].start == r.0);
            }
        },
    }
}

proof fn lemma_corners_move(block: Seq<u8>, sites: Seq<Site>)
    requires
        ({
            let none: Result<Seq<Site>, Seq<char>> = Ok(Seq::empty());
            with_list(with_list(none, block, "start"@), block, "end"@) matches Ok(corners)
                && keeps_lists(corners, sites)
        }),
    ensures
        coord_range(block, utf8("start"@)) matches Some(r) ==> moves_list(
            sites,
            utf8("start"@),
            r.0,
        ),
        coord_range(block, utf8("end"@)) matches Some(r) ==> moves_list(sites, utf8("end"@), r.0),
{
    let none: Result<Seq<Site>, Seq<char>> = Ok(Seq::empty());
    let first = with_list(none, block, "start"@);
    let corners = with_list(first, block, "end"@)->Ok_0;
    if let Some(r) = coord_range(block, utf8("start"@)) {
        assert((first->Ok_0)[0].start == r.0);
        assert(corners[0] == (first->Ok_0)[0]);
        lemma_kept(corners, sites, utf8("start"@), r.0);
    }
    if let Some(r) = coord_range(block, utf8("end"@)) {
        assert(corners[corners.len() - 1].start == r.0);
        lemma_kept(corners, sites, utf8("end"@), r.0);
    }
}

} // verus!
