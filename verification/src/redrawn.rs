//! What an edit of a graphic leaves to be read.

use vstd::prelude::*;
use crate::alike::is_word;
use crate::args::{member, number_arg, text_arg, Json};
use crate::coord::{coord_range, read_coord, Coord, FixedCoord};
use crate::edit::{edited, in_line, lemma_in_line_ordered, lemma_one_edit, rewritten};
use crate::graphics::{
    graphic_at, graphic_edited, graphic_sites, graphic_with, graphics, graphics_below,
    lemma_graphic_with, move_edits, styles, styles_below, target, written_plainly, Graphic,
    GraphicKind, GraphicNumbers,
};
use crate::inside::{found_in, lemma_edit_stands};
use crate::node::{found_text, head, item, parsed, text_of, Sexp};
use crate::num::Num;
use crate::numeral::{coordinate, is_number, point, Point};
use crate::reread::{law_coordinates_read_back, law_text_reads_back};
use crate::scan::{direct_children, lemma_block_end};
use crate::text::{spliced, utf8};

verus! {

// ── Graphics ─────────────────────────────────────────────────────────────────

/// The block of a graphic in a sheet that was edited there and nowhere else.
pub open spec fn block_after(s: Seq<u8>, t: Seq<u8>, g: Graphic) -> Seq<u8> {
    t.subrange(g.span.0, g.span.1 + t.len() - s.len())
}

/// A graphic whose text is the string behind its head.
pub open spec fn worded_behind_head(s: Seq<u8>, g: Graphic) -> bool {
    &&& !(g.kind is Rectangle)
    &&& parsed(s.subrange(g.span.0, g.span.1)) matches Some(t) && (item(t, 1) matches Some(n)
        && n is Str)
}

/// An edit of a graphic's text leaves the graphic with that text, and with all
/// else that it had.
pub proof fn law_new_text_is_read(
    s: Seq<u8>,
    uuid: Seq<char>,
    args: Json,
    numbers: GraphicNumbers,
    text: Seq<char>,
)
    requires
        graphic_with(s, uuid) matches Some(g) && worded_behind_head(s, g),
        text_arg(member(args, "text"@)) == Some(text),
        member(args, "x"@) is None,
        member(args, "y"@) is None,
        member(args, "rotation"@) is None,
        graphic_edited(s, uuid, args, numbers) is Ok,
    ensures
        ({
            let g = graphic_with(s, uuid)->0;
            let t = graphic_edited(s, uuid, args, numbers)->Ok_0;
            graphic_with(t, uuid) matches Some(now) && {
                &&& now.text == Some(utf8(text))
                &&& now.kind == g.kind
                &&& now.uuid == g.uuid
                &&& now.at == g.at
                &&& now.start_xy == g.start_xy
                &&& now.end_xy == g.end_xy
                &&& now.style_tags == g.style_tags
                &&& now.span.0 == g.span.0
            }
        }),
{
    law_text_reads_back(s, uuid, text);
}

/// An edit sets the text first: what else is asked for is done to the graphic
/// with its new text.
pub proof fn law_words_come_first(
    s: Seq<u8>,
    uuid: Seq<char>,
    args: Json,
    words: Json,
    rest: Json,
    numbers: GraphicNumbers,
    text: Seq<char>,
)
    requires
        graphic_with(s, uuid) matches Some(g) && worded_behind_head(s, g),
        text_arg(member(args, "text"@)) == Some(text),
        text_arg(member(words, "text"@)) == Some(text),
        member(words, "x"@) is None,
        member(words, "y"@) is None,
        member(words, "rotation"@) is None,
        member(rest, "text"@) is None,
        member(rest, "x"@) == member(args, "x"@),
        member(rest, "y"@) == member(args, "y"@),
        member(rest, "rotation"@) == member(args, "rotation"@),
        graphic_edited(s, uuid, words, numbers) is Ok,
    ensures
        graphic_edited(s, uuid, args, numbers) == graphic_edited(
            graphic_edited(s, uuid, words, numbers)->Ok_0,
            uuid,
            rest,
            numbers,
        ),
{
    let g = graphic_with(s, uuid)->0;
    let t = graphic_edited(s, uuid, words, numbers)->Ok_0;
    law_text_reads_back(s, uuid, text);
    lemma_graphic_with(s, uuid);
    lemma_block_end(s, g.span.0);
    let now = graphic_with(t, uuid)->0;
    let worded = crate::graphics::text_set(s.subrange(g.span.0, g.span.1), uuid, Some(text))->Ok_0;
    assert(t == spliced(s, g.span.0, g.span.1, worded));
    assert(t.subrange(now.span.0, now.span.1) =~= worded);
    assert forall|block: Seq<u8>| #[trigger] spliced(t, now.span.0, now.span.1, block) == spliced(
        s,
        g.span.0,
        g.span.1,
        block,
    ) by {
        assert(spliced(t, now.span.0, now.span.1, block) =~= spliced(
            s,
            g.span.0,
            g.span.1,
            block,
        ));
    }
}

/// The numbers can be read back as they are written.
pub open spec fn read_back(fixed: FixedCoord) -> bool {
    &&& written_plainly(fixed)
    &&& is_number(coordinate(utf8(fixed.x@)))
    &&& is_number(coordinate(utf8(fixed.y@)))
    &&& is_number(coordinate(utf8(fixed.rotation@)))
}

/// The anchor of a block reads those numbers.
pub open spec fn anchored_at(block: Seq<u8>, fixed: FixedCoord) -> bool {
    coord_range(block, utf8("at"@)) matches Some(c) && read_coord(block.subrange(c.0, c.1)) == Some(
        Coord {
            at: Point { x: coordinate(utf8(fixed.x@)), y: coordinate(utf8(fixed.y@)) },
            rotation: Some(coordinate(utf8(fixed.rotation@))),
        },
    )
}

proof fn lemma_at_word()
    ensures
        is_word(utf8("at"@)),
{
    reveal_strlit("at");
    vstd::utf8::is_ascii_chars_encode_utf8("at"@);
    crate::alike::lemma_coord_heads();
}

/// An edit that asks for a rotation leaves the anchor with it, whatever else
/// it asks for.
pub proof fn law_new_rotation_is_read(
    s: Seq<u8>,
    uuid: Seq<char>,
    args: Json,
    numbers: GraphicNumbers,
)
    requires
        graphic_with(s, uuid) is Some,
        number_arg(member(args, "rotation"@)) is Some,
        graphic_edited(s, uuid, args, numbers) is Ok,
        read_back(numbers.turned),
    ensures
        ({
            let g = graphic_with(s, uuid)->0;
            let t = graphic_edited(s, uuid, args, numbers)->Ok_0;
            anchored_at(block_after(s, t, g), numbers.turned)
        }),
{
    let g = graphic_with(s, uuid)->0;
    let t = graphic_edited(s, uuid, args, numbers)->Ok_0;
    lemma_graphic_with(s, uuid);
    lemma_block_end(s, g.span.0);
    let worded = crate::graphics::text_set(
        s.subrange(g.span.0, g.span.1),
        uuid,
        text_arg(member(args, "text"@)),
    )->Ok_0;
    let placed = crate::graphics::place_set(worded, g.kind, args, numbers)->Ok_0;
    let block = crate::graphics::rotation_set(placed, args, numbers)->Ok_0;
    assert(t == spliced(s, g.span.0, g.span.1, block));
    assert(block_after(s, t, g) =~= block);
    lemma_at_word();
    law_coordinates_read_back(placed, utf8("at"@), numbers.turned, true);
}

/// An edit that asks for another place, and for nothing else, leaves a graphic
/// that has an anchor with its anchor there. The rotation is written with it.
pub proof fn law_new_place_is_read(
    s: Seq<u8>,
    uuid: Seq<char>,
    args: Json,
    numbers: GraphicNumbers,
)
    requires
        graphic_with(s, uuid) matches Some(g) && !(g.kind is Rectangle) && coord_range(
            s.subrange(g.span.0, g.span.1),
            utf8("at"@),
        ) is Some,
        member(args, "x"@) is Some || member(args, "y"@) is Some,
        member(args, "text"@) is None,
        member(args, "rotation"@) is None,
        graphic_edited(s, uuid, args, numbers) is Ok,
        read_back(numbers.moved@[0].fixed),
    ensures
        ({
            let g = graphic_with(s, uuid)->0;
            let t = graphic_edited(s, uuid, args, numbers)->Ok_0;
            anchored_at(block_after(s, t, g), numbers.moved@[0].fixed)
        }),
{
    let g = graphic_with(s, uuid)->0;
    let t = graphic_edited(s, uuid, args, numbers)->Ok_0;
    let old_block = s.subrange(g.span.0, g.span.1);
    lemma_graphic_with(s, uuid);
    lemma_block_end(s, g.span.0);
    let block = crate::graphics::place_set(old_block, g.kind, args, numbers)->Ok_0;
    assert(t == spliced(s, g.span.0, g.span.1, block));
    assert(block_after(s, t, g) =~= block);
    let sites = graphic_sites(old_block, g.kind).sites;
    let es = move_edits(sites, numbers.moved@);
    reveal_with_fuel(crate::graphics::sites_under, 2);
    assert(sites.len() == 1);
    assert(es =~= seq![es[0]]);
    let r = coord_range(old_block, utf8("at"@))->0;
    lemma_range(old_block, utf8("at"@));
    lemma_one_edit(old_block, es[0]);
    lemma_at_word();
    law_coordinates_read_back(old_block, utf8("at"@), numbers.moved@[0].fixed, true);
}

proof fn lemma_range(block: Seq<u8>, tag: Seq<u8>)
    ensures
        coord_range(block, tag) matches Some(r) ==> 0 <= r.0 < r.1 <= block.len(),
{
    if let Some(r) = coord_range(block, tag) {
        lemma_block_end(block, r.0);
    }
}

/// A corner as it is written.
pub open spec fn corner(tag: Seq<u8>, fixed: FixedCoord) -> Seq<u8> {
    utf8("("@) + tag + utf8(" "@) + coordinate(utf8(fixed.x@)) + utf8(" "@) + coordinate(
        utf8(fixed.y@),
    ) + utf8(")"@)
}

/// An edit that asks for another place, and for nothing else, leaves a
/// rectangle with both corners there, each with its own numbers, where the
/// first corner is written before the second.
pub proof fn law_new_corners_are_written(
    s: Seq<u8>,
    uuid: Seq<char>,
    args: Json,
    numbers: GraphicNumbers,
)
    requires
        graphic_with(s, uuid) matches Some(g) && g.kind is Rectangle && (coord_range(
            s.subrange(g.span.0, g.span.1),
            utf8("start"@),
        ) matches Some(a) && (coord_range(
            s.subrange(g.span.0, g.span.1),
            utf8("end"@),
        ) matches Some(b) && a.1 <= b.0)),
        member(args, "x"@) is Some || member(args, "y"@) is Some,
        member(args, "text"@) is None,
        member(args, "rotation"@) is None,
        graphic_edited(s, uuid, args, numbers) is Ok,
    ensures
        ({
            let g = graphic_with(s, uuid)->0;
            let t = graphic_edited(s, uuid, args, numbers)->Ok_0;
            let block = block_after(s, t, g);
            &&& found_in(block, corner(utf8("start"@), numbers.moved@[0].fixed))
            &&& found_in(block, corner(utf8("end"@), numbers.moved@[1].fixed))
        }),
{
    let g = graphic_with(s, uuid)->0;
    let t = graphic_edited(s, uuid, args, numbers)->Ok_0;
    let old_block = s.subrange(g.span.0, g.span.1);
    lemma_graphic_with(s, uuid);
    lemma_block_end(s, g.span.0);
    let block = crate::graphics::place_set(old_block, g.kind, args, numbers)->Ok_0;
    assert(t == spliced(s, g.span.0, g.span.1, block));
    assert(block_after(s, t, g) =~= block);
    let f = graphic_sites(old_block, g.kind);
    let sites = f.sites;
    let es = move_edits(sites, numbers.moved@);
    reveal_with_fuel(crate::graphics::sites_under, 3);
    lemma_range(old_block, utf8("start"@));
    lemma_range(old_block, utf8("end"@));
    assert(f.invalid is None);
    assert(sites.len() == 2);
    reveal_strlit("at");
    reveal_strlit("start");
    reveal_strlit("end");
    vstd::utf8::is_ascii_chars_encode_utf8("at"@);
    vstd::utf8::is_ascii_chars_encode_utf8("start"@);
    vstd::utf8::is_ascii_chars_encode_utf8("end"@);
    assert(utf8("at"@).len() == 2 && utf8("start"@).len() == 5 && utf8("end"@).len() == 3);
    assert(es.len() == 2);
    assert(in_line(es));
    lemma_in_line_ordered(es);
    lemma_edit_stands(old_block, es, 0, 0);
    lemma_edit_stands(old_block, es, 0, 1);
    assert(es[0].text =~= corner(utf8("start"@), numbers.moved@[0].fixed));
    assert(es[1].text =~= corner(utf8("end"@), numbers.moved@[1].fixed));
    assert(block == rewritten(old_block, es, 0));
}

/// A graphic that is asked to go where no coordinate can be stays.
pub proof fn law_place_out_of_range_is_refused(
    s: Seq<u8>,
    uuid: Seq<char>,
    args: Json,
    numbers: GraphicNumbers,
)
    requires
        ({
            ||| number_arg(member(args, "x"@)) matches Some(n) && !n.value.in_range()
            ||| number_arg(member(args, "y"@)) matches Some(n) && !n.value.in_range()
            ||| number_arg(member(args, "rotation"@)) matches Some(n) && !n.value.in_range()
        }),
    ensures
        graphic_edited(s, uuid, args, numbers) is Err,
{
}

/// Where a graphic is asked to go: each coordinate as it is asked for, else as
/// its anchor has it; nowhere where neither is known.
pub proof fn law_target_is_as_asked(x: Option<Num>, y: Option<Num>, anchor: Option<(Num, Num)>)
    ensures
        target(x, y, anchor) matches Ok(p) ==> {
            &&& x matches Some(n) ==> p.0 == n
            &&& y matches Some(n) ==> p.1 == n
            &&& x is None ==> (anchor matches Some(a) && p.0 == a.0)
            &&& y is None ==> (anchor matches Some(a) && p.1 == a.1)
            &&& p.0.in_range()
            &&& p.1.in_range()
        },
        x is None && anchor is None ==> target(x, y, anchor) is Err,
        y is None && anchor is None ==> target(x, y, anchor) is Err,
        (x matches Some(a) && a.in_range()) && (y matches Some(b) && b.in_range()) ==> target(
            x,
            y,
            anchor,
        ) is Ok,
{
}

/// A graphic is listed under that kind and uuid, where it stands.
pub open spec fn drawn_as(
    s: Seq<u8>,
    b: (int, int),
    kind: GraphicKind,
    uuid: Seq<u8>,
    k: int,
) -> bool {
    &&& 0 <= k < graphics(s).len()
    &&& graphics(s)[k].span == b
    &&& graphics(s)[k].kind == kind
    &&& graphics(s)[k].uuid == uuid
}

/// Every text and text box of a sheet that has a uuid is a graphic of it, with
/// the text behind its head, and so is every rectangle with a uuid and both
/// corners.
pub proof fn law_graphics_are_found(s: Seq<u8>, m: int, t: Sexp, kind: GraphicKind, uuid: Seq<u8>)
    requires
        0 <= m < direct_children(s, utf8("kicad_sch"@)).len(),
        ({
            let b = direct_children(s, utf8("kicad_sch"@))[m];
            parsed(s.subrange(b.0, b.1)) == Some(t)
        }),
        kind is Rectangle ==> head(t) == Some(utf8("rectangle"@)) && point(t, utf8("start"@)) is Some
            && point(t, utf8("end"@)) is Some,
        kind is Text ==> head(t) == Some(utf8("text"@)),
        kind is TextBox ==> head(t) == Some(utf8("text_box"@)),
        found_text(t, utf8("uuid"@)) == Some(uuid),
    ensures
        exists|k: int| #[trigger]
            drawn_as(s, direct_children(s, utf8("kicad_sch"@))[m], kind, uuid, k) && {
                &&& graphics(s)[k].start_xy == point(t, utf8("start"@))
                &&& graphics(s)[k].end_xy == point(t, utf8("end"@))
                &&& kind is Rectangle ==> graphics(s)[k].text is None
                &&& !(kind is Rectangle) ==> graphics(s)[k].text == match item(t, 1) {
                    Some(n) => text_of(n),
                    None => None,
                }
            },
{
    let blocks = direct_children(s, utf8("kicad_sch"@));
    reveal_strlit("rectangle");
    reveal_strlit("text");
    reveal_strlit("text_box");
    vstd::utf8::is_ascii_chars_encode_utf8("rectangle"@);
    vstd::utf8::is_ascii_chars_encode_utf8("text"@);
    vstd::utf8::is_ascii_chars_encode_utf8("text_box"@);
    assert(utf8("rectangle"@).len() == 9 && utf8("text"@).len() == 4 && utf8("text_box"@).len() == 8);
    assert(graphic_at(s, blocks[m]) is Some);
    let k = lemma_graphic_listed(s, blocks, blocks.len() as int, m);
    assert(drawn_as(s, blocks[m], kind, uuid, k));
}

proof fn lemma_graphic_listed(s: Seq<u8>, blocks: Seq<(int, int)>, n: int, m: int) -> (k: int)
    requires
        0 <= m < n <= blocks.len(),
        graphic_at(s, blocks[m]) is Some,
    ensures
        0 <= k < graphics_below(s, blocks, n).len(),
        graphics_below(s, blocks, n)[k] == graphic_at(s, blocks[m])->0,
    decreases n,
{
    if m == n - 1 {
        graphics_below(s, blocks, n - 1).len() as int
    } else {
        lemma_graphic_listed(s, blocks, n - 1, m)
    }
}

/// The styles of a graphic are its lists with one of five heads, in order.
pub proof fn law_styles_are_those_lists(a: Seq<Sexp>, b: Seq<Sexp>, tag: Seq<u8>)
    ensures
        styles(Sexp::List(a + b)) == styles(Sexp::List(a)) + styles(Sexp::List(b)),
        a.len() == 1 && head(a[0]) == Some(tag) ==> styles(Sexp::List(a)) == if tag == utf8(
            "stroke"@,
        ) || tag == utf8("fill"@) || tag == utf8("effects"@) || tag == utf8("justify"@) || tag
            == utf8("margins"@) {
            seq![tag]
        } else {
            Seq::empty()
        },
        a.len() == 1 && head(a[0]) is None ==> styles(Sexp::List(a)).len() == 0,
{
    lemma_styles_joined(a, b, b.len() as int);
    reveal_with_fuel(styles_below, 2);
    if a.len() == 1 {
        assert(Seq::<Seq<u8>>::empty().push(tag) =~= seq![tag]);
    }
}

proof fn lemma_styles_first(a: Seq<Sexp>, b: Seq<Sexp>, n: int)
    requires
        n <= a.len(),
    ensures
        styles_below(a + b, n) == styles_below(a, n),
    decreases n,
{
    if n > 0 {
        lemma_styles_first(a, b, n - 1);
        assert((a + b)[n - 1] == a[n - 1]);
    }
}

proof fn lemma_styles_joined(a: Seq<Sexp>, b: Seq<Sexp>, n: int)
    requires
        0 <= n <= b.len(),
    ensures
        styles_below(a + b, a.len() + n) == styles_below(a, a.len() as int) + styles_below(b, n),
    decreases n,
{
    if n > 0 {
        lemma_styles_joined(a, b, n - 1);
        assert((a + b)[a.len() + n - 1] == b[n - 1]);
        assert(styles_below(a + b, a.len() + n) =~= styles_below(a, a.len() as int) + styles_below(
            b,
            n,
        ));
    } else {
        lemma_styles_first(a, b, a.len() as int);
        assert(styles_below(a, a.len() as int) + styles_below(b, 0) =~= styles_below(
            a,
            a.len() as int,
        ));
    }
}

} // verus!
