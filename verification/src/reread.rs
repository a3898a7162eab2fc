//! The graphics of a sheet after one of them was edited.

use vstd::prelude::*;
use crate::alike::{
    is_word, lemma_block_node, lemma_block_of_itself, lemma_coord_list, lemma_list_block,
};
use crate::coord::{coord_range, fixed_list, read_coord, Coord, FixedCoord};
use crate::graphics::{
    first_with, graphic_at, graphic_with, graphics, graphics_below, law_text_edit_keeps_the_rest,
    lemma_graphic_with, styles_below, text_set, written_plainly, Graphic,
};
use crate::node::{first_headed, head, item, node_at, parsed, past_blanks, Sexp};
use crate::numeral::{coordinate, is_number, Point};
use crate::scan::{
    block_end, block_starts, direct_children, is_delimiter, lemma_block_cut_out, lemma_block_end,
    lemma_blocks_exchanged, lemma_direct_children, lemma_direct_children_apart,
    lemma_first_exchanged, shifted,
};
use crate::text::{spliced, utf8};

verus! {

// ── One graphic for another ──────────────────────────────────────────────────

/// A graphic as it stands elsewhere.
pub open spec fn placed_at(g: Graphic, b: (int, int)) -> Graphic {
    Graphic { span: b, ..g }
}

/// The same bytes read as the same graphic.
proof fn lemma_same_bytes(s: Seq<u8>, t: Seq<u8>, b: (int, int), c: (int, int))
    requires
        s.subrange(b.0, b.1) == t.subrange(c.0, c.1),
    ensures
        graphic_at(t, c) == match graphic_at(s, b) {
            Some(g) => Some(placed_at(g, c)),
            None => None,
        },
{
}

/// The block in which the first graphic with a uuid stands, and how many
/// graphics stand before it.
proof fn lemma_block_of(s: Seq<u8>, uuid: Seq<u8>, n: int) -> (m: int)
    requires
        0 <= n <= direct_children(s, utf8("kicad_sch"@)).len(),
        first_with(graphics_below(s, direct_children(s, utf8("kicad_sch"@)), n), uuid, 0) is Some,
    ensures
        ({
            let all = direct_children(s, utf8("kicad_sch"@));
            let below = graphics_below(s, all, n);
            &&& 0 <= m < n
            &&& graphic_at(s, all[m]) == first_with(below, uuid, 0)
            &&& first_with(graphics_below(s, all, m), uuid, 0) is None
        }),
    decreases n,
{
    let all = direct_children(s, utf8("kicad_sch"@));
    let before = graphics_below(s, all, n - 1);
    if n > 0 {
        match graphic_at(s, all[n - 1]) {
            Some(g) => {
                lemma_first_push(before, g, uuid, 0);
                if first_with(before, uuid, 0) is Some {
                    lemma_block_of(s, uuid, n - 1)
                } else {
                    n - 1
                }
            },
            None => lemma_block_of(s, uuid, n - 1),
        }
    } else {
        0
    }
}

proof fn lemma_first_push(all: Seq<Graphic>, g: Graphic, uuid: Seq<u8>, i: int)
    requires
        0 <= i <= all.len(),
    ensures
        first_with(all.push(g), uuid, i) == if first_with(all, uuid, i) is Some {
            first_with(all, uuid, i)
        } else if g.uuid == uuid {
            Some(g)
        } else {
            None
        },
    decreases all.len() - i,
{
    reveal_with_fuel(first_with, 2);
    if i < all.len() {
        lemma_first_push(all, g, uuid, i + 1);
    }
}

/// Behind a graphic that is found, more graphics change nothing.
proof fn lemma_first_stays(s: Seq<u8>, all: Seq<(int, int)>, uuid: Seq<u8>, m: int, n: int)
    requires
        0 <= m <= n,
        first_with(graphics_below(s, all, m), uuid, 0) is Some,
    ensures
        first_with(graphics_below(s, all, n), uuid, 0) == first_with(
            graphics_below(s, all, m),
            uuid,
            0,
        ),
    decreases n,
{
    if m < n {
        lemma_first_stays(s, all, uuid, m, n - 1);
        if let Some(g) = graphic_at(s, all[n - 1]) {
            lemma_first_push(graphics_below(s, all, n - 1), g, uuid, 0);
        }
    }
}

/// The graphics of a sheet, wherever they stand in its text.
pub open spec fn listed(s: Seq<u8>) -> Seq<Graphic> {
    unplaced(graphics(s))
}

/// Graphics, wherever they stand.
pub open spec fn unplaced(all: Seq<Graphic>) -> Seq<Graphic> {
    all.map_values(|g: Graphic| placed_at(g, (0, 0)))
}

/// The graphics among the blocks from the one at `m` up to that at `n`,
/// wherever they stand.
spec fn listed_between(s: Seq<u8>, all: Seq<(int, int)>, m: int, n: int) -> Seq<Graphic>
    decreases n - m,
{
    if n <= m {
        Seq::empty()
    } else {
        match graphic_at(s, all[n - 1]) {
            Some(g) => listed_between(s, all, m, n - 1).push(placed_at(g, (0, 0))),
            None => listed_between(s, all, m, n - 1),
        }
    }
}

proof fn lemma_listed_between(s: Seq<u8>, all: Seq<(int, int)>, m: int, n: int)
    requires
        0 <= m <= n,
    ensures
        unplaced(graphics_below(s, all, n)) == unplaced(graphics_below(s, all, m)) + listed_between(
            s,
            all,
            m,
            n,
        ),
    decreases n - m,
{
    let before = unplaced(graphics_below(s, all, m));
    if m < n {
        lemma_listed_between(s, all, m, n - 1);
        if let Some(g) = graphic_at(s, all[n - 1]) {
            assert(unplaced(graphics_below(s, all, n)) =~= unplaced(
                graphics_below(s, all, n - 1),
            ).push(placed_at(g, (0, 0))));
            assert(before + listed_between(s, all, m, n) =~= (before + listed_between(
                s,
                all,
                m,
                n - 1,
            )).push(placed_at(g, (0, 0))));
        }
    } else {
        assert(before + listed_between(s, all, m, n) =~= before);
    }
}

/// Blocks that hold the same bytes hold the same graphics.
proof fn lemma_same_between(
    s: Seq<u8>,
    t: Seq<u8>,
    all: Seq<(int, int)>,
    now: Seq<(int, int)>,
    m: int,
    n: int,
    d: int,
)
    requires
        forall|j: int|
            m <= j < n ==> same_block(s, #[trigger] all[j], t, now[j + d]),
    ensures
        listed_between(t, now, m + d, n + d) == listed_between(s, all, m, n),
    decreases n - m,
{
    if m < n {
        lemma_same_between(s, t, all, now, m, n - 1, d);
        assert(same_block(s, all[n - 1], t, now[n - 1 + d]));
        lemma_same_bytes(s, t, all[n - 1], now[n - 1 + d]);
    }
}

spec fn same_block(s: Seq<u8>, b: (int, int), t: Seq<u8>, c: (int, int)) -> bool {
    s.subrange(b.0, b.1) == t.subrange(c.0, c.1)
}

proof fn lemma_same_before(
    s: Seq<u8>,
    t: Seq<u8>,
    all: Seq<(int, int)>,
    now: Seq<(int, int)>,
    n: int,
)
    requires
        forall|j: int|
            0 <= j < n ==> #[trigger] now[j] == all[j] && same_block(s, all[j], t, all[j]),
    ensures
        graphics_below(t, now, n) == graphics_below(s, all, n),
    decreases n,
{
    if n > 0 {
        lemma_same_before(s, t, all, now, n - 1);
        assert(now[n - 1] == all[n - 1]);
        lemma_same_bytes(s, t, all[n - 1], now[n - 1]);
    }
}

/// Around a block that is exchanged for another text, the blocks hold what
/// they held.
proof fn lemma_around(s: Seq<u8>, all: Seq<(int, int)>, m: int, f: Seq<u8>)
    requires
        0 <= m < all.len(),
        forall|j: int| 0 <= j < all.len() ==> block_end(s, (#[trigger] all[j]).0) == Some(all[j].1),
        forall|i: int, j: int|
            0 <= i < j < all.len() ==> (#[trigger] all[i]).1 <= (#[trigger] all[j]).0,
    ensures
        ({
            let t = spliced(s, all[m].0, all[m].1, f);
            let by = f.len() - (all[m].1 - all[m].0);
            &&& forall|j: int| 0 <= j < m ==> same_block(s, #[trigger] all[j], t, all[j])
            &&& forall|j: int|
                m < j < all.len() ==> same_block(s, #[trigger] all[j], t, shifted(all[j], by))
        }),
{
    let t = spliced(s, all[m].0, all[m].1, f);
    let by = f.len() - (all[m].1 - all[m].0);
    lemma_block_end(s, all[m].0);
    assert forall|j: int| 0 <= j < m implies same_block(s, #[trigger] all[j], t, all[j]) by {
        assert(all[j].1 <= all[m].0);
        lemma_block_end(s, all[j].0);
        assert(s.subrange(all[j].0, all[j].1) =~= t.subrange(all[j].0, all[j].1));
    }
    assert forall|j: int| m < j < all.len() implies same_block(
        s,
        #[trigger] all[j],
        t,
        shifted(all[j], by),
    ) by {
        assert(all[m].1 <= all[j].0);
        lemma_block_end(s, all[j].0);
        assert(s.subrange(all[j].0, all[j].1) =~= t.subrange(all[j].0 + by, all[j].1 + by));
    }
}

proof fn lemma_sheet_tag()
    ensures
        forall|i: int|
            0 <= i < utf8("kicad_sch"@).len() ==> #[trigger] utf8("kicad_sch"@)[i] != 0x28,
{
    reveal_strlit("kicad_sch");
    vstd::utf8::is_ascii_chars_encode_utf8("kicad_sch"@);
}

/// The graphic at index `i` of a sheet is the first with that uuid.
pub open spec fn stands_at(s: Seq<u8>, uuid: Seq<char>, i: int) -> bool {
    0 <= i < graphics(s).len() && graphic_with(s, uuid) == Some(graphics(s)[i])
}

/// An edited graphic is found under its uuid, and reads as its new block does.
/// Every other graphic of the sheet reads as it did.
pub proof fn law_edited_graphic_is_found(s: Seq<u8>, uuid: Seq<char>, block: Seq<u8>)
    requires
        graphic_with(s, uuid) is Some,
        block_end(block, 0) == Some(block.len() as int),
        graphic_at(block, (0, block.len() as int)) matches Some(h) && h.uuid == utf8(uuid),
    ensures
        ({
            let g = graphic_with(s, uuid)->0;
            let h = graphic_at(block, (0, block.len() as int))->0;
            let t = spliced(s, g.span.0, g.span.1, block);
            &&& graphic_with(t, uuid) == Some(
                placed_at(h, (g.span.0, g.span.0 + block.len() as int)),
            )
            &&& exists|i: int| #[trigger]
                stands_at(s, uuid, i) && listed(t) == listed(s).update(i, placed_at(h, (0, 0)))
        }),
{
    let tag = utf8("kicad_sch"@);
    let all = direct_children(s, tag);
    let g = graphic_with(s, uuid)->0;
    let h = graphic_at(block, (0, block.len() as int))->0;
    let t = spliced(s, g.span.0, g.span.1, block);
    let now = direct_children(t, tag);
    let n = all.len() as int;
    let m = lemma_block_of(s, utf8(uuid), n);
    assert(all[m] == g.span);
    lemma_sheet_tag();
    lemma_blocks_exchanged(s, tag, m, block);
    lemma_direct_children(s, tag);
    lemma_direct_children_apart(s, tag);
    lemma_around(s, all, m, block);
    lemma_block_end(s, g.span.0);
    assert forall|j: int| 0 <= j < m implies #[trigger] now[j] == all[j] && same_block(
        s,
        all[j],
        t,
        all[j],
    ) by {}
    lemma_same_before(s, t, all, now, m);
    let c = (g.span.0, g.span.0 + block.len() as int);
    assert(now[m] == c);
    assert(t.subrange(c.0, c.1) =~= block.subrange(0, block.len() as int));
    lemma_same_bytes(block, t, (0, block.len() as int), c);
    let before = graphics_below(s, all, m);
    lemma_first_push(before, placed_at(h, c), utf8(uuid), 0);
    lemma_first_stays(t, now, utf8(uuid), m + 1, n);
    // The listing, before and behind.
    let i = before.len() as int;
    let behind = listed_between(s, all, m + 1, n);
    assert forall|j: int| m + 1 <= j < n implies same_block(s, #[trigger] all[j], t, now[j + 0]) by {
        assert(now[j] == shifted(all[j], block.len() - (g.span.1 - g.span.0)));
    }
    lemma_same_between(s, t, all, now, m + 1, n, 0);
    lemma_listed_between(s, all, m + 1, n);
    lemma_listed_between(t, now, m + 1, n);
    lemma_index(s, all, m, n);
    assert(unplaced(before.push(g)) =~= unplaced(before).push(placed_at(g, (0, 0))));
    assert(unplaced(before.push(placed_at(h, c))) =~= unplaced(before).push(placed_at(h, (0, 0))));
    assert(listed(t) =~= listed(s).update(i, placed_at(h, (0, 0))));
    assert(stands_at(s, uuid, i));
}

/// A graphic stands behind those of the blocks before its own.
proof fn lemma_index(s: Seq<u8>, all: Seq<(int, int)>, m: int, n: int)
    requires
        0 <= m < n,
        graphic_at(s, all[m]) is Some,
    ensures
        ({
            let i = graphics_below(s, all, m).len() as int;
            &&& i < graphics_below(s, all, n).len()
            &&& Some(graphics_below(s, all, n)[i]) == graphic_at(s, all[m])
        }),
    decreases n,
{
    if m + 1 < n {
        lemma_index(s, all, m, n - 1);
    }
}

/// A deleted graphic is gone, and every other graphic of the sheet reads as it
/// did. Its uuid must name one graphic alone, and its block must not stand
/// right behind the head of the sheet.
pub proof fn law_deleted_graphic_is_gone(s: Seq<u8>, uuid: Seq<char>)
    requires
        graphic_with(s, uuid) matches Some(g) && block_starts(s, utf8("kicad_sch"@))[0] + 1 + utf8(
            "kicad_sch"@,
        ).len() < g.span.0,
        forall|i: int, j: int|
            0 <= i < j < graphics(s).len() ==> (#[trigger] graphics(s)[i]).uuid != utf8(uuid) || (
            #[trigger] graphics(s)[j]).uuid != utf8(uuid),
    ensures
        ({
            let g = graphic_with(s, uuid)->0;
            let t = spliced(s, g.span.0, g.span.1, Seq::empty());
            &&& graphic_with(t, uuid) is None
            &&& exists|i: int| #[trigger] stands_at(s, uuid, i) && listed(t) == listed(s).remove(i)
        }),
{
    let tag = utf8("kicad_sch"@);
    let all = direct_children(s, tag);
    let g = graphic_with(s, uuid)->0;
    let t = spliced(s, g.span.0, g.span.1, Seq::empty());
    let now = direct_children(t, tag);
    let n = all.len() as int;
    let m = lemma_block_of(s, utf8(uuid), n);
    lemma_graphic_with(s, uuid);
    assert(all[m] == g.span);
    lemma_block_cut_out(s, tag, m);
    lemma_direct_children(s, tag);
    lemma_direct_children_apart(s, tag);
    lemma_around(s, all, m, Seq::empty());
    assert forall|j: int| 0 <= j < m implies #[trigger] now[j] == all[j] && same_block(
        s,
        all[j],
        t,
        all[j],
    ) by {}
    lemma_same_before(s, t, all, now, m);
    let before = graphics_below(s, all, m);
    let i = before.len() as int;
    assert forall|j: int| m + 1 <= j < n implies same_block(s, #[trigger] all[j], t, now[j + (-1)]) by {
        assert(now[j - 1] == shifted(all[j], g.span.0 - g.span.1));
    }
    lemma_same_between(s, t, all, now, m + 1, n, -1);
    lemma_listed_between(s, all, m + 1, n);
    lemma_listed_between(t, now, m, n - 1);
    lemma_index(s, all, m, n);
    assert(unplaced(before.push(g)) =~= unplaced(before).push(placed_at(g, (0, 0))));
    assert(listed(t) =~= listed(s).remove(i));
    assert(stands_at(s, uuid, i));
    assert forall|j: int| 0 <= j < graphics(t).len() implies (#[trigger] graphics(t)[j]).uuid != utf8(
        uuid,
    ) by {
        let k = if j < i {
            j
        } else {
            j + 1
        };
        assert(listed(t)[j] == listed(s)[k]);
        assert(listed(t)[j].uuid == graphics(t)[j].uuid);
        assert(listed(s)[k].uuid == graphics(s)[k].uuid);
        assert(graphics(s)[i].uuid == utf8(uuid));
    }
    lemma_none_with(graphics(t), utf8(uuid), 0);
}

proof fn lemma_none_with(all: Seq<Graphic>, uuid: Seq<u8>, i: int)
    requires
        0 <= i,
        forall|j: int| 0 <= j < all.len() ==> (#[trigger] all[j]).uuid != uuid,
    ensures
        first_with(all, uuid, i) is None,
    decreases all.len() - i,
{
    if i < all.len() {
        lemma_none_with(all, uuid, i + 1);
    }
}

// ── Its text ─────────────────────────────────────────────────────────────────

/// A text that was set is the text that is read, and nothing else of the
/// graphic reads otherwise. The text stands right behind the graphic's head,
/// which is where it is read.
pub proof fn law_text_reads_back(s: Seq<u8>, uuid: Seq<char>, text: Seq<char>)
    requires
        graphic_with(s, uuid) matches Some(g) && !(g.kind is Rectangle) && text_set(
            s.subrange(g.span.0, g.span.1),
            uuid,
            Some(text),
        ) is Ok && (parsed(s.subrange(g.span.0, g.span.1)) matches Some(t) && item(
            t,
            1,
        ) matches Some(n) && n is Str),
    ensures
        ({
            let g = graphic_with(s, uuid)->0;
            let block = text_set(s.subrange(g.span.0, g.span.1), uuid, Some(text))->Ok_0;
            graphic_with(spliced(s, g.span.0, g.span.1, block), uuid) == Some(
                Graphic {
                    span: (g.span.0, g.span.0 + block.len() as int),
                    text: Some(utf8(text)),
                    ..g
                },
            )
        }),
{
    let g = graphic_with(s, uuid)->0;
    let old_block = s.subrange(g.span.0, g.span.1);
    let block = text_set(old_block, uuid, Some(text))->Ok_0;
    lemma_graphic_with(s, uuid);
    lemma_block_end(s, g.span.0);
    lemma_block_of_itself(s, g.span.0, g.span.1);
    assert(old_block.subrange(0, old_block.len() as int) =~= old_block);
    lemma_block_node(old_block, 0, old_block.len() as int);
    let tree = parsed(old_block)->0;
    let items = tree->List_0;
    law_text_edit_keeps_the_rest(old_block, items, text);
    let now = items.update(1, Sexp::Str(utf8(text)));
    lemma_list_block(block);
    lemma_block_end(block, 0);
    assert(past_blanks(block, 0) == 0);
    assert(parsed(block) == Some(Sexp::List(now)));
    assert(block.subrange(0, block.len() as int) =~= block);
    lemma_other_lists(items, now, 0);
    lemma_styles_update(items, now, items.len() as int);
    law_edited_graphic_is_found(s, uuid, block);
}

/// Exchanging one string for another leaves every list where it is.
proof fn lemma_other_lists(a: Seq<Sexp>, b: Seq<Sexp>, i: int)
    requires
        0 <= i,
        a.len() == b.len(),
        a.len() >= 2,
        a[1] is Str,
        b[1] is Str,
        forall|k: int| 0 <= k < a.len() && k != 1 ==> a[k] == #[trigger] b[k],
    ensures
        forall|tag: Seq<u8>| #[trigger] first_headed(a, tag, i) == first_headed(b, tag, i),
    decreases a.len() - i,
{
    if i < a.len() {
        lemma_other_lists(a, b, i + 1);
        if i != 1 {
            assert(a[i] == b[i]);
        }
        assert forall|tag: Seq<u8>| #[trigger] first_headed(a, tag, i) == first_headed(b, tag, i) by {
            assert(first_headed(a, tag, i + 1) == first_headed(b, tag, i + 1));
        }
    }
}

proof fn lemma_styles_update(a: Seq<Sexp>, b: Seq<Sexp>, n: int)
    requires
        n <= a.len(),
        a.len() == b.len(),
        a.len() >= 2,
        a[1] is Str,
        b[1] is Str,
        forall|k: int| 0 <= k < a.len() && k != 1 ==> a[k] == #[trigger] b[k],
    ensures
        styles_below(a, n) == styles_below(b, n),
    decreases n,
{
    if n > 0 {
        lemma_styles_update(a, b, n - 1);
        if n - 1 != 1 {
            assert(a[n - 1] == b[n - 1]);
        }
        assert(head(a[n - 1]) == head(b[n - 1]));
    }
}

// ── Its anchor ───────────────────────────────────────────────────────────────

/// The numbers of a coordinate list are read as they were written.
pub proof fn law_coordinates_read_back(
    block: Seq<u8>,
    tag: Seq<u8>,
    fixed: FixedCoord,
    turned: bool,
)
    requires
        is_word(tag),
        coord_range(block, tag) is Some,
        written_plainly(fixed),
        is_number(coordinate(utf8(fixed.x@))),
        is_number(coordinate(utf8(fixed.y@))),
        is_number(coordinate(utf8(fixed.rotation@))),
    ensures
        ({
            let r = coord_range(block, tag)->0;
            let t = spliced(block, r.0, r.1, fixed_list(tag, fixed, turned));
            coord_range(t, tag) matches Some(c) && read_coord(t.subrange(c.0, c.1)) == Some(
                Coord {
                    at: Point {
                        x: coordinate(utf8(fixed.x@)),
                        y: coordinate(utf8(fixed.y@)),
                    },
                    rotation: if turned {
                        Some(coordinate(utf8(fixed.rotation@)))
                    } else {
                        None
                    },
                },
            )
        }),
{
    let r = coord_range(block, tag)->0;
    let f = fixed_list(tag, fixed, turned);
    let t = spliced(block, r.0, r.1, f);
    let rotation = if turned {
        Some(utf8(fixed.rotation@))
    } else {
        None
    };
    lemma_coord_list(tag, utf8(fixed.x@), utf8(fixed.y@), rotation);
    lemma_list_block(f);
    assert forall|i: int| 0 <= i < tag.len() implies #[trigger] tag[i] != 0x28 by {
        assert(!is_delimiter(tag[i]));
    }
    lemma_first_exchanged(block, tag, f);
    lemma_block_end(block, r.0);
    let c = coord_range(t, tag)->0;
    assert(t.subrange(c.0, c.1) =~= f);
    assert(past_blanks(f, 0) == 0);
    let items = (node_at(f, 0)->0).0->List_0;
    assert(items[1] == Sexp::Atom(coordinate(utf8(fixed.x@))));
    assert(items[2] == Sexp::Atom(coordinate(utf8(fixed.y@))));
    if turned {
        assert(items[3] == Sexp::Atom(coordinate(utf8(fixed.rotation@))));
    } else {
        assert(items.len() == 3);
    }
}

} // verus!
