//! A region that is moved back.

use vstd::prelude::*;
use crate::again::{block_of, exchanges_kid, kid, lemma_kids, lined_up};
use crate::alike::{
    coord_head, exchanging, is_word, law_alike_same_text, lemma_alike_list, lemma_block_node,
    lemma_block_of_itself, lemma_coord_heads, lemma_coord_list, lemma_edited_block,
    lemma_list_block, lemma_list_bytes, lemma_site_exchanging, site_good,
};
use crate::coord::{coord_range, fixed_list, read_coord, Coord, FixedCoord, Site};
use crate::edit::{
    edited, in_line, lemma_in_line_ordered, lemma_last_first, lemma_lengthened_last,
    lemma_lengthened_same, lemma_undoes_in_line, lemma_undone, lengthened, rewritten, undoes, Edit,
};
use crate::graft::{
    graftable, lemma_graft_bytes, lemma_graft_end, lemma_graft_end_behind, lemma_graft_lex,
    lemma_head_texts, lemma_run_lex, lemma_same_ascending, lib_head, low, run, symbol_head,
};
use crate::graphics::written_plainly;
use crate::node::{head, node_at, parsed, past_blanks};
use crate::numeral::{coordinate, is_number, numeral, Point};
use crate::region::{
    all_plain, all_read, decision, item_at, item_moved, item_of, item_sites, items, items_below,
    kind_headed, lemma_block_within, lemma_item_sites_good, lemma_items, lemma_items_below, moving,
    reads, site_edits, turned, with_list, with_points, with_properties, Box2, Item, Reading,
    RegionKind,
};
use crate::scan::{
    block_end, block_starts, direct_children, is_block_start, is_delimiter, lemma_block_end,
    lemma_blocks_exchanged, lemma_direct_children, lemma_direct_children_apart, lemma_lex_compose,
    lemma_lex_within, lemma_starts_below, lemma_starts_prefix, lemma_unquoted, lex, shifted,
    starts_below, Lex,
};
use crate::text::{lemma_one_byte, occurs_at, spliced, utf8};

verus! {

// ── A coordinate list as it is written ───────────────────────────────────────

/// New numbers for a coordinate list, each of which is written as a number.
pub open spec fn numbers(fixed: FixedCoord) -> bool {
    &&& written_plainly(fixed)
    &&& is_number(coordinate(utf8(fixed.x@)))
    &&& is_number(coordinate(utf8(fixed.y@)))
    &&& is_number(coordinate(utf8(fixed.rotation@)))
}

/// The numbers that are read from a coordinate list as it is written.
spec fn coord_of(fixed: FixedCoord, turned: bool) -> Coord {
    Coord {
        at: Point { x: coordinate(utf8(fixed.x@)), y: coordinate(utf8(fixed.y@)) },
        rotation: if turned {
            Some(coordinate(utf8(fixed.rotation@)))
        } else {
            None
        },
    }
}

/// A text is one list without another in it, headed `tag`.
spec fn flat(l: Seq<u8>, tag: Seq<u8>) -> bool {
    &&& l.len() > tag.len() + 2
    &&& l[0] == 0x28
    &&& l.last() == 0x29
    &&& occurs_at(l, tag, 1)
    &&& l[1 + tag.len() as int] == 0x20
    &&& forall|i: int|
        0 < i < l.len() - 1 ==> #[trigger] l[i] != 0x28 && l[i] != 0x29 && l[i] != 0x22
}

/// A coordinate list as it is written is flat, and is read as it is written.
proof fn lemma_written(tag: Seq<u8>, fixed: FixedCoord, turned: bool)
    requires
        is_word(tag),
        numbers(fixed),
    ensures
        flat(fixed_list(tag, fixed, turned), tag),
        block_end(fixed_list(tag, fixed, turned), 0) == Some(
            fixed_list(tag, fixed, turned).len() as int,
        ),
        read_coord(fixed_list(tag, fixed, turned)) == Some(coord_of(fixed, turned)),
        parsed(fixed_list(tag, fixed, turned)) matches Some(t) && {
            &&& numeral(t, 1) == Some(coordinate(utf8(fixed.x@)))
            &&& numeral(t, 2) == Some(coordinate(utf8(fixed.y@)))
        },
{
    let x = utf8(fixed.x@);
    let y = utf8(fixed.y@);
    let r = utf8(fixed.rotation@);
    let l = fixed_list(tag, fixed, turned);
    lemma_coord_list(
        tag,
        x,
        y,
        if turned {
            Some(r)
        } else {
            None
        },
    );
    reveal_strlit("(");
    reveal_strlit(")");
    reveal_strlit(" ");
    lemma_one_byte("("@);
    lemma_one_byte(")"@);
    lemma_one_byte(" "@);
    let cx = coordinate(x);
    let cy = coordinate(y);
    let cr = coordinate(r);
    let p1 = 1 + tag.len() as int;
    let p2 = p1 + 1 + cx.len();
    let p3 = p2 + 1 + cy.len();
    assert(past_blanks(l, 0) == 0);
    assert(past_blanks(l, l.len() as int) == l.len());
    lemma_list_block(l);
    assert forall|i: int| 0 < i < l.len() - 1 implies #[trigger] l[i] != 0x28 && l[i] != 0x29
        && l[i] != 0x22 by {
        if i < p1 {
            assert(l[i] == tag[i - 1]);
        } else if p1 < i < p2 {
            assert(l[i] == cx[i - p1 - 1]);
        } else if p2 < i < p3 {
            assert(l[i] == cy[i - p2 - 1]);
        } else if turned && i > p3 {
            assert(l[i] == cr[i - p3 - 1]);
        }
    }
    assert(l.subrange(1, p1) =~= tag);
}

/// How a flat list is read.
proof fn lemma_flat_run(st: Lex, l: Seq<u8>, tag: Seq<u8>, k: int)
    requires
        flat(l, tag),
        !st.quoted,
        !st.escaped,
        0 <= k <= l.len(),
    ensures
        run(st, l, k) == (Lex {
            depth: if 0 < k < l.len() {
                st.depth + 1
            } else {
                st.depth
            },
            ..st
        }),
        low(st, l, k) >= st.depth,
    decreases k,
{
    if k > 0 {
        lemma_flat_run(st, l, tag, k - 1);
    }
}

// ── One list for another ─────────────────────────────────────────────────────

/// A coordinate list stands at `h`, and may be exchanged for one with other
/// numbers.
spec fn swaps(
    s: Seq<u8>,
    h: int,
    tag: Seq<u8>,
    was: FixedCoord,
    now: FixedCoord,
    turned: bool,
) -> bool {
    &&& occurs_at(s, fixed_list(tag, was, turned), h)
    &&& !lex(s, 0, h).quoted
    &&& coord_head(tag)
    &&& turned ==> tag == utf8("at"@)
    &&& numbers(was)
    &&& numbers(now)
}

/// Where the list ends.
spec fn list_end(h: int, tag: Seq<u8>, was: FixedCoord, turned: bool) -> int {
    h + fixed_list(tag, was, turned).len()
}

/// The text with the list exchanged.
spec fn swapped(
    s: Seq<u8>,
    h: int,
    tag: Seq<u8>,
    was: FixedCoord,
    now: FixedCoord,
    turned: bool,
) -> Seq<u8> {
    spliced(s, h, list_end(h, tag, was, turned), fixed_list(tag, now, turned))
}

/// By how much the text grows.
spec fn grown(tag: Seq<u8>, was: FixedCoord, now: FixedCoord, turned: bool) -> int {
    fixed_list(tag, now, turned).len() - fixed_list(tag, was, turned).len()
}

/// A place at or before `h` stays; one behind it moves.
spec fn shift(i: int, h: int, by: int) -> int {
    if i <= h {
        i
    } else {
        i + by
    }
}

/// The heads that are searched for.
spec fn searched(tag: Seq<u8>) -> bool {
    coord_head(tag) || tag == utf8("property"@)
}

proof fn lemma_searched(tag: Seq<u8>)
    requires
        searched(tag),
    ensures
        is_word(tag),
{
    lemma_coord_heads();
    reveal_strlit("property");
    vstd::utf8::is_ascii_chars_encode_utf8("property"@);
    assert(utf8("property"@) =~= seq![0x70u8, 0x72, 0x6f, 0x70, 0x65, 0x72, 0x74, 0x79]);
}

/// A coordinate list does not begin as a symbol or a library's name.
proof fn lemma_no_head(l: Seq<u8>, tag: Seq<u8>)
    requires
        coord_head(tag),
        flat(l, tag),
    ensures
        l[1] != 0x6c,
        l[1] != 0x73 || l[2] != 0x79,
{
    reveal_strlit("at");
    reveal_strlit("start");
    reveal_strlit("end");
    reveal_strlit("xy");
    vstd::utf8::is_ascii_chars_encode_utf8("at"@);
    vstd::utf8::is_ascii_chars_encode_utf8("start"@);
    vstd::utf8::is_ascii_chars_encode_utf8("end"@);
    vstd::utf8::is_ascii_chars_encode_utf8("xy"@);
    assert(l.subrange(1, 1 + tag.len() as int)[0] == l[1]);
    assert(l.subrange(1, 1 + tag.len() as int)[1] == l[2]);
}

proof fn lemma_flat_free(t: Seq<u8>, l: Seq<u8>, tag: Seq<u8>, h: int, k: int)
    requires
        coord_head(tag),
        flat(l, tag),
        occurs_at(t, l, h),
        h <= k < h + l.len(),
    ensures
        !occurs_at(t, symbol_head(), k),
        !occurs_at(t, lib_head(), k),
{
    lemma_head_texts();
    lemma_no_head(l, tag);
    assert(t.subrange(h, h + l.len())[k - h] == t[k]);
    if occurs_at(t, symbol_head(), k) {
        assert(t.subrange(k, k + 7)[0] == t[k]);
        assert(t.subrange(k, k + 7)[1] == t[k + 1]);
        assert(t.subrange(k, k + 7)[2] == t[k + 2]);
        assert(t.subrange(h, h + l.len())[1] == t[h + 1]);
        assert(t.subrange(h, h + l.len())[2] == t[h + 2]);
    }
    if occurs_at(t, lib_head(), k) {
        assert(t.subrange(k, k + 8)[0] == t[k]);
        assert(t.subrange(k, k + 8)[1] == t[k + 1]);
        assert(t.subrange(h, h + l.len())[1] == t[h + 1]);
    }
}

/// Such an exchange keeps what is around it.
proof fn lemma_swap_graft(
    s: Seq<u8>,
    h: int,
    tag: Seq<u8>,
    was: FixedCoord,
    now: FixedCoord,
    turned: bool,
)
    requires
        swaps(s, h, tag, was, now, turned),
    ensures
        graftable(s, h, list_end(h, tag, was, turned), fixed_list(tag, now, turned)),
        flat(fixed_list(tag, was, turned), tag),
        flat(fixed_list(tag, now, turned), tag),
        is_word(tag),
{
    let g = fixed_list(tag, was, turned);
    let f = fixed_list(tag, now, turned);
    let e = h + g.len();
    let t = spliced(s, h, e, f);
    lemma_searched(tag);
    lemma_written(tag, was, turned);
    lemma_written(tag, now, turned);
    lemma_unquoted(s, 0, h);
    let st = lex(s, 0, h);
    lemma_flat_run(st, g, tag, g.len() as int);
    lemma_flat_run(st, f, tag, f.len() as int);
    lemma_run_lex(s, 0, h, g, g.len() as int);
    assert forall|i: int| h <= i <= e implies (#[trigger] lex(s, 0, i)).depth >= st.depth by {
        lemma_run_lex(s, 0, h, g, i - h);
        lemma_flat_run(st, g, tag, i - h);
    }
    assert(s.subrange(h, e)[0] == s[h]);
    lemma_graft_bytes(s, h, e, f);
    assert(crate::graft::opens_at(f, 0));
    assert forall|k: int| h <= k < e implies !occurs_at(s, symbol_head(), k) && !occurs_at(
        s,
        lib_head(),
        k,
    ) by {
        lemma_flat_free(s, g, tag, h, k);
    }
    assert forall|k: int| h <= k < h + f.len() implies !occurs_at(t, symbol_head(), k)
        && !occurs_at(t, lib_head(), k) by {
        lemma_flat_free(t, f, tag, h, k);
    }
}

/// What a flat list opens.
proof fn lemma_flat_start(t: Seq<u8>, l: Seq<u8>, tag: Seq<u8>, h: int, other: Seq<u8>)
    requires
        is_word(tag),
        is_word(other),
        flat(l, tag),
        occurs_at(t, l, h),
        !lex(t, 0, h).quoted,
    ensures
        is_block_start(t, other, h) <==> other == tag,
{
    let part = t.subrange(h, h + l.len());
    let n = tag.len() as int;
    let m = other.len() as int;
    assert forall|i: int| 0 <= i < l.len() implies t[h + i] == #[trigger] l[i] by {
        assert(part[i] == t[h + i]);
    }
    assert forall|i: int| 0 <= i < n implies l[1 + i] == #[trigger] tag[i] by {
        assert(l.subrange(1, 1 + n)[i] == l[1 + i]);
    }
    if other == tag {
        assert(t.subrange(h + 1, h + 1 + n) =~= tag);
        assert(t[h + 1 + n] == l[1 + n]);
    } else if is_block_start(t, other, h) {
        let seen = t.subrange(h + 1, h + 1 + m);
        assert(seen == other);
        assert(m <= n) by {
            if m > n {
                assert(seen[n] == t[h + 1 + n]);
                assert(t[h + 1 + n] == l[1 + n]);
                assert(is_delimiter(other[n]));
            }
        }
        if m < n {
            assert(t[h + 1 + m] == l[1 + m]);
            assert(l[1 + m] == tag[m]);
            assert(!is_delimiter(tag[m]));
        } else {
            assert forall|i: int| 0 <= i < n implies other[i] == #[trigger] tag[i] by {
                assert(seen[i] == t[h + 1 + i]);
                assert(t[h + (1 + i)] == l[1 + i]);
            }
            assert(other =~= tag);
        }
    }
}

/// A list opens where one opened.
proof fn lemma_swap_start(
    s: Seq<u8>,
    h: int,
    tag: Seq<u8>,
    was: FixedCoord,
    now: FixedCoord,
    turned: bool,
    other: Seq<u8>,
    i: int,
)
    requires
        swaps(s, h, tag, was, now, turned),
        searched(other),
        i <= h || list_end(h, tag, was, turned) <= i,
    ensures
        is_block_start(s, other, i) == is_block_start(
            swapped(s, h, tag, was, now, turned),
            other,
            shift(i, h, grown(tag, was, now, turned)),
        ),
{
    let g = fixed_list(tag, was, turned);
    let f = fixed_list(tag, now, turned);
    let e = list_end(h, tag, was, turned);
    let t = swapped(s, h, tag, was, now, turned);
    let by = grown(tag, was, now, turned);
    let m = other.len() as int;
    lemma_searched(other);
    lemma_swap_graft(s, h, tag, was, now, turned);
    lemma_graft_bytes(s, h, e, f);
    lemma_graft_lex(s, h, e, f, h);
    assert(s.subrange(h, e)[0] == s[h]);
    assert(t[h + 0] == f[0]);
    if i == h {
        lemma_flat_start(s, g, tag, h, other);
        lemma_flat_start(t, f, tag, h, other);
    } else if i < h {
        if 0 <= i {
            lemma_graft_lex(s, h, e, f, i);
            assert(s[i] == t[i]);
            if i + 1 + m <= h {
                assert(s.subrange(i + 1, i + 1 + m) =~= t.subrange(i + 1, i + 1 + m));
                if i + 1 + m < h {
                    assert(s[i + 1 + m] == t[i + 1 + m]);
                }
            } else {
                if occurs_at(s, other, i + 1) {
                    assert(s.subrange(i + 1, i + 1 + m)[h - i - 1] == s[h]);
                    assert(is_delimiter(other[h - i - 1]));
                }
                if occurs_at(t, other, i + 1) {
                    assert(t.subrange(i + 1, i + 1 + m)[h - i - 1] == t[h]);
                    assert(is_delimiter(other[h - i - 1]));
                }
            }
        }
    } else {
        if i < s.len() {
            lemma_graft_lex(s, h, e, f, i);
            assert(s[i] == t[i + by]);
            if i + 1 + m <= s.len() {
                assert(s.subrange(i + 1, i + 1 + m) =~= t.subrange(i + by + 1, i + by + 1 + m));
                if i + 1 + m < s.len() {
                    assert(s[i + 1 + m] == t[i + 1 + m + by]);
                }
            }
        }
    }
}

/// No list opens inside a flat list.
proof fn lemma_flat_inside(t: Seq<u8>, l: Seq<u8>, tag: Seq<u8>, h: int, other: Seq<u8>, i: int)
    requires
        flat(l, tag),
        occurs_at(t, l, h),
        h < i < h + l.len(),
    ensures
        !is_block_start(t, other, i),
{
    assert(t.subrange(h, h + l.len())[i - h] == t[i]);
}

/// What a scan for a head lists.
proof fn lemma_starts(s: Seq<u8>, tag: Seq<u8>)
    ensures
        forall|i: int| #[trigger] block_starts(s, tag).contains(i) <==> is_block_start(s, tag, i),
        forall|i: int, j: int|
            0 <= i < j < block_starts(s, tag).len() ==> #[trigger] block_starts(s, tag)[i]
                < #[trigger] block_starts(s, tag)[j],
{
    let all = block_starts(s, tag);
    let len = s.len() as int;
    lemma_starts_below(s, tag, len);
    assert forall|i: int| #[trigger] all.contains(i) <==> is_block_start(s, tag, i) by {
        if is_block_start(s, tag, i) {
            lemma_starts_prefix(s, tag, i + 1, len);
            let upto = starts_below(s, tag, i + 1);
            assert(upto[upto.len() - 1] == i);
            assert(all[upto.len() - 1] == i);
        }
    }
    assert forall|i: int, j: int| 0 <= i < j < all.len() implies #[trigger] all[i]
        < #[trigger] all[j] by {
        lemma_starts_prefix(s, tag, all[j], len);
        let upto = starts_below(s, tag, all[j]);
        assert(is_block_start(s, tag, all[j]));
        if i >= upto.len() {
            lemma_starts_prefix(s, tag, all[j] + 1, len);
            let next = starts_below(s, tag, all[j] + 1);
            assert(next == upto.push(all[j]));
            assert(all[upto.len() as int] == next[upto.len() as int]);
            if i > upto.len() {
                assert(all[i] >= all[j] + 1);
            }
            if j > upto.len() {
                assert(all[j] >= all[j] + 1);
            }
        } else {
            assert(all[i] == upto[i]);
        }
    }
}

/// The lists of a head are those that were there, moved.
proof fn lemma_swap_starts(
    s: Seq<u8>,
    h: int,
    tag: Seq<u8>,
    was: FixedCoord,
    now: FixedCoord,
    turned: bool,
    other: Seq<u8>,
)
    requires
        swaps(s, h, tag, was, now, turned),
        searched(other),
    ensures
        block_starts(swapped(s, h, tag, was, now, turned), other) == block_starts(
            s,
            other,
        ).map_values(|i: int| shift(i, h, grown(tag, was, now, turned))),
        forall|k: int|
            0 <= k < block_starts(s, other).len() ==> {
                let i = #[trigger] block_starts(s, other)[k];
                &&& is_block_start(s, other, i)
                &&& i <= h || list_end(h, tag, was, turned) <= i
                &&& i == h ==> other == tag
            },
{
    let g = fixed_list(tag, was, turned);
    let f = fixed_list(tag, now, turned);
    let e = list_end(h, tag, was, turned);
    let t = swapped(s, h, tag, was, now, turned);
    let by = grown(tag, was, now, turned);
    let old = block_starts(s, other);
    let new = block_starts(t, other);
    let go = |i: int| shift(i, h, by);
    lemma_searched(other);
    lemma_swap_graft(s, h, tag, was, now, turned);
    lemma_graft_bytes(s, h, e, f);
    lemma_starts(s, other);
    lemma_starts(t, other);
    lemma_flat_start(s, g, tag, h, other);
    assert forall|k: int| 0 <= k < old.len() implies {
        let i = #[trigger] old[k];
        &&& is_block_start(s, other, i)
        &&& i <= h || e <= i
        &&& i == h ==> other == tag
    } by {
        let i = old[k];
        assert(old.contains(i));
        if h < i < e {
            lemma_flat_inside(s, g, tag, h, other, i);
        }
    }
    let b = old.map_values(go);
    assert forall|i: int, j: int| 0 <= i < j < b.len() implies #[trigger] b[i] < #[trigger] b[j] by {
        assert(old[i] < old[j]);
        assert(b[i] == shift(old[i], h, by) && b[j] == shift(old[j], h, by));
    }
    assert forall|x: int| #[trigger] new.contains(x) <==> b.contains(x) by {
        if b.contains(x) {
            let k = choose|k: int| 0 <= k < b.len() && b[k] == x;
            assert(is_block_start(s, other, old[k]));
            lemma_swap_start(s, h, tag, was, now, turned, other, old[k]);
        }
        if new.contains(x) {
            if h < x < h + f.len() {
                lemma_flat_inside(t, f, tag, h, other, x);
            }
            let i = if x <= h {
                x
            } else {
                x - by
            };
            lemma_swap_start(s, h, tag, was, now, turned, other, i);
            assert(old.contains(i));
            let k = choose|k: int| 0 <= k < old.len() && old[k] == i;
            assert(b[k] == x);
        }
    }
    lemma_same_ascending(new, b);
}

/// Where the exchanged list ends, and ended.
proof fn lemma_swap_own_end(
    s: Seq<u8>,
    h: int,
    tag: Seq<u8>,
    was: FixedCoord,
    now: FixedCoord,
    turned: bool,
)
    requires
        swaps(s, h, tag, was, now, turned),
    ensures
        block_end(s, h) == Some(list_end(h, tag, was, turned)),
        block_end(swapped(s, h, tag, was, now, turned), h) == Some(
            list_end(h, tag, was, turned) + grown(tag, was, now, turned),
        ),
        h < list_end(h, tag, was, turned),
{
    let f = fixed_list(tag, now, turned);
    let e = list_end(h, tag, was, turned);
    let t = swapped(s, h, tag, was, now, turned);
    lemma_swap_graft(s, h, tag, was, now, turned);
    lemma_graft_bytes(s, h, e, f);
    lemma_written(tag, was, turned);
    lemma_written(tag, now, turned);
    lemma_block_within(s, h, e, 0);
    lemma_block_within(t, h, h + f.len(), 0);
}

/// A list that opens outside the exchanged one, or is it, ends where it did,
/// moved.
proof fn lemma_swap_end(
    s: Seq<u8>,
    h: int,
    tag: Seq<u8>,
    was: FixedCoord,
    now: FixedCoord,
    turned: bool,
    a: int,
)
    requires
        swaps(s, h, tag, was, now, turned),
        0 <= a,
        !lex(s, 0, a).quoted,
        a <= h || list_end(h, tag, was, turned) <= a,
    ensures
        ({
            let e = list_end(h, tag, was, turned);
            let by = grown(tag, was, now, turned);
            &&& block_end(swapped(s, h, tag, was, now, turned), shift(a, h, by)) == match block_end(
                s,
                a,
            ) {
                Some(x) => Some(shift(x, h, by)),
                None => None,
            }
            &&& a < h ==> (block_end(s, a) matches Some(x) ==> x <= h || x > e)
            &&& a == h ==> block_end(s, a) == Some(e)
        }),
{
    let f = fixed_list(tag, now, turned);
    let e = list_end(h, tag, was, turned);
    lemma_swap_graft(s, h, tag, was, now, turned);
    lemma_swap_own_end(s, h, tag, was, now, turned);
    lemma_block_end(s, a);
    if a < h {
        lemma_graft_end(s, h, e, f, a);
    } else if a > h {
        lemma_graft_end_behind(s, h, e, f, a);
    }
}

// ── The lists of an item ─────────────────────────────────────────────────────

/// The list that is exchanged, and the lists it is exchanged for.
#[verifier::ext_equal]
struct Swap {
    h: int,
    tag: Seq<u8>,
    was: FixedCoord,
    now: FixedCoord,
    turned: bool,
}

impl Swap {
    spec fn fits(self, s: Seq<u8>) -> bool {
        swaps(s, self.h, self.tag, self.was, self.now, self.turned)
    }

    spec fn end(self) -> int {
        list_end(self.h, self.tag, self.was, self.turned)
    }

    spec fn gain(self) -> int {
        grown(self.tag, self.was, self.now, self.turned)
    }

    spec fn of(self, s: Seq<u8>) -> Seq<u8> {
        swapped(s, self.h, self.tag, self.was, self.now, self.turned)
    }

    /// The same exchange in a part of the text that begins at `a`.
    spec fn within(self, a: int) -> Swap {
        Swap { h: self.h - a, ..self }
    }

    /// A coordinate list is the one that is exchanged, or stands apart from it.
    spec fn clear(self, site: Site) -> bool {
        ||| site.start == self.h && site.end == self.end() && site.tag == self.tag && turned(site)
            == self.turned
        ||| site.start < site.end <= self.h
        ||| self.end() <= site.start < site.end
    }

    spec fn all_clear(self, sites: Seq<Site>) -> bool {
        forall|i: int| 0 <= i < sites.len() ==> self.clear(#[trigger] sites[i])
    }

    /// A coordinate list once the exchange is made.
    spec fn site(self, site: Site) -> Site {
        Site {
            start: shift(site.start, self.h, self.gain()),
            end: shift(site.end, self.h, self.gain()),
            tag: site.tag,
            numbers: if site.start == self.h {
                coord_of(self.now, self.turned)
            } else {
                site.numbers
            },
        }
    }

    spec fn sites(self, sites: Seq<Site>) -> Seq<Site> {
        sites.map_values(|x: Site| self.site(x))
    }
}

proof fn lemma_sites_push(w: Swap, sites: Seq<Site>, site: Site)
    ensures
        w.sites(sites.push(site)) == w.sites(sites).push(w.site(site)),
{
    assert(w.sites(sites.push(site)) =~= w.sites(sites).push(w.site(site)));
}

/// A part of the text before the exchange or behind it stays, moved.
proof fn lemma_swap_apart(s: Seq<u8>, w: Swap, a: int, x: int)
    requires
        w.fits(s),
        0 <= a < x <= s.len(),
        x <= w.h || w.end() <= a,
    ensures
        w.of(s).subrange(shift(a, w.h, w.gain()), shift(x, w.h, w.gain())) == s.subrange(a, x),
        0 <= shift(a, w.h, w.gain()) <= shift(x, w.h, w.gain()) <= w.of(s).len(),
{
    let t = w.of(s);
    let f = fixed_list(w.tag, w.now, w.turned);
    lemma_swap_graft(s, w.h, w.tag, w.was, w.now, w.turned);
    lemma_graft_bytes(s, w.h, w.end(), f);
    let by = w.gain();
    if x <= w.h {
        assert(t.subrange(a, x) =~= s.subrange(a, x));
    } else {
        assert forall|i: int| a <= i < x implies s[i] == #[trigger] t[i + by] by {}
        assert(t.subrange(a + by, x + by) =~= s.subrange(a, x)) by {
            assert forall|i: int| 0 <= i < x - a implies t[a + by + i] == #[trigger] s[a + i] by {
                assert(s[a + i] == t[(a + i) + by]);
            }
        }
    }
}

/// A part of the text around the exchange has it too.
proof fn lemma_swap_around(s: Seq<u8>, w: Swap, a: int, x: int)
    requires
        w.fits(s),
        0 <= a < w.h,
        w.end() < x <= s.len(),
        !lex(s, 0, a).quoted,
    ensures
        w.within(a).fits(s.subrange(a, x)),
        w.within(a).end() == w.end() - a,
        w.within(a).gain() == w.gain(),
        w.of(s).subrange(a, x + w.gain()) == w.within(a).of(s.subrange(a, x)),
{
    let part = s.subrange(a, x);
    let g = fixed_list(w.tag, w.was, w.turned);
    let f = fixed_list(w.tag, w.now, w.turned);
    let e = w.end();
    lemma_swap_graft(s, w.h, w.tag, w.was, w.now, w.turned);
    lemma_graft_bytes(s, w.h, e, f);
    lemma_unquoted(s, 0, a);
    lemma_lex_compose(s, 0, a, w.h);
    lemma_lex_within(s, a, x, 0, w.h - a);
    assert(part.subrange(w.h - a, w.h - a + g.len()) =~= s.subrange(w.h, w.h + g.len()));
    assert(w.of(s).subrange(a, x + w.gain()) =~= w.within(a).of(part));
}

/// The exchanged list, as it is read.
proof fn lemma_swap_list_text(s: Seq<u8>, w: Swap)
    requires
        w.fits(s),
    ensures
        w.of(s).subrange(w.h, w.end() + w.gain()) == fixed_list(w.tag, w.now, w.turned),
        w.h < w.end(),
        w.h < w.end() + w.gain() <= w.of(s).len(),
{
    let f = fixed_list(w.tag, w.now, w.turned);
    lemma_swap_graft(s, w.h, w.tag, w.was, w.now, w.turned);
    lemma_graft_bytes(s, w.h, w.end(), f);
    assert(w.of(s).subrange(w.h, w.end() + w.gain()) =~= f);
}

/// The first list of a head is the one that was, moved.
proof fn lemma_swap_range(s: Seq<u8>, w: Swap, tag: Seq<u8>)
    requires
        w.fits(s),
        searched(tag),
    ensures
        coord_range(w.of(s), tag) == match coord_range(s, tag) {
            Some(r) => Some((shift(r.0, w.h, w.gain()), shift(r.1, w.h, w.gain()))),
            None => None,
        },
        coord_range(s, tag) matches Some(r) ==> {
            &&& 0 <= r.0 < r.1 <= s.len()
            &&& r.0 == w.h ==> r.1 == w.end() && tag == w.tag
        },
{
    let starts = block_starts(s, tag);
    lemma_swap_starts(s, w.h, w.tag, w.was, w.now, w.turned, tag);
    if starts.len() > 0 {
        let a = starts[0];
        assert(is_block_start(s, tag, a));
        lemma_swap_end(s, w.h, w.tag, w.was, w.now, w.turned, a);
        lemma_block_end(s, a);
        assert(block_starts(w.of(s), tag)[0] == shift(a, w.h, w.gain()));
    }
}

/// A list that is read directly.
proof fn lemma_swap_list(s: Seq<u8>, w: Swap, before: Seq<Site>, tag: Seq<char>)
    requires
        w.fits(s),
        coord_head(utf8(tag)),
        with_list(Ok(before), s, tag) is Ok,
        w.all_clear(with_list(Ok(before), s, tag)->Ok_0),
    ensures
        with_list(Ok(w.sites(before)), w.of(s), tag) == Ok::<Seq<Site>, Seq<char>>(
            w.sites(with_list(Ok(before), s, tag)->Ok_0),
        ),
{
    lemma_swap_range(s, w, utf8(tag));
    if let Some(r) = coord_range(s, utf8(tag)) {
        let numbers = read_coord(s.subrange(r.0, r.1))->0;
        let site = Site { start: r.0, end: r.1, tag: utf8(tag), numbers };
        let after = with_list(Ok(before), s, tag)->Ok_0;
        assert(after == before.push(site));
        assert(after[before.len() as int] == site);
        assert(w.clear(site));
        lemma_sites_push(w, before, site);
        lemma_swap_list_text(s, w);
        if r.0 == w.h {
            lemma_searched(w.tag);
            lemma_written(w.tag, w.now, w.turned);
        } else {
            lemma_swap_apart(s, w, r.0, r.1);
        }
    }
}

/// The points of a wire.
proof fn lemma_swap_points(s: Seq<u8>, w: Swap, before: Seq<Site>, n: int)
    requires
        w.fits(s),
        0 <= n <= block_starts(s, utf8("xy"@)).len(),
        with_points(Ok(before), s, block_starts(s, utf8("xy"@)), n) is Ok,
        w.all_clear(with_points(Ok(before), s, block_starts(s, utf8("xy"@)), n)->Ok_0),
    ensures
        with_points(Ok(w.sites(before)), w.of(s), block_starts(w.of(s), utf8("xy"@)), n) == Ok::<
            Seq<Site>,
            Seq<char>,
        >(w.sites(with_points(Ok(before), s, block_starts(s, utf8("xy"@)), n)->Ok_0)),
    decreases n,
{
    let tag = utf8("xy"@);
    let starts = block_starts(s, tag);
    let t = w.of(s);
    if n > 0 {
        let some = with_points(Ok(before), s, starts, n - 1)->Ok_0;
        let all = with_points(Ok(before), s, starts, n)->Ok_0;
        let a = starts[n - 1];
        let end = block_end(s, a)->0;
        let tree = parsed(s.subrange(a, end))->0;
        let site = Site {
            start: a,
            end,
            tag,
            numbers: Coord {
                at: Point { x: numeral(tree, 1)->0, y: numeral(tree, 2)->0 },
                rotation: None,
            },
        };
        assert(all == some.push(site));
        assert forall|i: int| 0 <= i < some.len() implies w.clear(#[trigger] some[i]) by {
            assert(all[i] == some[i]);
        }
        assert(all[some.len() as int] == site);
        assert(w.clear(site));
        lemma_swap_points(s, w, before, n - 1);
        lemma_swap_starts(s, w.h, w.tag, w.was, w.now, w.turned, tag);
        assert(is_block_start(s, tag, a));
        lemma_swap_end(s, w.h, w.tag, w.was, w.now, w.turned, a);
        lemma_block_end(s, a);
        lemma_sites_push(w, some, site);
        lemma_swap_list_text(s, w);
        assert(block_starts(t, tag)[n - 1] == shift(a, w.h, w.gain()));
        if a == w.h {
            lemma_searched(w.tag);
            lemma_written(w.tag, w.now, w.turned);
            assert(!turned(site));
        } else {
            lemma_swap_apart(s, w, a, end);
        }
    }
}

/// The anchor of a property that stands at `a`, as a coordinate list of the
/// whole text.
spec fn anchor(s: Seq<u8>, a: int, end: int) -> Option<Site> {
    let property = s.subrange(a, end);
    match coord_range(property, utf8("at"@)) {
        Some(r) => Some(
            Site {
                start: a + r.0,
                end: a + r.1,
                tag: utf8("at"@),
                numbers: read_coord(property.subrange(r.0, r.1))->0,
            },
        ),
        None => None,
    }
}

/// The anchor of a property is read where one was read.
spec fn anchored(s: Seq<u8>, a: int, end: int) -> bool {
    let property = s.subrange(a, end);
    coord_range(property, utf8("at"@)) matches Some(r) ==> read_coord(
        property.subrange(r.0, r.1),
    ) is Some
}

/// The anchor of one property, around the exchange.
#[verifier::spinoff_prover]
#[verifier::rlimit(40)]
proof fn lemma_swap_anchor_around(s: Seq<u8>, w: Swap, a: int, end: int)
    requires
        w.fits(s),
        0 <= a < w.h,
        w.end() < end <= s.len(),
        !lex(s, 0, a).quoted,
        anchored(s, a, end),
        anchor(s, a, end) matches Some(site) ==> w.clear(site),
    ensures
        anchored(w.of(s), a, end + w.gain()),
        anchor(w.of(s), a, end + w.gain()) == match anchor(s, a, end) {
            Some(site) => Some(w.site(site)),
            None => None,
        },
{
    let property = s.subrange(a, end);
    let inner = w.within(a);
    lemma_swap_around(s, w, a, end);
    lemma_swap_range(property, inner, utf8("at"@));
    lemma_swap_list_text(property, inner);
    if let Some(r) = coord_range(property, utf8("at"@)) {
        if r.0 == inner.h {
            lemma_searched(w.tag);
            lemma_written(w.tag, w.now, w.turned);
        } else {
            lemma_swap_apart(property, inner, r.0, r.1);
        }
    }
}

/// The anchor of one property, apart from the exchange.
proof fn lemma_swap_anchor_apart(s: Seq<u8>, w: Swap, a: int, end: int)
    requires
        w.fits(s),
        0 <= a < end <= s.len(),
        a != w.h,
        end <= w.h || w.end() <= a,
        anchored(s, a, end),
    ensures
        ({
            let c = shift(a, w.h, w.gain());
            let d = shift(end, w.h, w.gain());
            &&& anchored(w.of(s), c, d)
            &&& anchor(w.of(s), c, d) == match anchor(s, a, end) {
                Some(site) => Some(w.site(site)),
                None => None,
            }
        }),
{
    let property = s.subrange(a, end);
    lemma_swap_apart(s, w, a, end);
    lemma_swap_list_text(s, w);
    if let Some(r) = coord_range(property, utf8("at"@)) {
        let inner = block_starts(property, utf8("at"@));
        lemma_starts_below(property, utf8("at"@), property.len() as int);
        assert(is_block_start(property, utf8("at"@), inner[0]));
        lemma_block_end(property, inner[0]);
    }
}

/// The anchor of one property.
proof fn lemma_swap_anchor(s: Seq<u8>, w: Swap, k: int)
    requires
        w.fits(s),
        0 <= k < block_starts(s, utf8("property"@)).len(),
        block_end(s, block_starts(s, utf8("property"@))[k]) is Some,
        ({
            let a = block_starts(s, utf8("property"@))[k];
            let end = block_end(s, a)->0;
            &&& anchored(s, a, end)
            &&& anchor(s, a, end) matches Some(site) ==> w.clear(site)
        }),
    ensures
        ({
            let a = block_starts(s, utf8("property"@))[k];
            let end = block_end(s, a)->0;
            let c = shift(a, w.h, w.gain());
            let d = shift(end, w.h, w.gain());
            &&& k < block_starts(w.of(s), utf8("property"@)).len()
            &&& block_starts(w.of(s), utf8("property"@))[k] == c
            &&& block_end(w.of(s), c) == Some(d)
            &&& anchored(w.of(s), c, d)
            &&& anchor(w.of(s), c, d) == match anchor(s, a, end) {
                Some(site) => Some(w.site(site)),
                None => None,
            }
        }),
{
    let tag = utf8("property"@);
    let a = block_starts(s, tag)[k];
    let end = block_end(s, a)->0;
    lemma_swap_starts(s, w.h, w.tag, w.was, w.now, w.turned, tag);
    assert(is_block_start(s, tag, a));
    lemma_swap_end(s, w.h, w.tag, w.was, w.now, w.turned, a);
    lemma_block_end(s, a);
    lemma_property_head(w.tag);
    lemma_swap_list_text(s, w);
    if a < w.h && w.end() < end {
        lemma_swap_anchor_around(s, w, a, end);
    } else {
        lemma_swap_anchor_apart(s, w, a, end);
    }
}

/// What one more property adds.
proof fn lemma_one_property(before: Result<Seq<Site>, Seq<char>>, s: Seq<u8>, n: int)
    requires
        n > 0,
    ensures
        ({
            let starts = block_starts(s, utf8("property"@));
            let some = with_properties(before, s, starts, n - 1);
            let all = with_properties(before, s, starts, n);
            let end = block_end(s, starts[n - 1]);
            &&& all is Ok <==> some is Ok && end is Some && anchored(s, starts[n - 1], end->0)
            &&& all is Ok ==> all->Ok_0 == match anchor(s, starts[n - 1], end->0) {
                Some(site) => some->Ok_0.push(site),
                None => some->Ok_0,
            }
        }),
{
}

/// The anchors of the properties of a symbol.
proof fn lemma_swap_properties(s: Seq<u8>, w: Swap, before: Seq<Site>, n: int)
    requires
        w.fits(s),
        0 <= n <= block_starts(s, utf8("property"@)).len(),
        with_properties(Ok(before), s, block_starts(s, utf8("property"@)), n) is Ok,
        w.all_clear(with_properties(Ok(before), s, block_starts(s, utf8("property"@)), n)->Ok_0),
    ensures
        with_properties(
            Ok(w.sites(before)),
            w.of(s),
            block_starts(w.of(s), utf8("property"@)),
            n,
        ) == Ok::<Seq<Site>, Seq<char>>(
            w.sites(
                with_properties(Ok(before), s, block_starts(s, utf8("property"@)), n)->Ok_0,
            ),
        ),
    decreases n,
{
    let starts = block_starts(s, utf8("property"@));
    if n > 0 {
        let some = with_properties(Ok(before), s, starts, n - 1)->Ok_0;
        let all = with_properties(Ok(before), s, starts, n)->Ok_0;
        let a = starts[n - 1];
        lemma_one_property(Ok(before), s, n);
        let end = block_end(s, a)->0;
        assert forall|i: int| 0 <= i < some.len() implies w.clear(#[trigger] some[i]) by {
            assert(all[i] == some[i]);
        }
        lemma_swap_properties(s, w, before, n - 1);
        if let Some(site) = anchor(s, a, end) {
            assert(all[some.len() as int] == site);
            lemma_sites_push(w, some, site);
        }
        lemma_swap_anchor(s, w, n - 1);
        lemma_one_property(Ok(w.sites(before)), w.of(s), n);
    }
}

/// A property is no coordinate list.
proof fn lemma_property_head(tag: Seq<u8>)
    requires
        coord_head(tag),
    ensures
        tag != utf8("property"@),
{
    reveal_strlit("property");
    reveal_strlit("at");
    reveal_strlit("start");
    reveal_strlit("end");
    reveal_strlit("xy");
    vstd::utf8::is_ascii_chars_encode_utf8("property"@);
    vstd::utf8::is_ascii_chars_encode_utf8("at"@);
    vstd::utf8::is_ascii_chars_encode_utf8("start"@);
    vstd::utf8::is_ascii_chars_encode_utf8("end"@);
    vstd::utf8::is_ascii_chars_encode_utf8("xy"@);
    if tag == utf8("property"@) {
        assert(tag.len() == 8);
    }
}

/// The first of the lists are those that were there before.
spec fn begins(r: Result<Seq<Site>, Seq<char>>, before: Result<Seq<Site>, Seq<char>>) -> bool {
    r is Ok ==> {
        &&& before is Ok
        &&& before->Ok_0.len() <= r->Ok_0.len()
        &&& forall|i: int|
            0 <= i < before->Ok_0.len() ==> r->Ok_0[i] == #[trigger] before->Ok_0[i]
    }
}

proof fn lemma_points_begin(
    before: Result<Seq<Site>, Seq<char>>,
    s: Seq<u8>,
    starts: Seq<int>,
    n: int,
)
    ensures
        begins(with_points(before, s, starts, n), before),
    decreases n,
{
    if n > 0 {
        lemma_points_begin(before, s, starts, n - 1);
    }
}

proof fn lemma_properties_begin(
    before: Result<Seq<Site>, Seq<char>>,
    s: Seq<u8>,
    starts: Seq<int>,
    n: int,
)
    ensures
        begins(with_properties(before, s, starts, n), before),
    decreases n,
{
    if n > 0 {
        lemma_properties_begin(before, s, starts, n - 1);
    }
}

proof fn lemma_clear_before(w: Swap, r: Seq<Site>, before: Seq<Site>)
    requires
        w.all_clear(r),
        begins(Ok(r), Ok(before)),
    ensures
        w.all_clear(before),
{
    assert forall|i: int| 0 <= i < before.len() implies w.clear(#[trigger] before[i]) by {
        assert(r[i] == before[i]);
    }
}

/// The two corners, or ends, of an item.
proof fn lemma_swap_corners(s: Seq<u8>, w: Swap)
    requires
        w.fits(s),
        with_list(with_list(Ok(Seq::empty()), s, "start"@), s, "end"@) is Ok,
        w.all_clear(with_list(with_list(Ok(Seq::empty()), s, "start"@), s, "end"@)->Ok_0),
    ensures
        with_list(with_list(Ok(Seq::empty()), w.of(s), "start"@), w.of(s), "end"@) == Ok::<
            Seq<Site>,
            Seq<char>,
        >(w.sites(with_list(with_list(Ok(Seq::empty()), s, "start"@), s, "end"@)->Ok_0)),
{
    let none = Seq::<Site>::empty();
    assert(w.sites(none) =~= none);
    let first = with_list(Ok(none), s, "start"@);
    let both = with_list(first, s, "end"@);
    assert(first is Ok);
    assert(begins(both, first));
    lemma_clear_before(w, both->Ok_0, first->Ok_0);
    lemma_swap_list(s, w, none, "start"@);
    lemma_swap_list(s, w, first->Ok_0, "end"@);
}

/// The coordinate lists of an item are those that were, moved, with the
/// numbers of the exchanged one.
proof fn lemma_swap_sites(s: Seq<u8>, w: Swap, kind: RegionKind)
    requires
        w.fits(s),
        item_sites(s, kind) is Ok,
        w.all_clear(item_sites(s, kind)->Ok_0),
    ensures
        item_sites(w.of(s), kind) == Ok::<Seq<Site>, Seq<char>>(
            w.sites(item_sites(s, kind)->Ok_0),
        ),
{
    let none = Seq::<Site>::empty();
    let all = item_sites(s, kind)->Ok_0;
    assert(w.sites(none) =~= none);
    match kind {
        RegionKind::Wire => {
            let starts = block_starts(s, utf8("xy"@));
            let n = starts.len() as int;
            let before = with_list(with_list(Ok(none), s, "start"@), s, "end"@);
            lemma_points_begin(before, s, starts, n);
            lemma_clear_before(w, all, before->Ok_0);
            lemma_swap_corners(s, w);
            lemma_swap_points(s, w, before->Ok_0, n);
            lemma_swap_starts(s, w.h, w.tag, w.was, w.now, w.turned, utf8("xy"@));
        },
        RegionKind::Symbol | RegionKind::PowerSymbol => {
            let starts = block_starts(s, utf8("property"@));
            let n = starts.len() as int;
            let before = with_list(Ok(none), s, "at"@);
            lemma_properties_begin(before, s, starts, n);
            lemma_clear_before(w, all, before->Ok_0);
            lemma_swap_list(s, w, none, "at"@);
            lemma_swap_properties(s, w, before->Ok_0, n);
            lemma_swap_starts(s, w.h, w.tag, w.was, w.now, w.turned, utf8("property"@));
        },
        RegionKind::Rectangle => {
            lemma_swap_corners(s, w);
        },
        _ => {
            lemma_swap_list(s, w, none, "at"@);
        },
    }
}

// ── An item that is moved back ───────────────────────────────────────────────

/// The coordinate lists of an item stand one behind the other, each as it is
/// written with the numbers `was`.
pub open spec fn written_with(
    block: Seq<u8>,
    sites: Seq<Site>,
    was: Seq<FixedCoord>,
    n: int,
) -> bool {
    &&& was.len() == sites.len()
    &&& forall|i: int, j: int|
        0 <= i < j < sites.len() ==> (#[trigger] sites[i]).end <= (#[trigger] sites[j]).start
    &&& forall|i: int|
        0 <= i < n ==> block.subrange((#[trigger] sites[i]).start, sites[i].end) == fixed_list(
            sites[i].tag,
            was[i],
            turned(sites[i]),
        )
}

/// All numbers are written as numbers.
pub open spec fn all_numbers(moved: Seq<FixedCoord>) -> bool {
    forall|i: int| 0 <= i < moved.len() ==> numbers(#[trigger] moved[i])
}

/// The coordinate lists of an item of which the first `k` got new numbers.
spec fn follow(
    sites: Seq<Site>,
    now: Seq<Site>,
    es: Seq<Edit>,
    k: int,
) -> bool {
    &&& now.len() == sites.len()
    &&& forall|i: int|
        0 <= i < sites.len() ==> {
            &&& (#[trigger] now[i]).tag == sites[i].tag
            &&& turned(now[i]) == turned(sites[i])
            &&& now[i].start == sites[i].start + lengthened(
                es,
                0,
                if i < k {
                    i
                } else {
                    k
                },
            )
            &&& now[i].end - now[i].start == if i < k {
                es[i].text.len() as int
            } else {
                sites[i].end - sites[i].start
            }
        }
}

/// One list of an item gets new numbers.
proof fn lemma_one_site(
    block: Seq<u8>,
    kind: RegionKind,
    was: Seq<FixedCoord>,
    moved: Seq<FixedCoord>,
    k: int,
) -> (w: Swap)
    requires
        item_sites(block, kind) is Ok,
        written_with(block, item_sites(block, kind)->Ok_0, was, k + 1),
        0 <= k < was.len(),
        moved.len() == was.len(),
        all_numbers(was),
        all_numbers(moved),
    ensures
        ({
            let sites = item_sites(block, kind)->Ok_0;
            let e = site_edits(sites, moved)[k];
            let t = spliced(block, e.start, e.end, e.text);
            &&& w.h == e.start
            &&& w.end() == e.end
            &&& w.gain() == e.text.len() - (e.end - e.start)
            &&& w.turned == turned(sites[k])
            &&& w.tag == sites[k].tag
            &&& t == w.of(block)
            &&& item_sites(t, kind) == Ok::<Seq<Site>, Seq<char>>(w.sites(sites))
            &&& 0 <= e.start < e.end <= block.len()
            &&& forall|i: int|
                0 <= i < sites.len() ==> 0 <= (#[trigger] sites[i]).start < sites[i].end
                    <= block.len()
        }),
{
    let sites = item_sites(block, kind)->Ok_0;
    let site = sites[k];
    let w = Swap {
        h: site.start,
        tag: site.tag,
        was: was[k],
        now: moved[k],
        turned: turned(site),
    };
    lemma_item_sites_good(block, kind);
    assert(site_good(block, site));
    lemma_block_end(block, site.start);
    assert(block.subrange(site.start, site.end) == fixed_list(site.tag, was[k], turned(site)));
    assert(numbers(was[k]) && numbers(moved[k]));
    assert(w.end() == site.end);
    assert(w.fits(block));
    assert forall|i: int| 0 <= i < sites.len() implies 0 <= (#[trigger] sites[i]).start
        < sites[i].end <= block.len() by {
        assert(site_good(block, sites[i]));
        lemma_block_end(block, sites[i].start);
    }
    assert forall|i: int| 0 <= i < sites.len() implies w.clear(#[trigger] sites[i]) by {
        if i < k {
            assert(sites[i].end <= sites[k].start);
        } else if i > k {
            assert(sites[k].end <= sites[i].start);
        }
    }
    lemma_swap_sites(block, w, kind);
    w
}

/// The coordinate lists of an item once the list before index `k` got new
/// numbers.
spec fn stepped(sites: Seq<Site>, next: Seq<Site>, e: Edit, k: int) -> bool {
    let by = e.text.len() - (e.end - e.start);
    &&& next.len() == sites.len()
    &&& forall|i: int|
        0 <= i < sites.len() ==> {
            &&& (#[trigger] next[i]).tag == sites[i].tag
            &&& turned(next[i]) == turned(sites[i])
            &&& next[i].start == if i < k {
                sites[i].start
            } else {
                sites[i].start + by
            }
            &&& next[i].end == if i < k - 1 {
                sites[i].end
            } else {
                sites[i].end + by
            }
        }
}

proof fn lemma_stepped(w: Swap, sites: Seq<Site>, e: Edit, k: int)
    requires
        0 < k <= sites.len(),
        w.h == e.start,
        w.end() == e.end,
        w.gain() == e.text.len() - (e.end - e.start),
        w.turned == turned(sites[k - 1]),
        w.tag == sites[k - 1].tag,
        e.start == sites[k - 1].start,
        e.end == sites[k - 1].end,
        forall|i: int| 0 <= i < sites.len() ==> (#[trigger] sites[i]).start < sites[i].end,
        forall|i: int, j: int|
            0 <= i < j < sites.len() ==> (#[trigger] sites[i]).end <= (#[trigger] sites[j]).start,
    ensures
        stepped(sites, w.sites(sites), e, k),
{
    let next = w.sites(sites);
    let by = e.text.len() - (e.end - e.start);
    assert forall|i: int| 0 <= i < sites.len() implies {
        &&& (#[trigger] next[i]).tag == sites[i].tag
        &&& turned(next[i]) == turned(sites[i])
        &&& next[i].start == if i < k {
            sites[i].start
        } else {
            sites[i].start + by
        }
        &&& next[i].end == if i < k - 1 {
            sites[i].end
        } else {
            sites[i].end + by
        }
    } by {
        assert(next[i] == w.site(sites[i]));
        assert(sites[i].start < sites[i].end);
        assert(sites[k - 1].start < sites[k - 1].end);
        if i < k - 1 {
            assert(sites[i].end <= sites[k - 1].start);
        } else if i > k - 1 {
            assert(sites[k - 1].end <= sites[i].start);
        }
    }
}

/// What is left to do once one list got new numbers.
#[verifier::spinoff_prover]
#[verifier::rlimit(40)]
proof fn lemma_step(
    block: Seq<u8>,
    kind: RegionKind,
    was: Seq<FixedCoord>,
    moved: Seq<FixedCoord>,
    k: int,
)
    requires
        item_sites(block, kind) is Ok,
        written_with(block, item_sites(block, kind)->Ok_0, was, k),
        0 < k <= was.len(),
        moved.len() == was.len(),
        all_numbers(was),
        all_numbers(moved),
    ensures
        ({
            let sites = item_sites(block, kind)->Ok_0;
            let es = site_edits(sites, moved);
            let e = es[k - 1];
            let t = spliced(block, e.start, e.end, e.text);
            let next = item_sites(t, kind)->Ok_0;
            &&& item_sites(t, kind) is Ok
            &&& stepped(sites, next, e, k)
            &&& written_with(t, next, was, k - 1)
            &&& site_edits(next, moved).take(k - 1) == es.take(k - 1)
            &&& rewritten(block, es.take(k), 0) == rewritten(t, es.take(k - 1), 0)
        }),
{
    let sites = item_sites(block, kind)->Ok_0;
    let es = site_edits(sites, moved);
    let e = es[k - 1];
    let w = lemma_one_site(block, kind, was, moved, k - 1);
    let t = spliced(block, e.start, e.end, e.text);
    let next = w.sites(sites);
    let fs = site_edits(next, moved);
    lemma_stepped(w, sites, e, k);
    lemma_graft_bytes(block, e.start, e.end, e.text);
    assert forall|i: int, j: int| 0 <= i < j < next.len() implies (#[trigger] next[i]).end <= (
    #[trigger] next[j]).start by {
        assert(sites[i].end <= sites[j].start);
    }
    assert forall|i: int| 0 <= i < k - 1 implies t.subrange((#[trigger] next[i]).start, next[i].end)
        == fixed_list(next[i].tag, was[i], turned(next[i])) by {
        assert(sites[i].end <= sites[k - 1].start);
        assert(0 <= sites[i].start < sites[i].end);
        assert(t.subrange(sites[i].start, sites[i].end) =~= block.subrange(
            sites[i].start,
            sites[i].end,
        ));
    }
    assert forall|i: int| 0 <= i < k - 1 implies #[trigger] fs[i] == es[i] by {
        assert(next[i].tag == sites[i].tag);
    }
    assert(fs.take(k - 1) =~= es.take(k - 1));
    lemma_sites_in_line(sites, moved);
    let upto = es.take(k);
    assert(upto.last() == e);
    assert(upto.drop_last() =~= es.take(k - 1));
    assert(in_line(upto)) by {
        assert forall|i: int, j: int| 0 <= i < j < upto.len() implies (#[trigger] upto[i]).end <= (
        #[trigger] upto[j]).start by {
            assert(upto[i] == es[i] && upto[j] == es[j]);
        }
    }
    assert(upto[0] == es[0]);
    assert(0 <= es[0].start);
    lemma_last_first(block, upto, 0);
}

/// The lists follow where those follow that one step left.
proof fn lemma_follow_on(
    sites: Seq<Site>,
    next: Seq<Site>,
    done: Seq<Site>,
    es: Seq<Edit>,
    fs: Seq<Edit>,
    k: int,
)
    requires
        0 < k <= sites.len(),
        es.len() == sites.len(),
        fs.len() == sites.len(),
        es[k - 1].start == sites[k - 1].start,
        es[k - 1].end == sites[k - 1].end,
        stepped(sites, next, es[k - 1], k),
        follow(next, done, fs, k - 1),
        fs.take(k - 1) == es.take(k - 1),
    ensures
        follow(sites, done, es, k),
{
    lemma_lengthened_last(es, 0, k);
    assert forall|i: int| 0 <= i < k - 1 implies #[trigger] fs[i] == es[i] by {
        assert(fs.take(k - 1)[i] == es.take(k - 1)[i]);
    }
    assert forall|i: int| 0 <= i < sites.len() implies {
        &&& (#[trigger] done[i]).tag == sites[i].tag
        &&& turned(done[i]) == turned(sites[i])
        &&& done[i].start == sites[i].start + lengthened(
            es,
            0,
            if i < k {
                i
            } else {
                k
            },
        )
        &&& done[i].end - done[i].start == if i < k {
            es[i].text.len() as int
        } else {
            sites[i].end - sites[i].start
        }
    } by {
        assert(next[i].tag == sites[i].tag);
        if i < k - 1 {
            assert(fs[i] == es[i]);
            lemma_lengthened_same(fs, es, 0, i);
        } else {
            lemma_lengthened_same(fs, es, 0, k - 1);
        }
    }
}

/// Where the coordinate lists stand once the first `k` got new numbers.
proof fn lemma_moved_sites(
    block: Seq<u8>,
    kind: RegionKind,
    was: Seq<FixedCoord>,
    moved: Seq<FixedCoord>,
    k: int,
)
    requires
        item_sites(block, kind) is Ok,
        written_with(block, item_sites(block, kind)->Ok_0, was, k),
        0 <= k <= was.len(),
        moved.len() == was.len(),
        all_numbers(was),
        all_numbers(moved),
    ensures
        ({
            let sites = item_sites(block, kind)->Ok_0;
            let es = site_edits(sites, moved);
            let t = rewritten(block, es.take(k), 0);
            &&& item_sites(t, kind) is Ok
            &&& follow(sites, item_sites(t, kind)->Ok_0, es, k)
        }),
    decreases k,
{
    let sites = item_sites(block, kind)->Ok_0;
    let es = site_edits(sites, moved);
    if k == 0 {
        assert(es.take(0) =~= Seq::<Edit>::empty());
        assert(block.subrange(0, block.len() as int) =~= block);
        assert(lengthened(es, 0, 0) == 0);
    } else {
        let e = es[k - 1];
        let t = spliced(block, e.start, e.end, e.text);
        lemma_step(block, kind, was, moved, k);
        lemma_moved_sites(t, kind, was, moved, k - 1);
        let next = item_sites(t, kind)->Ok_0;
        let done = item_sites(rewritten(block, es.take(k), 0), kind)->Ok_0;
        lemma_follow_on(sites, next, done, es, site_edits(next, moved), k);
    }
}

/// The edits of lists that stand one behind the other are in line.
proof fn lemma_sites_in_line(sites: Seq<Site>, moved: Seq<FixedCoord>)
    requires
        forall|i: int| 0 <= i < sites.len() ==> 0 <= (#[trigger] sites[i]).start < sites[i].end,
        forall|i: int, j: int|
            0 <= i < j < sites.len() ==> (#[trigger] sites[i]).end <= (#[trigger] sites[j]).start,
    ensures
        in_line(site_edits(sites, moved)),
{
    let es = site_edits(sites, moved);
    assert forall|i: int| 0 <= i < es.len() implies 0 <= (#[trigger] es[i]).start <= es[i].end by {
        assert(0 <= sites[i].start < sites[i].end);
    }
    assert forall|i: int, j: int| 0 <= i < j < es.len() implies (#[trigger] es[i]).end <= (
    #[trigger] es[j]).start by {
        assert(sites[i].end <= sites[j].start);
    }
}

/// An item that is moved and moved back, with the numbers it had, is the item
/// it was, byte for byte.
pub proof fn law_item_moves_back(
    block: Seq<u8>,
    kind: RegionKind,
    was: Seq<FixedCoord>,
    moved: Seq<FixedCoord>,
)
    requires
        item_sites(block, kind) matches Ok(sites) && written_with(
            block,
            sites,
            was,
            sites.len() as int,
        ),
        moved.len() == was.len(),
        all_numbers(was),
        all_numbers(moved),
    ensures
        item_moved(block, kind, moved) matches Ok(text) && {
            &&& item_moved(text, kind, was) == Ok::<Seq<u8>, Seq<char>>(block)
            &&& item_sites(text, kind) matches Ok(sites) && sites.len() == was.len()
        },
{
    let sites = item_sites(block, kind)->Ok_0;
    let n = sites.len() as int;
    let es = site_edits(sites, moved);
    lemma_item_sites_good(block, kind);
    assert forall|i: int| 0 <= i < sites.len() implies 0 <= (#[trigger] sites[i]).start
        < sites[i].end <= block.len() by {
        assert(site_good(block, sites[i]));
        lemma_block_end(block, sites[i].start);
    }
    lemma_sites_in_line(sites, moved);
    lemma_in_line_ordered(es);
    lemma_moved_sites(block, kind, was, moved, n);
    assert(es.take(n) =~= es);
    let text = rewritten(block, es, 0);
    let now = item_sites(text, kind)->Ok_0;
    let fs = site_edits(now, was);
    assert forall|j: int| 0 <= j < es.len() implies {
        &&& (#[trigger] fs[j]).start == es[j].start + lengthened(es, 0, j)
        &&& fs[j].end == fs[j].start + es[j].text.len()
        &&& fs[j].text == block.subrange(es[j].start, es[j].end)
    } by {
        assert(now[j].tag == sites[j].tag);
        assert(block.subrange(sites[j].start, sites[j].end) == fixed_list(
            sites[j].tag,
            was[j],
            turned(sites[j]),
        ));
    }
    lemma_undoes_in_line(block, es, fs);
    lemma_in_line_ordered(fs);
    assert forall|j: int| 0 <= j < es.len() implies (#[trigger] es[j]).end <= block.len() by {
        assert(sites[j].end <= block.len());
    }
    if n > 0 {
        assert(0 <= es[0].start);
    }
    lemma_undone(block, es, fs, 0, 0, Seq::empty());
    assert(es.skip(0) =~= es);
    assert(fs.skip(0) =~= fs);
    assert(Seq::<u8>::empty() + text =~= text);
    assert(block.subrange(0, block.len() as int) =~= block);
}

// ── Blocks that are exchanged, and where they stand ──────────────────────────

/// A block stands behind the first `m` edits and before the others.
spec fn stands_after(es: Seq<Edit>, b: (int, int), m: int) -> bool {
    &&& 0 <= m <= es.len()
    &&& forall|i: int| 0 <= i < m ==> (#[trigger] es[i]).end <= b.0
    &&& forall|i: int| m <= i < es.len() ==> b.1 <= (#[trigger] es[i]).start
}

/// Where the blocks directly inside a list stand once some were exchanged.
proof fn lemma_kids_stand(s: Seq<u8>, tag: Seq<u8>, es: Seq<Edit>)
    requires
        lined_up(es),
        forall|i: int| 0 <= i < es.len() ==> exchanges_kid(s, tag, #[trigger] es[i]),
        forall|i: int|
            0 <= i < es.len() ==> block_end((#[trigger] es[i]).text, 0) == Some(
                es[i].text.len() as int,
            ),
        forall|i: int| 0 <= i < tag.len() ==> #[trigger] tag[i] != 0x28,
    ensures
        direct_children(rewritten(s, es, 0), tag).len() == direct_children(s, tag).len(),
        forall|j: int, m: int|
            0 <= j < direct_children(s, tag).len() && #[trigger] stands_after(
                es,
                direct_children(s, tag)[j],
                m,
            ) ==> direct_children(rewritten(s, es, 0), tag)[j] == shifted(
                direct_children(s, tag)[j],
                lengthened(es, 0, m),
            ),
        forall|i: int, j: int|
            0 <= i < es.len() && 0 <= j < direct_children(s, tag).len() && (#[trigger] es[i]).start
                == (#[trigger] direct_children(s, tag)[j]).0 ==> direct_children(
                rewritten(s, es, 0),
                tag,
            )[j] == (
                es[i].start + lengthened(es, 0, i),
                es[i].start + lengthened(es, 0, i) + es[i].text.len(),
            ),
    decreases es.len(),
{
    let all = direct_children(s, tag);
    lemma_direct_children(s, tag);
    lemma_direct_children_apart(s, tag);
    let out = rewritten(s, es, 0);
    if es.len() == 0 {
        assert(s.subrange(0, s.len() as int) =~= s);
        assert(lengthened(es, 0, 0) == 0);
    } else {
        let n = es.len() as int;
        let l = es[n - 1];
        let rest = es.drop_last();
        let by = l.text.len() - (l.end - l.start);
        let t = spliced(s, l.start, l.end, l.text);
        let k = lemma_kid_index(s, tag, l);
        let k0 = lemma_kid_index(s, tag, es[0]);
        lemma_block_end(s, all[k0].0);
        lemma_block_end(s, all[k].0);
        lemma_block_end(l.text, 0);
        lemma_last_first(s, es, 0);
        lemma_blocks_exchanged(s, tag, k, l.text);
        let now = direct_children(t, tag);
        lemma_kids_left(s, tag, es, k);
        lemma_kids_stand(t, tag, rest);
        lemma_lengthened_last(es, 0, n);
        lemma_lengthened_same(rest, es, 0, n - 1);
        assert forall|j: int, m: int|
            0 <= j < all.len() && #[trigger] stands_after(es, all[j], m) implies direct_children(
            out,
            tag,
        )[j] == shifted(all[j], lengthened(es, 0, m)) by {
            lemma_block_end(s, all[j].0);
            if m == n {
                assert(es[n - 1].end <= all[j].0);
                if j < k {
                    assert(all[j].1 <= all[k].0);
                }
                assert(now[j] == shifted(all[j], by));
                assert forall|i: int| 0 <= i < n - 1 implies (#[trigger] rest[i]).end <= now[j].0 by {
                    assert(rest[i] == es[i]);
                    assert(es[i].end <= es[n - 1].start);
                }
                assert(stands_after(rest, now[j], n - 1));
            } else {
                assert(all[j].1 <= es[n - 1].start);
                if j > k {
                    assert(all[k].1 <= all[j].0);
                }
                assert(now[j] == all[j]);
                assert forall|i: int| 0 <= i < m implies (#[trigger] rest[i]).end <= now[j].0 by {
                    assert(rest[i] == es[i]);
                }
                assert forall|i: int| m <= i < rest.len() implies now[j].1 <= (
                #[trigger] rest[i]).start by {
                    assert(rest[i] == es[i]);
                }
                assert(stands_after(rest, now[j], m));
                lemma_lengthened_same(rest, es, 0, m);
            }
        }
        assert forall|i: int, j: int|
            0 <= i < n && 0 <= j < all.len() && (#[trigger] es[i]).start == (
            #[trigger] all[j]).0 implies direct_children(out, tag)[j] == (
            es[i].start + lengthened(es, 0, i),
            es[i].start + lengthened(es, 0, i) + es[i].text.len(),
        ) by {
            lemma_block_end(s, all[j].0);
            if i == n - 1 {
                if j < k {
                    assert(all[j].1 <= all[k].0);
                } else if j > k {
                    assert(all[k].1 <= all[j].0);
                }
                assert(j == k);
                assert forall|x: int| 0 <= x < n - 1 implies (#[trigger] rest[x]).end <= now[k].0 by {
                    assert(rest[x] == es[x]);
                    assert(es[x].end <= es[n - 1].start);
                }
                assert(stands_after(rest, now[k], n - 1));
            } else {
                assert(es[i].end <= es[n - 1].start);
                assert(es[i].start < es[i].end);
                if j > k {
                    assert(all[k].1 <= all[j].0);
                }
                assert(j < k);
                assert(now[j] == all[j]);
                assert(rest[i] == es[i]);
                lemma_lengthened_same(rest, es, 0, i);
            }
        }
    }
}

/// The block that an edit is about.
proof fn lemma_kid_index(s: Seq<u8>, tag: Seq<u8>, e: Edit) -> (k: int)
    requires
        exchanges_kid(s, tag, e),
    ensures
        0 <= k < direct_children(s, tag).len(),
        direct_children(s, tag)[k] == (e.start, e.end),
{
    choose|k: int|
        0 <= k < direct_children(s, tag).len() && #[trigger] direct_children(s, tag)[k] == (
            e.start,
            e.end,
        )
}

/// Once the last block is exchanged, the other edits are left to make.
proof fn lemma_kids_left(s: Seq<u8>, tag: Seq<u8>, es: Seq<Edit>, k: int)
    requires
        lined_up(es),
        es.len() > 0,
        forall|i: int| 0 <= i < es.len() ==> exchanges_kid(s, tag, #[trigger] es[i]),
        forall|i: int|
            0 <= i < es.len() ==> block_end((#[trigger] es[i]).text, 0) == Some(
                es[i].text.len() as int,
            ),
        forall|i: int| 0 <= i < tag.len() ==> #[trigger] tag[i] != 0x28,
        0 <= k < direct_children(s, tag).len(),
        direct_children(s, tag)[k] == (es.last().start, es.last().end),
    ensures
        ({
            let l = es.last();
            let t = spliced(s, l.start, l.end, l.text);
            &&& lined_up(es.drop_last())
            &&& forall|i: int|
                0 <= i < es.len() - 1 ==> exchanges_kid(t, tag, #[trigger] es.drop_last()[i])
                    && block_end(es.drop_last()[i].text, 0) == Some(
                    es.drop_last()[i].text.len() as int,
                )
        }),
{
    let all = direct_children(s, tag);
    let l = es.last();
    let n = es.len() - 1;
    let rest = es.drop_last();
    lemma_direct_children_apart(s, tag);
    assert(block_end(es[n].text, 0) == Some(es[n].text.len() as int));
    lemma_blocks_exchanged(s, tag, k, l.text);
    let now = direct_children(spliced(s, l.start, l.end, l.text), tag);
    assert forall|i: int, j: int| 0 <= i < j < rest.len() implies (#[trigger] rest[i]).end <= (
    #[trigger] rest[j]).start by {
        assert(rest[i] == es[i] && rest[j] == es[j]);
    }
    assert forall|i: int| 0 <= i < rest.len() implies exchanges_kid(
        spliced(s, l.start, l.end, l.text),
        tag,
        #[trigger] rest[i],
    ) && block_end(rest[i].text, 0) == Some(rest[i].text.len() as int) by {
        assert(rest[i] == es[i]);
        let m = lemma_kid_index(s, tag, es[i]);
        assert(es[i].end <= es[n].start);
        assert(es[i].start < es[i].end);
        if m > k {
            assert(all[k].1 <= all[m].0);
        }
        assert(now[m] == all[m]);
    }
}

// ── A region that is moved back ──────────────────────────────────────────────

/// An item that is moved is a block that reads as it did.
pub proof fn lemma_moved_block(block: Seq<u8>, b: (int, int), moved: Seq<FixedCoord>)
    requires
        block_end(block, 0) == Some(block.len() as int),
        parsed(block) is Some,
        item_of(parsed(block)->0, b) is Some,
        ({
            let kind = (item_of(parsed(block)->0, b)->0).kind;
            &&& item_moved(block, kind, moved) is Ok
            &&& item_sites(block, kind) matches Ok(sites) && sites.len() == moved.len()
        }),
        all_plain(moved),
    ensures
        ({
            let item = item_of(parsed(block)->0, b)->0;
            let text = item_moved(block, item.kind, moved)->Ok_0;
            &&& block_end(text, 0) == Some(text.len() as int)
            &&& parsed(text) is Some
            &&& forall|c: (int, int)| #[trigger] item_of(parsed(text)->0, c) is Some ==> (item_of(
                parsed(text)->0,
                c,
            )->0).kind == item.kind && (item_of(parsed(text)->0, c)->0).uuid == item.uuid
        }),
{
    let t = parsed(block)->0;
    let item = item_of(t, b)->0;
    let sites = item_sites(block, item.kind)->Ok_0;
    let es = site_edits(sites, moved);
    let text = item_moved(block, item.kind, moved)->Ok_0;
    lemma_item_sites_good(block, item.kind);
    assert forall|i: int| 0 <= i < es.len() implies exchanging(block, #[trigger] es[i]) by {
        assert(site_good(block, sites[i]));
        assert(written_plainly(moved[i]));
        lemma_site_exchanging(
            block,
            sites[i],
            utf8(moved[i].x@),
            utf8(moved[i].y@),
            if turned(sites[i]) {
                Some(utf8(moved[i].rotation@))
            } else {
                None
            },
        );
    }
    assert(block.subrange(0, block.len() as int) =~= block);
    lemma_block_node(block, 0, block.len() as int);
    lemma_edited_block(block, es);
    let u = (node_at(text, 0)->0).0;
    lemma_alike_list(t, u);
    lemma_list_block(text);
    lemma_list_bytes(text);
    assert(past_blanks(text, 0) == 0);
    assert(past_blanks(text, text.len() as int) == text.len());
    assert(parsed(text) == Some(u));
    lemma_kind_heads(head(t)->0);
    law_alike_same_text(t, u, utf8("uuid"@));
    law_alike_same_text(t, u, utf8("lib_id"@));
}

/// What an item is headed by is no coordinate list's head.
proof fn lemma_kind_heads(tag: Seq<u8>)
    requires
        kind_headed(tag) is Some,
    ensures
        !coord_head(tag),
        !coord_head(utf8("uuid"@)),
        !coord_head(utf8("lib_id"@)),
{
    reveal_strlit("at");
    reveal_strlit("start");
    reveal_strlit("end");
    reveal_strlit("xy");
    reveal_strlit("wire");
    reveal_strlit("label");
    reveal_strlit("global_label");
    reveal_strlit("hierarchical_label");
    reveal_strlit("junction");
    reveal_strlit("no_connect");
    reveal_strlit("rectangle");
    reveal_strlit("text");
    reveal_strlit("text_box");
    reveal_strlit("symbol");
    reveal_strlit("uuid");
    reveal_strlit("lib_id");
    vstd::utf8::is_ascii_chars_encode_utf8("at"@);
    vstd::utf8::is_ascii_chars_encode_utf8("start"@);
    vstd::utf8::is_ascii_chars_encode_utf8("end"@);
    vstd::utf8::is_ascii_chars_encode_utf8("xy"@);
    vstd::utf8::is_ascii_chars_encode_utf8("wire"@);
    vstd::utf8::is_ascii_chars_encode_utf8("label"@);
    vstd::utf8::is_ascii_chars_encode_utf8("global_label"@);
    vstd::utf8::is_ascii_chars_encode_utf8("hierarchical_label"@);
    vstd::utf8::is_ascii_chars_encode_utf8("junction"@);
    vstd::utf8::is_ascii_chars_encode_utf8("no_connect"@);
    vstd::utf8::is_ascii_chars_encode_utf8("rectangle"@);
    vstd::utf8::is_ascii_chars_encode_utf8("text"@);
    vstd::utf8::is_ascii_chars_encode_utf8("text_box"@);
    vstd::utf8::is_ascii_chars_encode_utf8("symbol"@);
    vstd::utf8::is_ascii_chars_encode_utf8("uuid"@);
    vstd::utf8::is_ascii_chars_encode_utf8("lib_id"@);
}

/// An item of one sheet and one of another stand in blocks of the same index.
spec fn same_place(
    item: Item,
    other: Item,
    s: Seq<u8>,
    old: Seq<(int, int)>,
    t: Seq<u8>,
    now: Seq<(int, int)>,
    j: int,
) -> bool {
    &&& 0 <= j < old.len()
    &&& item_at(s, old[j]) == Some(item)
    &&& item_at(t, now[j]) == Some(other)
}

/// Two items stand in blocks of the same index.
spec fn matched(
    item: Item,
    other: Item,
    s: Seq<u8>,
    old: Seq<(int, int)>,
    t: Seq<u8>,
    now: Seq<(int, int)>,
) -> bool {
    exists|j: int| #[trigger] same_place(item, other, s, old, t, now, j)
}

proof fn lemma_no_more_items(
    s: Seq<u8>,
    old: Seq<(int, int)>,
    t: Seq<u8>,
    now: Seq<(int, int)>,
    n: int,
)
    requires
        0 <= n <= old.len(),
        old.len() == now.len(),
        forall|j: int|
            0 <= j < old.len() && #[trigger] item_at(t, now[j]) is Some ==> item_at(
                s,
                old[j],
            ) is Some,
    ensures
        items_below(t, now, n).len() <= items_below(s, old, n).len(),
    decreases n,
{
    if n > 0 {
        lemma_no_more_items(s, old, t, now, n - 1);
        assert(item_at(t, now[n - 1]) is Some ==> item_at(s, old[n - 1]) is Some);
    }
}

/// Two sheets with as many items, whose blocks stand one for one: the items do
/// too.
proof fn lemma_items_match(
    s: Seq<u8>,
    old: Seq<(int, int)>,
    t: Seq<u8>,
    now: Seq<(int, int)>,
    n: int,
)
    requires
        0 <= n <= old.len(),
        old.len() == now.len(),
        forall|j: int|
            0 <= j < old.len() && #[trigger] item_at(t, now[j]) is Some ==> item_at(
                s,
                old[j],
            ) is Some,
        items_below(t, now, n).len() == items_below(s, old, n).len(),
    ensures
        forall|i: int|
            0 <= i < items_below(s, old, n).len() ==> #[trigger] matched(
                items_below(s, old, n)[i],
                items_below(t, now, n)[i],
                s,
                old,
                t,
                now,
            ),
    decreases n,
{
    if n > 0 {
        lemma_no_more_items(s, old, t, now, n - 1);
        assert(item_at(t, now[n - 1]) is Some ==> item_at(s, old[n - 1]) is Some);
        lemma_items_match(s, old, t, now, n - 1);
        let a = items_below(s, old, n);
        let b = items_below(t, now, n);
        assert forall|i: int| 0 <= i < a.len() implies #[trigger] matched(
            a[i],
            b[i],
            s,
            old,
            t,
            now,
        ) by {
            if i < items_below(s, old, n - 1).len() {
                let x = items_below(s, old, n - 1)[i];
                let y = items_below(t, now, n - 1)[i];
                assert(a[i] == x && b[i] == y);
                assert(matched(x, y, s, old, t, now));
                let j = choose|j: int| #[trigger] same_place(x, y, s, old, t, now, j);
                assert(same_place(a[i], b[i], s, old, t, now, j));
            } else {
                assert(same_place(a[i], b[i], s, old, t, now, n - 1));
            }
        }
    }
}

/// The second move takes back the items that the first one moves, with the
/// numbers they had: the coordinate lists of each stand one behind the other,
/// as they are written with those numbers.
pub open spec fn moves_back(
    s: Seq<u8>,
    area: Box2,
    readings: Seq<Reading>,
    there: Box2,
    back: Seq<Reading>,
) -> bool {
    &&& back.len() == readings.len()
    &&& forall|i: int|
        0 <= i < readings.len() ==> taken_back(
            s,
            #[trigger] items(s)[i],
            area,
            readings[i],
            there,
            back[i],
        )
}

/// An item moves back exactly where it moved, with the numbers it had.
pub open spec fn taken_back(
    s: Seq<u8>,
    item: Item,
    area: Box2,
    reading: Reading,
    there: Box2,
    back: Reading,
) -> bool {
    let block = s.subrange(item.span.0, item.span.1);
    &&& decision(there, item.kind, back) is Move <==> decision(area, item.kind, reading) is Move
    &&& decision(area, item.kind, reading) is Move ==> {
        &&& all_numbers(reading.moved@)
        &&& all_numbers(back.moved@)
        &&& item_sites(block, item.kind) matches Ok(sites) ==> written_with(
            block,
            sites,
            back.moved@,
            sites.len() as int,
        )
    }
}

/// The edits of a move of the first `n` items, and those of the first of them.
proof fn lemma_moving_begins(
    s: Seq<u8>,
    area: Box2,
    all: Seq<Item>,
    readings: Seq<Reading>,
    k: int,
    n: int,
)
    requires
        0 <= k <= n,
        moving(s, area, all, readings, n) is Ok,
    ensures
        moving(s, area, all, readings, k) is Ok,
        (moving(s, area, all, readings, k)->Ok_0).edits.len() <= (moving(
            s,
            area,
            all,
            readings,
            n,
        )->Ok_0).edits.len(),
        forall|i: int|
            0 <= i < (moving(s, area, all, readings, k)->Ok_0).edits.len() ==> (moving(
                s,
                area,
                all,
                readings,
                n,
            )->Ok_0).edits[i] == #[trigger] (moving(s, area, all, readings, k)->Ok_0).edits[i],
    decreases n - k,
{
    if k < n {
        lemma_moving_begins(s, area, all, readings, k, n - 1);
    }
}

/// What an edit of a move is: it is over an item that moves.
pub open spec fn moves_item(
    s: Seq<u8>,
    area: Box2,
    all: Seq<Item>,
    readings: Seq<Reading>,
    e: Edit,
    i: int,
) -> bool {
    &&& 0 <= i < all.len()
    &&& all[i].span == (e.start, e.end)
    &&& decision(area, all[i].kind, readings[i]) is Move
    &&& item_moved(s.subrange(e.start, e.end), all[i].kind, readings[i].moved@) == Ok::<
        Seq<u8>,
        Seq<char>,
    >(e.text)
}

pub open spec fn moves_some(
    s: Seq<u8>,
    area: Box2,
    all: Seq<Item>,
    readings: Seq<Reading>,
    e: Edit,
    n: int,
) -> bool {
    exists|i: int| i < n && #[trigger] moves_item(s, area, all, readings, e, i)
}

pub proof fn lemma_moving_edits(s: Seq<u8>, area: Box2, all: Seq<Item>, readings: Seq<Reading>, n: int)
    requires
        0 <= n <= all.len(),
        moving(s, area, all, readings, n) is Ok,
        forall|j: int, k: int|
            0 <= j < k < all.len() ==> (#[trigger] all[j]).span.1 <= (#[trigger] all[k]).span.0,
        forall|j: int| 0 <= j < all.len() ==> (#[trigger] all[j]).span.0 < all[j].span.1,
    ensures
        lined_up((moving(s, area, all, readings, n)->Ok_0).edits),
        forall|k: int|
            0 <= k < (moving(s, area, all, readings, n)->Ok_0).edits.len() ==> moves_some(
                s,
                area,
                all,
                readings,
                #[trigger] (moving(s, area, all, readings, n)->Ok_0).edits[k],
                n,
            ),
    decreases n,
{
    if n > 0 {
        lemma_moving_edits(s, area, all, readings, n - 1);
        let before = (moving(s, area, all, readings, n - 1)->Ok_0).edits;
        let now = (moving(s, area, all, readings, n)->Ok_0).edits;
        assert forall|k: int| 0 <= k < now.len() implies moves_some(
            s,
            area,
            all,
            readings,
            #[trigger] now[k],
            n,
        ) by {
            if k < before.len() {
                assert(now[k] == before[k]);
                assert(moves_some(s, area, all, readings, before[k], n - 1));
                let i = choose|i: int|
                    i < n - 1 && #[trigger] moves_item(s, area, all, readings, before[k], i);
                assert(moves_item(s, area, all, readings, now[k], i));
            } else {
                assert(moves_item(s, area, all, readings, now[k], n - 1));
            }
        }
        assert forall|k: int| 0 <= k < now.len() implies (#[trigger] now[k]).start < now[k].end by {
            let i = choose|i: int|
                i < n && #[trigger] moves_item(s, area, all, readings, now[k], i);
            assert(all[i].span.0 < all[i].span.1);
        }
        assert forall|j: int, k: int| 0 <= j < k < now.len() implies (#[trigger] now[j]).end <= (
        #[trigger] now[k]).start by {
            assert(now[j] == before[j]);
            if k < before.len() {
                assert(now[k] == before[k]);
            } else {
                assert(moves_some(s, area, all, readings, before[j], n - 1));
                let i = choose|i: int|
                    i < n - 1 && #[trigger] moves_item(s, area, all, readings, before[j], i);
                assert(all[i].span.1 <= all[n - 1].span.0);
            }
        }
    }
}

/// What a move does to the blocks of a sheet.
proof fn lemma_region_blocks(
    s: Seq<u8>,
    area: Box2,
    readings: Seq<Reading>,
    there: Box2,
    back: Seq<Reading>,
)
    requires
        all_read(s, readings),
        moving(s, area, items(s), readings, readings.len() as int) is Ok,
        moves_back(s, area, readings, there, back),
    ensures
        ({
            let es = (moving(s, area, items(s), readings, readings.len() as int)->Ok_0).edits;
            let tag = utf8("kicad_sch"@);
            &&& lined_up(es)
            &&& edited(s, es) == rewritten(s, es, 0)
            &&& in_line(es)
            &&& forall|i: int|
                0 <= i < tag.len() ==> #[trigger] tag[i] != 0x28
            &&& forall|k: int|
                0 <= k < es.len() ==> {
                    &&& exchanges_kid(s, tag, #[trigger] es[k])
                    &&& block_end(es[k].text, 0) == Some(es[k].text.len() as int)
                    &&& es[k].end <= s.len()
                    &&& moves_some(s, area, items(s), readings, es[k], readings.len() as int)
                }
        }),
{
    let tag = utf8("kicad_sch"@);
    let all = items(s);
    let n = readings.len() as int;
    let es = (moving(s, area, all, readings, n)->Ok_0).edits;
    let kids = direct_children(s, tag);
    lemma_items(s);
    lemma_direct_children(s, tag);
    lemma_direct_children_apart(s, tag);
    lemma_items_below(s, kids, kids.len() as int);
    assert forall|j: int| 0 <= j < all.len() implies (#[trigger] all[j]).span.0 < all[j].span.1 by {
        lemma_block_end(s, all[j].span.0);
    }
    lemma_moving_edits(s, area, all, readings, n);
    reveal_strlit("kicad_sch");
    vstd::utf8::is_ascii_chars_encode_utf8("kicad_sch"@);
    assert forall|k: int| 0 <= k < es.len() implies {
        &&& exchanges_kid(s, tag, #[trigger] es[k])
        &&& block_end(es[k].text, 0) == Some(es[k].text.len() as int)
        &&& es[k].end <= s.len()
        &&& 0 <= es[k].start
        &&& moves_some(s, area, all, readings, es[k], n)
    } by {
        assert(moves_some(s, area, all, readings, es[k], n));
        let i = choose|i: int| i < n && #[trigger] moves_item(s, area, all, readings, es[k], i);
        let item = items_below(s, kids, kids.len() as int)[i];
        assert(item == all[i]);
        let m = choose|m: int| 0 <= m < kids.len() && #[trigger] kids[m] == item.span;
        assert(kids[m] == (es[k].start, es[k].end));
        let block = s.subrange(es[k].start, es[k].end);
        lemma_block_end(s, es[k].start);
        lemma_block_of_itself(s, es[k].start, es[k].end);
        assert(item_at(s, item.span) == Some(item));
        assert(taken_back(s, all[i], area, readings[i], there, back[i]));
        assert(reads(readings[i], all[i], block));
        assert(all_plain(readings[i].moved@));
        lemma_moved_block(block, item.span, readings[i].moved@);
    }
    assert forall|i: int| 0 <= i < es.len() implies 0 <= (#[trigger] es[i]).start <= es[i].end by {
        assert(exchanges_kid(s, tag, es[i]));
    }
    lemma_in_line_ordered(es);
}

/// The blocks of the moved sheet hold no item where there was none.
proof fn lemma_region_kids(
    s: Seq<u8>,
    area: Box2,
    readings: Seq<Reading>,
    there: Box2,
    back: Seq<Reading>,
    j: int,
)
    requires
        all_read(s, readings),
        moving(s, area, items(s), readings, readings.len() as int) is Ok,
        moves_back(s, area, readings, there, back),
        0 <= j < direct_children(s, utf8("kicad_sch"@)).len(),
    ensures
        ({
            let es = (moving(s, area, items(s), readings, readings.len() as int)->Ok_0).edits;
            let t = edited(s, es);
            let b = direct_children(s, utf8("kicad_sch"@))[j];
            let c = direct_children(t, utf8("kicad_sch"@))[j];
            &&& direct_children(t, utf8("kicad_sch"@)).len() == direct_children(
                s,
                utf8("kicad_sch"@),
            ).len()
            &&& item_at(t, c) matches Some(other) ==> (item_at(s, b) matches Some(item) && item.kind
                == other.kind && item.uuid == other.uuid && other.span == c && item.span == b)
            &&& forall|k: int|
                0 <= k < es.len() && (#[trigger] es[k]).start == b.0 ==> {
                    &&& t.subrange(c.0, c.1) == es[k].text
                    &&& c == (
                        es[k].start + lengthened(es, 0, k),
                        es[k].start + lengthened(es, 0, k) + es[k].text.len(),
                    )
                }
        }),
{
    let tag = utf8("kicad_sch"@);
    let all = items(s);
    let n = readings.len() as int;
    let es = (moving(s, area, all, readings, n)->Ok_0).edits;
    let t = edited(s, es);
    let kids = direct_children(s, tag);
    let b = kids[j];
    let c = direct_children(t, tag)[j];
    lemma_region_blocks(s, area, readings, there, back);
    lemma_kids(s, tag, es);
    lemma_kids_stand(s, tag, es);
    lemma_direct_children(s, tag);
    assert(block_end(s, kids[j].0) == Some(kids[j].1));
    assert forall|k: int| 0 <= k < es.len() && (#[trigger] es[k]).start == b.0 implies {
        &&& t.subrange(c.0, c.1) == es[k].text
        &&& c == (
            es[k].start + lengthened(es, 0, k),
            es[k].start + lengthened(es, 0, k) + es[k].text.len(),
        )
    } by {
        assert(kid(t, tag, j) == block_of(es[k].text));
        assert(block_of(es[k].text) =~= es[k].text);
        assert(kids[j].0 == b.0);
    }
    if exists|k: int| 0 <= k < es.len() && (#[trigger] es[k]).start == b.0 {
        let k = choose|k: int| 0 <= k < es.len() && (#[trigger] es[k]).start == b.0;
        assert(moves_some(s, area, all, readings, es[k], n));
        let i = choose|i: int| i < n && #[trigger] moves_item(s, area, all, readings, es[k], i);
        lemma_items(s);
        assert(item_at(s, all[i].span) == Some(all[i]));
        assert(block_end(s, all[i].span.0) == Some(all[i].span.1));
        let block = s.subrange(es[k].start, es[k].end);
        lemma_block_end(s, es[k].start);
        lemma_block_of_itself(s, es[k].start, es[k].end);
        assert(taken_back(s, all[i], area, readings[i], there, back[i]));
        assert(reads(readings[i], all[i], block));
        assert(all_plain(readings[i].moved@));
        lemma_moved_block(block, all[i].span, readings[i].moved@);
        assert(t.subrange(c.0, c.1) == es[k].text);
    } else {
        assert(forall|k: int| 0 <= k < es.len() ==> (#[trigger] es[k]).start != kids[j].0);
        assert(kid(t, tag, j) == kid(s, tag, j));
    }
}

/// The items of the moved sheet are those of the sheet, one for one.
proof fn lemma_region_item(
    s: Seq<u8>,
    area: Box2,
    readings: Seq<Reading>,
    there: Box2,
    back: Seq<Reading>,
    i: int,
)
    requires
        all_read(s, readings),
        moving(s, area, items(s), readings, readings.len() as int) is Ok,
        moves_back(s, area, readings, there, back),
        ({
            let es = (moving(s, area, items(s), readings, readings.len() as int)->Ok_0).edits;
            items(edited(s, es)).len() == items(s).len()
        }),
        0 <= i < readings.len(),
    ensures
        ({
            let es = (moving(s, area, items(s), readings, readings.len() as int)->Ok_0).edits;
            let t = edited(s, es);
            let item = items(s)[i];
            let other = items(t)[i];
            &&& item.kind == other.kind
            &&& item.uuid == other.uuid
            &&& forall|k: int|
                0 <= k < es.len() && (#[trigger] es[k]).start == item.span.0 ==> {
                    &&& t.subrange(other.span.0, other.span.1) == es[k].text
                    &&& other.span == (
                        es[k].start + lengthened(es, 0, k),
                        es[k].start + lengthened(es, 0, k) + es[k].text.len(),
                    )
                }
        }),
{
    let tag = utf8("kicad_sch"@);
    let es = (moving(s, area, items(s), readings, readings.len() as int)->Ok_0).edits;
    let t = edited(s, es);
    let old = direct_children(s, tag);
    let now = direct_children(t, tag);
    if old.len() > 0 {
        lemma_region_kids(s, area, readings, there, back, 0);
    } else {
        assert(items(s).len() == 0);
    }
    assert forall|j: int| 0 <= j < old.len() && #[trigger] item_at(t, now[j]) is Some implies item_at(
        s,
        old[j],
    ) is Some by {
        lemma_region_kids(s, area, readings, there, back, j);
    }
    lemma_items_match(s, old, t, now, old.len() as int);
    let item = items_below(s, old, old.len() as int)[i];
    let other = items_below(t, now, old.len() as int)[i];
    assert(matched(item, other, s, old, t, now));
    let j = choose|j: int| #[trigger] same_place(item, other, s, old, t, now, j);
    lemma_region_kids(s, area, readings, there, back, j);
}

/// The first `i` items, moved back.
proof fn lemma_moving_back(
    s: Seq<u8>,
    area: Box2,
    readings: Seq<Reading>,
    there: Box2,
    back: Seq<Reading>,
    i: int,
)
    requires
        all_read(s, readings),
        moving(s, area, items(s), readings, readings.len() as int) is Ok,
        moves_back(s, area, readings, there, back),
        ({
            let es = (moving(s, area, items(s), readings, readings.len() as int)->Ok_0).edits;
            items(edited(s, es)).len() == items(s).len()
        }),
        0 <= i <= readings.len(),
    ensures
        ({
            let es = (moving(s, area, items(s), readings, readings.len() as int)->Ok_0).edits;
            let t = edited(s, es);
            let some = moving(s, area, items(s), readings, i);
            let undo = moving(t, there, items(t), back, i);
            &&& some is Ok
            &&& undo is Ok
            &&& undo->Ok_0.moved == some->Ok_0.moved
            &&& undo->Ok_0.edits.len() == some->Ok_0.edits.len() <= es.len()
            &&& forall|k: int|
                0 <= k < undo->Ok_0.edits.len() ==> (#[trigger] undo->Ok_0.edits[k]) == (Edit {
                    start: es[k].start + lengthened(es, 0, k),
                    end: es[k].start + lengthened(es, 0, k) + es[k].text.len(),
                    text: s.subrange(es[k].start, es[k].end),
                })
        }),
    decreases i,
{
    let all = items(s);
    let n = readings.len() as int;
    let es = (moving(s, area, all, readings, n)->Ok_0).edits;
    let t = edited(s, es);
    lemma_moving_begins(s, area, all, readings, i, n);
    if i > 0 {
        lemma_moving_back(s, area, readings, there, back, i - 1);
        lemma_moving_begins(s, area, all, readings, i - 1, n);
        let item = all[i - 1];
        let other = items(t)[i - 1];
        let reading = readings[i - 1];
        lemma_region_item(s, area, readings, there, back, i - 1);
        assert(taken_back(s, item, area, reading, there, back[i - 1]));
        assert(decision(there, other.kind, back[i - 1]) is Move <==> decision(
            area,
            item.kind,
            reading,
        ) is Move);
        if decision(area, item.kind, reading) is Move {
            let some = moving(s, area, all, readings, i)->Ok_0;
            let k = some.edits.len() - 1;
            let e = some.edits[k];
            let block = s.subrange(item.span.0, item.span.1);
            assert(es[k] == e);
            assert(e.start == item.span.0 && e.end == item.span.1);
            assert(reads(reading, item, block));
            law_item_moves_back(block, item.kind, back[i - 1].moved@, reading.moved@);
            assert(t.subrange(other.span.0, other.span.1) == e.text);
        }
    }
}

/// Moving a region and moving it back, with the numbers its items had,
/// restores the sheet byte for byte, and moves the same items.
#[verifier::rlimit(40)]
pub proof fn law_region_moves_back(
    s: Seq<u8>,
    area: Box2,
    readings: Seq<Reading>,
    there: Box2,
    back: Seq<Reading>,
)
    requires
        all_read(s, readings),
        moving(s, area, items(s), readings, readings.len() as int) is Ok,
        moves_back(s, area, readings, there, back),
        ({
            let m = moving(s, area, items(s), readings, readings.len() as int)->Ok_0;
            all_read(edited(s, m.edits), back)
        }),
    ensures
        ({
            let m = moving(s, area, items(s), readings, readings.len() as int)->Ok_0;
            let t = edited(s, m.edits);
            moving(t, there, items(t), back, back.len() as int) matches Ok(u) && {
                &&& edited(t, u.edits) == s
                &&& u.moved == m.moved
            }
        }),
{
    let n = readings.len() as int;
    let es = (moving(s, area, items(s), readings, n)->Ok_0).edits;
    let t = edited(s, es);
    lemma_region_blocks(s, area, readings, there, back);
    lemma_moving_back(s, area, readings, there, back, n);
    let fs = (moving(t, there, items(t), back, n)->Ok_0).edits;
    assert(undoes(s, es, fs, 0, 0));
    lemma_undoes_in_line(s, es, fs);
    lemma_in_line_ordered(fs);
    if es.len() > 0 {
        assert(0 <= es[0].start);
    }
    lemma_undone(s, es, fs, 0, 0, Seq::empty());
    assert(es.skip(0) =~= es);
    assert(fs.skip(0) =~= fs);
    assert(Seq::<u8>::empty() + t =~= t);
    assert(s.subrange(0, s.len() as int) =~= s);
}

} // verus!
