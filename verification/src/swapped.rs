//! What replacing a component does to its block.

use vstd::prelude::*;
use crate::carried::{
    absent, clear_of, differs_at, lemma_absent_free, lemma_all_beside, lemma_one_beside,
    lemma_one_unit, lemma_still_sound, lemma_unit_end, lemma_unit_lex, sound, swappable, unit_text,
    units_apart,
};
use crate::edit::{
    in_line, lemma_in_line_ordered, lemma_last_first, lemma_rewritten_from, lemma_widened,
    rewritten, widens, Edit,
};
use crate::graft::{
    behind_close, clean, closed_starts, closed_to, free, graftable, inside, leads,
    lemma_graft_bytes, lemma_graft_lex, lemma_graft_occurs, lemma_graft_units, lemma_head_texts,
    lemma_lex_from, lemma_low, lemma_parted, lemma_quiet, lemma_run_lex, lemma_run_second, lib_head,
    low, moved, moved_block, opens_at, outside, run, stands_in, steps_in, stops, symbol_head,
    unmarked, whole,
};
use crate::grouping::apart;
use crate::library::{count_close, definition_added, embeds, indented, with_section};
use crate::numeral::decimal;
use crate::properties::{lemma_units, unit_shaped};
use crate::rename::{lemma_plain_bytes, lemma_property_exchange, lemma_property_parts};
use crate::replace::{
    lib_id_range, renamed_symbol, replaced, unit_edits, unit_ranges, unit_set, SymbolLookup,
};
use crate::scan::{block_end, is_block_start, lemma_block_end, lemma_lex_same, lemma_unquoted, lex};
use crate::symbols::{instance_blocks, reference_property};
use crate::text::{
    first_at, lemma_first_at, lemma_occurs, lemma_one_byte, occurs, occurs_at, spliced, utf8,
};

verus! {

// ── The name of a symbol ─────────────────────────────────────────────────────

/// The list by which a placed symbol names its definition, up to the quote
/// behind the name.
pub open spec fn naming(id: Seq<u8>) -> Seq<u8> {
    utf8("(lib_id \""@) + id + seq![0x22u8]
}

/// The first name in a text is that one.
pub open spec fn names_symbol(text: Seq<u8>, id: Seq<u8>) -> bool {
    first_at(text, utf8("(lib_id \""@), 0) matches Some(o) && occurs_at(text, naming(id), o)
}

/// Bytes without quotes, backslashes and parentheses.
pub open spec fn plain(x: Seq<u8>) -> bool {
    forall|i: int|
        0 <= i < x.len() ==> #[trigger] x[i] != 0x22 && x[i] != 0x5c && x[i] != 0x28 && x[i]
            != 0x29
}

/// The block of a component, by its text: it names a symbol plainly, outside
/// strings.
pub open spec fn named_plainly(text: Seq<u8>, id: Seq<u8>) -> bool {
    &&& names_symbol(text, id)
    &&& plain(id)
    &&& !lex(text, 0, first_at(text, utf8("(lib_id \""@), 0)->0).quoted
}

/// A component that can be replaced: its units stand one behind the other, and
/// the first names a symbol.
pub open spec fn replaceable(s: Seq<u8>, reference: Seq<char>, id: Seq<u8>) -> bool {
    &&& unmarked(reference)
    &&& units_apart(s, reference)
    &&& instance_blocks(s, reference).len() > 0
    &&& named_plainly(unit_text(s, reference, 0), id)
}

proof fn lemma_open()
    ensures
        utf8("(lib_id \""@) == seq![0x28u8, 0x6c, 0x69, 0x62, 0x5f, 0x69, 0x64, 0x20, 0x22],
        utf8("\""@) == seq![0x22u8],
{
    reveal_strlit("(lib_id \"");
    reveal_strlit("\"");
    vstd::utf8::is_ascii_chars_encode_utf8("(lib_id \""@);
    lemma_one_byte("\""@);
    assert(utf8("(lib_id \""@) =~= seq![
        0x28u8,
        0x6c,
        0x69,
        0x62,
        0x5f,
        0x69,
        0x64,
        0x20,
        0x22,
    ]);
    assert(utf8("\""@) =~= seq![0x22u8]);
}

proof fn lemma_naming_leads(d: int, id: Seq<u8>)
    requires
        plain(id),
    ensures
        leads(outside(d), naming(id), outside(d + 1), d),
{
    let o = outside(d);
    let mid = inside(d + 1);
    let head = utf8("(lib_id \""@);
    let quote = seq![0x22u8];
    lemma_open();
    reveal_with_fuel(run, 10);
    reveal_with_fuel(low, 10);
    assert(leads(o, head, mid, d));
    lemma_quiet(mid, id, id.len() as int);
    lemma_run_second(o, mid, head, id, d, id.len() as int);
    lemma_run_second(o, mid, head + id, quote, d, 1);
}

proof fn lemma_naming_absent(id: Seq<u8>, p: Seq<u8>)
    requires
        plain(id),
        p.len() > 1,
        p[1] != 0x6c,
    ensures
        absent(naming(id), p),
{
    let n = naming(id);
    lemma_open();
    assert forall|i: int| 0 <= i < n.len() && #[trigger] n[i] == 0x28 implies differs_at(n, p, i) by {
        if 9 <= i < 9 + id.len() {
            assert(n[i] == id[i - 9]);
        }
        assert(i == 0);
        assert(p[1] != n[0 + 1int]);
    }
}

/// A name may be put over another.
proof fn lemma_name_graft(s: Seq<u8>, h: int, old_id: Seq<u8>, id: Seq<u8>, reference: Seq<char>)
    requires
        occurs_at(s, naming(old_id), h),
        !lex(s, 0, h).quoted,
        plain(old_id),
        plain(id),
    ensures
        ({
            let e = h + naming(old_id).len();
            let n = naming(id);
            let p = utf8(reference_property(reference));
            &&& graftable(s, h, e, n)
            &&& free(s, p, h, e)
            &&& free(spliced(s, h, e, n), p, h, h + n.len())
        }),
{
    let gone = naming(old_id);
    let n = naming(id);
    let e = h + gone.len();
    let t = spliced(s, h, e, n);
    let st = lex(s, 0, h);
    let p = utf8(reference_property(reference));
    lemma_open();
    lemma_head_texts();
    lemma_property_parts(reference);
    assert(p[0] == 0x28 && p[1] == 0x70);
    lemma_graft_bytes(s, h, e, n);
    lemma_unquoted(s, 0, h);
    assert(st == outside(st.depth));
    lemma_naming_leads(st.depth, old_id);
    lemma_naming_leads(st.depth, id);
    lemma_run_lex(s, 0, h, gone, gone.len() as int);
    assert forall|i: int| h <= i <= e implies (#[trigger] lex(s, 0, i)).depth >= st.depth by {
        lemma_run_lex(s, 0, h, gone, i - h);
        lemma_low(st, gone, gone.len() as int, i - h);
    }
    assert(s.subrange(h, e)[0] == s[h]);
    assert(opens_at(n, 0));
    lemma_naming_absent(old_id, symbol_head());
    lemma_naming_absent(id, symbol_head());
    lemma_naming_absent(old_id, p);
    lemma_naming_absent(id, p);
    lemma_absent_free(s, h, gone, symbol_head());
    lemma_absent_free(t, h, n, symbol_head());
    lemma_absent_free(s, h, gone, p);
    lemma_absent_free(t, h, n, p);
    assert(s.subrange(h, h + 8) =~= lib_head()) by {
        assert forall|k: int| 0 <= k < 8 implies s[h + k] == #[trigger] lib_head()[k] by {
            assert(s.subrange(h, e)[k] == s[h + k]);
            assert(gone[k] == utf8("(lib_id \""@)[k]);
        }
    }
    assert(t.subrange(h, h + 8) =~= lib_head()) by {
        assert forall|k: int| 0 <= k < 8 implies t[h + k] == #[trigger] lib_head()[k] by {
            assert(n[k] == utf8("(lib_id \""@)[k]);
        }
    }
}

/// A name that was put over another is the name of the text.
#[verifier::spinoff_prover]
proof fn lemma_name_put(text: Seq<u8>, o: int, old_id: Seq<u8>, id: Seq<u8>)
    requires
        first_at(text, utf8("(lib_id \""@), 0) == Some(o),
        occurs_at(text, naming(old_id), o),
    ensures
        first_at(
            spliced(text, o, o + naming(old_id).len(), naming(id)),
            utf8("(lib_id \""@),
            0,
        ) == Some(o),
        occurs_at(spliced(text, o, o + naming(old_id).len(), naming(id)), naming(id), o),
{
    let head = utf8("(lib_id \""@);
    let n = naming(id);
    lemma_open();
    assert(n[0] == head[0]);
    assert(n.subrange(0, 9) =~= head);
    lemma_graft_bytes(text, o, o + naming(old_id).len(), n);
    lemma_head_put(text, o, o + naming(old_id).len(), n, head);
}

proof fn lemma_head_put(text: Seq<u8>, o: int, e: int, n: Seq<u8>, head: Seq<u8>)
    requires
        first_at(text, head, 0) == Some(o),
        o <= e <= text.len(),
        head.len() == 9,
        head[0] == 0x28,
        forall|k: int| 0 < k < 9 ==> #[trigger] head[k] != 0x28,
        9 <= n.len(),
        n.subrange(0, 9) == head,
    ensures
        first_at(spliced(text, o, e, n), head, 0) == Some(o),
{
    let now = spliced(text, o, e, n);
    lemma_first_at(text, head, 0);
    lemma_first_at(now, head, 0);
    assert(now.subrange(o, o + 9) =~= n.subrange(0, 9));
    assert(now[o] == n.subrange(0, 9)[0]);
    assert(occurs_at(now, head, o));
    let f = first_at(now, head, 0)->0;
    if f < o {
        lemma_no_earlier(text, now, head, f, o);
    }
}

/// What stands before a list's beginning in one text does so in the other.
proof fn lemma_no_earlier(text: Seq<u8>, now: Seq<u8>, head: Seq<u8>, f: int, o: int)
    requires
        0 <= f < o < text.len(),
        o < now.len(),
        occurs_at(now, head, f),
        head.len() == 9,
        forall|k: int| 0 < k < 9 ==> #[trigger] head[k] != 0x28,
        now[o] == 0x28,
        forall|k: int| 0 <= k < o ==> text[k] == #[trigger] now[k],
    ensures
        occurs_at(text, head, f),
{
    if f + 9 <= o {
        assert(text.subrange(f, f + 9) =~= now.subrange(f, f + 9));
    } else {
        assert(now.subrange(f, f + 9)[o - f] == now[o]);
    }
}

/// Where the name of a component stands.
proof fn lemma_name_range(s: Seq<u8>, reference: Seq<char>, id: Seq<u8>)
    requires
        replaceable(s, reference, id),
    ensures
        ({
            let b = instance_blocks(s, reference)[0];
            let text = unit_text(s, reference, 0);
            let o = first_at(text, utf8("(lib_id \""@), 0)->0;
            let h = b.0 + o;
            &&& unit_shaped(s, b)
            &&& 0 < o
            &&& occurs_at(text, naming(id), o)
            &&& occurs_at(s, naming(id), h)
            &&& !lex(s, 0, h).quoted
            &&& h + naming(id).len() < b.1
            &&& lib_id_range(s, reference) == Ok::<(int, int), Seq<char>>(
                (h + 9, h + 9 + id.len()),
            )
            &&& s.subrange(h + 9, h + 9 + id.len()) == id
        }),
{
    let b = instance_blocks(s, reference)[0];
    let text = unit_text(s, reference, 0);
    let head = utf8("(lib_id \""@);
    let quote = utf8("\""@);
    let n = naming(id);
    lemma_open();
    lemma_unit_end(s, reference, 0);
    lemma_first_at(text, head, 0);
    let o = first_at(text, head, 0)->0;
    let h = b.0 + o;
    assert(text[1] == s[b.0 + 1] && text[0] == s[b.0]);
    assert(text.subrange(o, o + 9)[1] == text[o + 1]);
    assert(o > 0);
    lemma_unit_lex(s, reference, 0, o);
    assert(s.subrange(h, h + n.len()) =~= text.subrange(o, o + n.len()));
    assert forall|k: int| 0 <= k < n.len() implies s[h + k] == #[trigger] n[k] by {
        assert(s.subrange(h, h + n.len())[k] == s[h + k]);
    }
    assert(s[h + n.len() - 1] == n[n.len() - 1]);
    assert(h + n.len() < b.1);
    let e = h + 9 + id.len();
    assert(s[h + (9 + id.len())] == n[9int + id.len()]);
    assert(s.subrange(e, e + 1) =~= quote);
    assert(occurs_at(s, quote, e));
    lemma_first_at(s, quote, h + 9);
    let f = first_at(s, quote, h + 9)->0;
    if f < e {
        assert(s.subrange(f, f + 1)[0] == s[f]);
        assert(s[h + (f - h)] == n[f - h]);
        assert(n[f - h] == id[f - h - 9]);
    }
    assert(s.subrange(h + 9, e) =~= id) by {
        assert forall|k: int| 0 <= k < id.len() implies s[h + 9 + k] == #[trigger] id[k] by {
            assert(s[h + (9 + k)] == n[9 + k]);
        }
    }
}

/// The units of a component whose name was exchanged.
proof fn lemma_named_anew(s: Seq<u8>, reference: Seq<char>, old_id: Seq<u8>, id: Seq<u8>)
    requires
        replaceable(s, reference, old_id),
        plain(id),
    ensures
        ({
            let all = instance_blocks(s, reference);
            let b = all[0];
            let text = unit_text(s, reference, 0);
            let o = first_at(text, utf8("(lib_id \""@), 0)->0;
            let e = o + naming(old_id).len();
            let t = spliced(s, b.0 + o, b.0 + e, naming(id));
            let now = instance_blocks(t, reference);
            let by = id.len() - old_id.len();
            &&& t == spliced(s, b.0 + o + 9, b.0 + e - 1, id)
            &&& graftable(s, b.0 + o, b.0 + e, naming(id))
            &&& now.len() == all.len()
            &&& now[0] == (b.0, b.1 + by)
            &&& units_apart(t, reference)
            &&& unit_text(t, reference, 0) == spliced(text, o, e, naming(id))
            &&& names_symbol(unit_text(t, reference, 0), id)
            &&& forall|k: int|
                0 < k < all.len() ==> #[trigger] unit_text(t, reference, k) == unit_text(
                    s,
                    reference,
                    k,
                )
        }),
{
    let all = instance_blocks(s, reference);
    let b = all[0];
    let text = unit_text(s, reference, 0);
    let o = first_at(text, utf8("(lib_id \""@), 0)->0;
    let h = b.0 + o;
    let n = naming(id);
    let gone = naming(old_id);
    let e = h + gone.len();
    let t = spliced(s, h, e, n);
    let by = n.len() - gone.len();
    lemma_open();
    lemma_name_range(s, reference, old_id);
    lemma_name_graft(s, h, old_id, id, reference);
    lemma_property_exchange(reference, reference);
    lemma_graft_units(s, h, e, n, reference);
    lemma_graft_bytes(s, h, e, n);
    lemma_units(s, reference);
    let now = instance_blocks(t, reference);
    assert(now[0] == moved_block(all[0], h, by));
    assert(whole(all[0], h, e));
    assert forall|i: int, j: int| 0 <= i < j < now.len() implies (#[trigger] now[i]).1 <= (
    #[trigger] now[j]).0 by {
        assert(all[i].1 <= all[j].0);
        assert(whole(all[i], h, e) && whole(all[j], h, e));
        assert(now[i] == moved_block(all[i], h, by));
        assert(now[j] == moved_block(all[j], h, by));
    }
    assert forall|k: int| 0 < k < all.len() implies #[trigger] unit_text(t, reference, k)
        == unit_text(s, reference, k) by {
        assert(all[0].1 <= all[k].0);
        assert(unit_shaped(s, all[k]));
        assert(now[k] == moved_block(all[k], h, by));
        assert(t.subrange(now[k].0, now[k].1) =~= s.subrange(all[k].0, all[k].1));
    }
    assert(unit_text(t, reference, 0) =~= spliced(text, o, o + gone.len(), n));
    lemma_name_put(text, o, old_id, id);
    assert(t =~= spliced(s, h + 9, e - 1, id)) by {
        assert forall|k: int| 0 <= k < 9 implies s[h + k] == #[trigger] n[k] by {
            assert(s.subrange(h, e)[k] == s[h + k]);
            assert(gone[k] == n[k]);
        }
        assert(s.subrange(h, e)[gone.len() - 1] == s[e - 1]);
    }
}

// ── The numbers of units ─────────────────────────────────────────────────────

/// How a unit's number begins.
pub open spec fn unit_open() -> Seq<u8> {
    utf8("(unit "@)
}

/// A unit number with its list, closed.
pub open spec fn unit_list(number: Seq<u8>) -> Seq<u8> {
    utf8("(unit "@) + number + seq![0x29u8]
}

/// A number begins at `i`, outside strings, with nothing in it that opens
/// anything.
pub open spec fn plain_number(s: Seq<u8>, i: int) -> bool {
    &&& !lex(s, 0, i).quoted
    &&& first_at(s, utf8(")"@), i + 6) matches Some(c) && plain(s.subrange(i + 6, c))
}

/// The unit numbers in a block are plain.
pub open spec fn plain_units(s: Seq<u8>, b: (int, int)) -> bool {
    forall|i: int| #[trigger] stands_in(s, b, unit_open(), i) ==> plain_number(s, i)
}

/// Every unit number of a text is that one.
pub open spec fn all_numbered(text: Seq<u8>, number: Seq<u8>) -> bool {
    forall|i: int|
        #[trigger] occurs_at(text, unit_open(), i) ==> occurs_at(text, unit_list(number), i)
}

proof fn lemma_unit_open()
    ensures
        unit_open() == seq![0x28u8, 0x75, 0x6e, 0x69, 0x74, 0x20],
        utf8(")"@) == seq![0x29u8],
        clean(unit_open()),
{
    reveal_strlit("(unit ");
    reveal_strlit(")");
    vstd::utf8::is_ascii_chars_encode_utf8("(unit "@);
    lemma_one_byte(")"@);
    assert(unit_open() =~= seq![0x28u8, 0x75, 0x6e, 0x69, 0x74, 0x20]);
    assert(utf8(")"@) =~= seq![0x29u8]);
}

/// The first closing parenthesis stays the first, in a text that reads the
/// same up to there.
proof fn lemma_close_moved(s: Seq<u8>, t: Seq<u8>, from: int, c: int, by: int)
    requires
        0 <= from,
        0 <= from + by,
        first_at(s, seq![0x29u8], from) == Some(c),
        c + by < t.len(),
        forall|k: int| from <= k <= c ==> s[k] == #[trigger] t[k + by],
    ensures
        first_at(t, seq![0x29u8], from + by) == Some(c + by),
        t.subrange(from + by, c + by) == s.subrange(from, c),
{
    let close = seq![0x29u8];
    lemma_first_at(s, close, from);
    lemma_first_at(t, close, from + by);
    assert(s.subrange(c, c + 1)[0] == s[c]);
    assert(s[c] == t[c + by]);
    assert(t.subrange(c + by, c + by + 1) =~= close);
    assert(occurs_at(t, close, c + by));
    let f = first_at(t, close, from + by)->0;
    if f < c + by {
        assert(t.subrange(f, f + 1)[0] == t[f]);
        assert(s[f - by] == t[(f - by) + by]);
        assert(s.subrange(f - by, f - by + 1) =~= close);
        assert(occurs_at(s, close, f - by));
    }
    assert(t.subrange(from + by, c + by) =~= s.subrange(from, c)) by {
        assert forall|k: int| 0 <= k < c - from implies #[trigger] t.subrange(
            from + by,
            c + by,
        )[k] == s.subrange(from, c)[k] by {
            assert(s[from + k] == t[(from + k) + by]);
        }
    }
}

/// The numbers of a block stay plain when its name is exchanged.
#[verifier::spinoff_prover]
proof fn lemma_still_plain(s: Seq<u8>, h: int, e: int, id: Seq<u8>, b: (int, int))
    requires
        graftable(s, h, e, naming(id)),
        s[h] == 0x28,
        plain(id),
        0 <= b.0 < h,
        e < b.1 <= s.len(),
        plain_units(s, b),
    ensures
        plain_units(
            spliced(s, h, e, naming(id)),
            moved_block(b, h, naming(id).len() - (e - h)),
        ),
{
    let n = naming(id);
    let t = spliced(s, h, e, n);
    let by = n.len() - (e - h);
    let c = moved_block(b, h, by);
    let p = unit_open();
    lemma_open();
    lemma_unit_open();
    lemma_graft_bytes(s, h, e, n);
    lemma_naming_absent(id, p);
    lemma_absent_free(t, h, n, p);
    lemma_parted(s, h, n, p);
    assert forall|j: int| #[trigger] stands_in(t, c, p, j) implies plain_number(t, j) by {
        if h <= j < h + n.len() {
            assert(!occurs_at(t, p, j));
        }
        let i = if j < h {
            j
        } else {
            j - by
        };
        lemma_graft_occurs(s, h, e, n, p, i);
        assert(stands_in(s, b, p, i));
        assert(plain_number(s, i));
        let z = first_at(s, utf8(")"@), i + 6)->0;
        lemma_first_at(s, utf8(")"@), i + 6);
        assert(s.subrange(z, z + 1)[0] == s[z]);
        lemma_graft_lex(s, h, e, n, i);
        if i < h {
            if z > h {
                assert(s.subrange(i + 6, z)[h - (i + 6)] == s[h]);
            }
            assert(z < h);
            lemma_close_moved(s, t, i + 6, z, 0);
        } else {
            lemma_close_moved(s, t, i + 6, z, by);
        }
    }
}

/// A unit number may be put over another.
proof fn lemma_unit_swappable(x: Seq<u8>, p: Seq<u8>)
    requires
        plain(x),
        p.len() > 1,
        p[0] == 0x28,
        p[1] == 0x70,
    ensures
        swappable(unit_open() + x, p),
{
    let n = unit_open() + x;
    lemma_unit_open();
    lemma_head_texts();
    assert forall|d: int| leads(#[trigger] outside(d), n, outside(d + 1), d) by {
        reveal_with_fuel(run, 7);
        reveal_with_fuel(low, 7);
        assert(leads(outside(d), unit_open(), outside(d + 1), d));
        lemma_quiet(outside(d + 1), x, x.len() as int);
        lemma_run_second(outside(d), outside(d + 1), unit_open(), x, d, x.len() as int);
    }
    assert forall|q: Seq<u8>| q.len() > 1 && q[1] != 0x75 implies #[trigger] absent(n, q) by {
        assert forall|i: int| 0 <= i < n.len() && #[trigger] n[i] == 0x28 implies differs_at(
            n,
            q,
            i,
        ) by {
            if i >= 6 {
                assert(n[i] == x[i - 6]);
            }
            assert(i == 0);
            assert(q[1] != n[0 + 1int]);
        }
    }
}

/// A range that holds a unit number.
spec fn numbers_at(text: Seq<u8>, r: (int, int)) -> bool {
    &&& 6 <= r.0 <= r.1 < text.len()
    &&& occurs_at(text, unit_open(), r.0 - 6)
    &&& first_at(text, utf8(")"@), r.0) == Some(r.1)
    &&& text[r.1] == 0x29
}

proof fn lemma_ranges(text: Seq<u8>, from: int)
    requires
        0 <= from,
    ensures
        ({
            let rs = unit_ranges(text, from);
            &&& forall|j: int|
                0 <= j < rs.len() ==> numbers_at(text, #[trigger] rs[j]) && from <= rs[j].0 - 6
            &&& forall|i: int, j: int|
                0 <= i < j < rs.len() ==> (#[trigger] rs[i]).1 < (#[trigger] rs[j]).0 - 5
        }),
    decreases text.len() - from + 1,
{
    let rs = unit_ranges(text, from);
    lemma_unit_open();
    lemma_first_at(text, unit_open(), from);
    if let Some(p) = first_at(text, unit_open(), from) {
        lemma_first_at(text, utf8(")"@), p + 6);
        if let Some(c) = first_at(text, utf8(")"@), p + 6) {
            let rest = unit_ranges(text, c);
            lemma_ranges(text, c);
            assert(rs =~= seq![(p + 6, c)] + rest);
            assert(text.subrange(c, c + 1)[0] == text[c]);
            assert forall|j: int| 0 <= j < rs.len() implies numbers_at(text, #[trigger] rs[j])
                && from <= rs[j].0 - 6 by {
                if j > 0 {
                    assert(rs[j] == rest[j - 1]);
                }
            }
            assert forall|i: int, j: int| 0 <= i < j < rs.len() implies (#[trigger] rs[i]).1 < (
            #[trigger] rs[j]).0 - 5 by {
                assert(rs[j] == rest[j - 1]);
                if i > 0 {
                    assert(rs[i] == rest[i - 1]);
                }
            }
        }
    }
}

/// The edits that give a text's units a number.
spec fn number_edits(text: Seq<u8>, from: int, number: Seq<u8>) -> Seq<Edit> {
    unit_ranges(text, from).map_values(
        |r: (int, int)| Edit { start: r.0, end: r.1, text: number },
    )
}

/// A text with its units' numbers set, from `from` on.
spec fn numbered_from(text: Seq<u8>, from: int, number: Seq<u8>) -> Seq<u8> {
    rewritten(text, number_edits(text, from, number), from)
}

/// Once the numbers are set every unit number is the one that was asked for.
proof fn lemma_numbered(text: Seq<u8>, from: int, number: Seq<u8>)
    requires
        0 <= from <= text.len(),
        plain(number),
        text.len() > 0,
        text.last() == 0x29,
    ensures
        all_numbered(numbered_from(text, from, number), number),
    decreases text.len() - from + 1,
{
    let all = numbered_from(text, from, number);
    let es = number_edits(text, from, number);
    let p = unit_open();
    lemma_unit_open();
    lemma_first_at(text, p, from);
    match first_at(text, p, from) {
        Some(at) => {
            let close = utf8(")"@);
            assert(text.subrange(at, at + 6)[5] == text[at + 5]);
            assert(text.subrange(text.len() - 1, text.len() as int) =~= close);
            assert(occurs_at(text, close, text.len() - 1));
            lemma_first_at(text, close, at + 6);
            let c = first_at(text, close, at + 6)->0;
            let rest = number_edits(text, c, number);
            let tail = numbered_from(text, c, number);
            let f = |r: (int, int)| Edit { start: r.0, end: r.1, text: number };
            assert(unit_ranges(text, from) =~= seq![(at + 6, c)] + unit_ranges(text, c));
            assert(es =~= seq![f((at + 6, c))] + rest);
            assert(es.drop_first() =~= rest);
            assert(all == text.subrange(from, at + 6) + number + tail);
            lemma_ranges(text, c);
            assert(text.subrange(c, c + 1)[0] == text[c]);
            if rest.len() > 0 {
                assert(rest[0] == f(unit_ranges(text, c)[0]));
                assert(numbers_at(text, unit_ranges(text, c)[0]));
            }
            lemma_rewritten_from(text, rest, c, c + 1);
            assert(tail[0] == 0x29);
            lemma_numbered(text, c, number);
            lemma_numbered_step(text, from, at, number, tail);
        },
        None => {
            assert(es =~= Seq::<Edit>::empty());
            assert(all == text.subrange(from, text.len() as int));
            assert forall|i: int| #[trigger] occurs_at(all, p, i) implies occurs_at(
                all,
                unit_list(number),
                i,
            ) by {
                assert(all.subrange(i, i + 6) =~= text.subrange(from + i, from + i + 6));
                assert(occurs_at(text, p, from + i));
            }
        },
    }
}

#[verifier::spinoff_prover]
proof fn lemma_numbered_step(text: Seq<u8>, from: int, at: int, number: Seq<u8>, tail: Seq<u8>)
    requires
        0 <= from <= at,
        at + 6 <= text.len(),
        first_at(text, unit_open(), from) == Some(at),
        plain(number),
        tail.len() > 0,
        tail[0] == 0x29,
        all_numbered(tail, number),
    ensures
        all_numbered(text.subrange(from, at + 6) + number + tail, number),
{
    let head = text.subrange(from, at + 6);
    let all = head + number + tail;
    let p = unit_open();
    let o = at - from;
    let z = head.len() + number.len();
    lemma_unit_open();
    lemma_first_at(text, p, from);
    assert forall|i: int| #[trigger] occurs_at(all, p, i) implies occurs_at(
        all,
        unit_list(number),
        i,
    ) by {
        assert(all.subrange(i, i + 6)[0] == all[i]);
        if i < o {
            assert(all.subrange(i, i + 6) =~= text.subrange(from + i, from + i + 6));
            assert(occurs_at(text, p, from + i));
        } else if i == o {
            assert(all.subrange(o, o + 6) =~= text.subrange(at, at + 6));
            assert(all.subrange(o, o + 6 + number.len() + 1) =~= unit_list(number));
        } else if i < o + 6 {
            assert(all[i] == text[from + i]);
            assert(text.subrange(at, at + 6)[i - o] == text[from + i]);
        } else if i < z {
            assert(all[i] == number[i - head.len()]);
        } else {
            assert(tail.subrange(i - z, i - z + 6) =~= all.subrange(i, i + 6));
            assert(occurs_at(tail, p, i - z));
            assert(occurs_at(tail, unit_list(number), i - z));
            assert(all.subrange(i, i + unit_list(number).len()) =~= tail.subrange(
                i - z,
                i - z + unit_list(number).len(),
            ));
        }
    }
}

// ── Several edits in one unit ────────────────────────────────────────────────

/// Edits inside the first unit of a component, one behind the other.
spec fn first_unit_edits(s: Seq<u8>, reference: Seq<char>, ws: Seq<Edit>) -> bool {
    &&& in_line(ws)
    &&& forall|i: int, j: int|
        0 <= i < j < ws.len() ==> (#[trigger] ws[i]).start < (#[trigger] ws[j]).start
    &&& forall|j: int|
        0 <= j < ws.len() ==> sound(s, #[trigger] ws[j], utf8(reference_property(reference)))
    &&& forall|j: int|
        0 <= j < ws.len() ==> instance_blocks(s, reference)[0].0 < (#[trigger] ws[j]).start
            && ws[j].end < instance_blocks(s, reference)[0].1
}

/// Edits of a text as edits of a part of it that begins at `a`.
spec fn shifted(ws: Seq<Edit>, a: int) -> Seq<Edit> {
    ws.map_values(|w: Edit| Edit { start: w.start - a, end: w.end - a, text: w.text })
}

proof fn lemma_first_unit(s: Seq<u8>, reference: Seq<char>, ws: Seq<Edit>)
    requires
        unmarked(reference),
        units_apart(s, reference),
        instance_blocks(s, reference).len() > 0,
        first_unit_edits(s, reference, ws),
    ensures
        ({
            let t = rewritten(s, ws, 0);
            let all = instance_blocks(s, reference);
            let now = instance_blocks(t, reference);
            &&& now.len() == all.len()
            &&& units_apart(t, reference)
            &&& now[0].0 == all[0].0
            &&& unit_text(t, reference, 0) == rewritten(
                unit_text(s, reference, 0),
                shifted(ws, all[0].0),
                0,
            )
        }),
    decreases ws.len(),
{
    let all = instance_blocks(s, reference);
    let b = all[0];
    let text = unit_text(s, reference, 0);
    let es = shifted(ws, b.0);
    let p = utf8(reference_property(reference));
    lemma_units(s, reference);
    assert(unit_shaped(s, b));
    if ws.len() == 0 {
        assert(rewritten(s, ws, 0) =~= s);
        assert(es =~= Seq::<Edit>::empty());
        assert(rewritten(text, es, 0) =~= text);
    } else {
        let n = ws.len() - 1;
        let l = ws[n];
        let rest = ws.drop_last();
        let s1 = spliced(s, l.start, l.end, l.text);
        assert(sound(s, ws[n], p));
        assert(0 <= ws[0].start);
        lemma_last_first(s, ws, 0);
        lemma_one_unit(s, reference, l, 0);
        let mid = instance_blocks(s1, reference);
        assert forall|i: int| 0 <= i < rest.len() implies 0 <= (#[trigger] rest[i]).start
            <= rest[i].end && sound(s1, rest[i], p) && mid[0].0 < rest[i].start && rest[i].end
            < mid[0].1 by {
            assert(ws[i].start < ws[n].start);
            assert(ws[i].end <= ws[n].start);
            assert(sound(s, ws[i], p));
            lemma_still_sound(s, ws[i], l, p);
        }
        assert forall|i: int, j: int| 0 <= i < j < rest.len() implies (#[trigger] rest[i]).start < (
        #[trigger] rest[j]).start && rest[i].end <= rest[j].start by {
            assert(ws[i].start < ws[j].start);
        }
        lemma_first_unit(s1, reference, rest);
        assert forall|i: int| 0 <= i < es.len() implies 0 <= (#[trigger] es[i]).start
            <= es[i].end by {
            assert(b.0 < ws[i].start);
            assert(ws[i].start <= ws[i].end);
        }
        assert forall|i: int, j: int| 0 <= i < j < es.len() implies (#[trigger] es[i]).end <= (
        #[trigger] es[j]).start by {
            assert(ws[i].end <= ws[j].start);
        }
        assert(es.last() == (Edit { start: l.start - b.0, end: l.end - b.0, text: l.text }));
        assert(es[0].start >= 0);
        lemma_last_first(text, es, 0);
        assert(shifted(rest, b.0) =~= es.drop_last());
    }
}

/// An edit that puts a unit's number over another, with its list's beginning.
spec fn unit_swap(text: Seq<u8>, w: Edit) -> bool {
    &&& 0 <= w.start
    &&& w.start + 1 < w.end <= text.len()
    &&& text[w.start] == 0x28
    &&& text[w.start + 1] == 0x75
    &&& forall|k: int| w.start < k < w.end ==> #[trigger] text[k] != 0x28
    &&& w.text.len() > 1
    &&& w.text[0] == 0x28
    &&& w.text[1] == 0x75
    &&& forall|k: int| 0 < k < w.text.len() ==> #[trigger] w.text[k] != 0x28
}

/// Where the name stands once a unit's number was set.
#[verifier::spinoff_prover]
proof fn lemma_name_moved(text: Seq<u8>, w: Edit, q: Seq<u8>)
    requires
        unit_swap(text, w),
        q.len() == 9,
        q[0] == 0x28,
        q[1] == 0x6c,
        forall|k: int| 0 < k < 9 ==> #[trigger] q[k] != 0x28,
        first_at(text, q, 0) is Some,
    ensures
        ({
            let o = first_at(text, q, 0)->0;
            let by = w.text.len() - (w.end - w.start);
            &&& o < w.start || w.end <= o
            &&& first_at(spliced(text, w.start, w.end, w.text), q, 0) == Some(
                moved(o, w.start, by),
            )
        }),
{
    let now = spliced(text, w.start, w.end, w.text);
    let by = w.text.len() - (w.end - w.start);
    let o = first_at(text, q, 0)->0;
    lemma_graft_bytes(text, w.start, w.end, w.text);
    lemma_first_at(text, q, 0);
    lemma_first_at(now, q, 0);
    assert(text.subrange(o, o + 9)[0] == text[o]);
    assert(text.subrange(o, o + 9)[1] == text[o + 1]);
    assert(stops(q, text[w.start], w.text));
    lemma_graft_occurs(text, w.start, w.end, w.text, q, o);
    assert(occurs_at(now, q, moved(o, w.start, by)));
    let j = first_at(now, q, 0)->0;
    assert(now.subrange(j, j + 9)[0] == now[j]);
    assert(now.subrange(j, j + 9)[1] == now[j + 1]);
    if w.start <= j < w.start + w.text.len() {
        assert(now[w.start + (j - w.start)] == w.text[j - w.start]);
        assert(now[w.start + 1] == w.text[1]);
    }
    let i = if j < w.start {
        j
    } else {
        j - by
    };
    lemma_graft_occurs(text, w.start, w.end, w.text, q, i);
    assert(occurs_at(text, q, i));
}

proof fn lemma_names_one(text: Seq<u8>, w: Edit, id: Seq<u8>)
    requires
        unit_swap(text, w),
        plain(id),
        names_symbol(text, id),
    ensures
        names_symbol(spliced(text, w.start, w.end, w.text), id),
{
    let q = utf8("(lib_id \""@);
    let now = spliced(text, w.start, w.end, w.text);
    let by = w.text.len() - (w.end - w.start);
    let o = first_at(text, q, 0)->0;
    let x = naming(id);
    lemma_open();
    lemma_name_moved(text, w, q);
    lemma_graft_bytes(text, w.start, w.end, w.text);
    if o < w.start {
        if o + x.len() > w.start {
            assert(text.subrange(o, o + x.len())[w.start - o] == text[w.start]);
            let k = w.start - o;
            if 9 <= k < 9 + id.len() {
                assert(x[k] == id[k - 9]);
            }
        }
        assert(now.subrange(o, o + x.len()) =~= text.subrange(o, o + x.len()));
    } else {
        assert(now.subrange(o + by, o + by + x.len()) =~= text.subrange(o, o + x.len())) by {
            assert forall|k: int| 0 <= k < x.len() implies #[trigger] now.subrange(
                o + by,
                o + by + x.len(),
            )[k] == text.subrange(o, o + x.len())[k] by {
                assert(text[o + k] == now[(o + k) + by]);
            }
        }
    }
}

/// Setting unit numbers leaves the name.
proof fn lemma_names_kept(text: Seq<u8>, ws: Seq<Edit>, id: Seq<u8>)
    requires
        in_line(ws),
        forall|j: int| 0 <= j < ws.len() ==> unit_swap(text, #[trigger] ws[j]),
        plain(id),
        names_symbol(text, id),
    ensures
        names_symbol(rewritten(text, ws, 0), id),
    decreases ws.len(),
{
    if ws.len() == 0 {
        assert(rewritten(text, ws, 0) =~= text);
    } else {
        let n = ws.len() - 1;
        let l = ws[n];
        let rest = ws.drop_last();
        let now = spliced(text, l.start, l.end, l.text);
        assert(unit_swap(text, ws[n]));
        assert(0 <= ws[0].start);
        lemma_last_first(text, ws, 0);
        lemma_names_one(text, l, id);
        lemma_graft_bytes(text, l.start, l.end, l.text);
        assert forall|i: int, j: int| 0 <= i < j < rest.len() implies (#[trigger] rest[i]).end <= (
        #[trigger] rest[j]).start by {
            assert(ws[i].end <= ws[j].start);
        }
        assert forall|j: int| 0 <= j < rest.len() implies unit_swap(now, #[trigger] rest[j]) && 0
            <= rest[j].start <= rest[j].end by {
            assert(unit_swap(text, ws[j]));
            assert(ws[j].end <= ws[n].start);
        }
        lemma_names_kept(now, rest, id);
    }
}

proof fn lemma_decimal_plain(n: nat)
    ensures
        unmarked(decimal(n)),
        plain(utf8(decimal(n))),
    decreases n,
{
    if n >= 10 {
        lemma_decimal_plain(n / 10);
    }
    lemma_plain_bytes(decimal(n));
}

/// The edits that set the unit numbers, with the beginnings of their lists.
spec fn wide_number_edits(text: Seq<u8>, a: int, number: Seq<u8>) -> Seq<Edit> {
    unit_ranges(text, 0).map_values(
        |r: (int, int)|
            Edit { start: a + r.0 - 6, end: a + r.1, text: unit_open() + number },
    )
}

/// What those edits are in the first unit of a component.
proof fn lemma_number_edit(
    s: Seq<u8>,
    reference: Seq<char>,
    number: Seq<u8>,
    other: Seq<char>,
    j: int,
)
    requires
        instance_blocks(s, reference).len() > 0,
        plain_units(s, instance_blocks(s, reference)[0]),
        plain(number),
        0 <= j < unit_ranges(unit_text(s, reference, 0), 0).len(),
    ensures
        ({
            let b = instance_blocks(s, reference)[0];
            let text = unit_text(s, reference, 0);
            let r = unit_ranges(text, 0)[j];
            let w = Edit { start: b.0 + r.0 - 6, end: b.0 + r.1, text: unit_open() + number };
            let v = Edit { start: r.0 - 6, end: r.1, text: unit_open() + number };
            &&& numbers_at(text, r)
            &&& sound(s, w, utf8(reference_property(other)))
            &&& b.0 < w.start
            &&& w.end < b.1
            &&& widens(s, w, (Edit { start: b.0 + r.0, end: b.0 + r.1, text: number }))
            &&& unit_swap(text, v)
            &&& widens(text, v, (Edit { start: r.0, end: r.1, text: number }))
        }),
{
    let b = instance_blocks(s, reference)[0];
    let text = unit_text(s, reference, 0);
    let r = unit_ranges(text, 0)[j];
    let i = r.0 - 6;
    let w = Edit { start: b.0 + i, end: b.0 + r.1, text: unit_open() + number };
    let v = Edit { start: i, end: r.1, text: unit_open() + number };
    let p = utf8(reference_property(other));
    lemma_unit_end(s, reference, 0);
    lemma_unit_open();
    lemma_property_parts(other);
    assert(p[0] == 0x28 && p[1] == 0x70);
    lemma_ranges(text, 0);
    assert(numbers_at(text, r));
    assert(text.subrange(i, i + 6)[1] == text[i + 1]);
    assert(text.subrange(i, i + 6)[0] == text[i]);
    assert(text[1] == s[b.0 + 1]);
    assert(i > 0);
    assert(s.subrange(b.0 + i, b.0 + i + 6) =~= text.subrange(i, i + 6));
    assert(stands_in(s, b, unit_open(), b.0 + i));
    assert(plain_number(s, b.0 + i));
    // The number ends where the search in the block's text ends it.
    let c = first_at(s, utf8(")"@), b.0 + i + 6)->0;
    lemma_first_at(s, utf8(")"@), b.0 + i + 6);
    assert(s.subrange(b.0 + r.1, b.0 + r.1 + 1) =~= utf8(")"@));
    assert(occurs_at(s, utf8(")"@), b.0 + r.1));
    assert(c <= b.0 + r.1);
    lemma_first_at(text, utf8(")"@), r.0);
    if c < b.0 + r.1 {
        assert(s.subrange(c, c + 1)[0] == s[c]);
        assert(text.subrange(c - b.0, c - b.0 + 1) =~= utf8(")"@));
        assert(occurs_at(text, utf8(")"@), c - b.0));
    }
    let x = s.subrange(b.0 + r.0, c);
    assert(plain(x));
    lemma_unit_swappable(x, p);
    lemma_unit_swappable(number, p);
    assert(s.subrange(w.start, w.end) =~= unit_open() + x);
    assert(unit_open() + number =~= s.subrange(b.0 + i, b.0 + r.0) + number + s.subrange(
        w.end,
        w.end,
    ));
    assert(unit_open() + number =~= text.subrange(i, r.0) + number + text.subrange(r.1, r.1));
    assert forall|k: int| v.start < k < v.end implies #[trigger] text[k] != 0x28 by {
        if k < r.0 {
            assert(text.subrange(i, i + 6)[k - i] == text[k]);
        } else {
            assert(text[k] == s[b.0 + k]);
            assert(x[k - r.0] == s[b.0 + k]);
        }
    }
    assert forall|k: int| 0 < k < v.text.len() implies #[trigger] v.text[k] != 0x28 by {
        if k >= 6 {
            assert(v.text[k] == number[k - 6]);
        }
    }
}

/// Setting unit numbers is making those edits.
proof fn lemma_number_edits(s: Seq<u8>, reference: Seq<char>, unit: nat)
    requires
        instance_blocks(s, reference).len() > 0,
        plain_units(s, instance_blocks(s, reference)[0]),
    ensures
        ({
            let b = instance_blocks(s, reference)[0];
            let ws = wide_number_edits(unit_text(s, reference, 0), b.0, utf8(decimal(unit)));
            &&& first_unit_edits(s, reference, ws)
            &&& unit_set(s, reference, unit) == rewritten(s, ws, 0)
        }),
{
    let b = instance_blocks(s, reference)[0];
    let text = unit_text(s, reference, 0);
    let number = utf8(decimal(unit));
    let rs = unit_ranges(text, 0);
    let es = unit_edits(s, b, unit);
    let ws = wide_number_edits(text, b.0, number);
    let t = unit_set(s, reference, unit);
    lemma_decimal_plain(unit);
    lemma_ranges(text, 0);
    lemma_unit_end(s, reference, 0);
    assert forall|j: int| 0 <= j < ws.len() implies {
        &&& 0 <= (#[trigger] ws[j]).start <= ws[j].end
        &&& sound(s, ws[j], utf8(reference_property(reference)))
        &&& b.0 < ws[j].start
        &&& ws[j].end < b.1
        &&& widens(s, ws[j], es[j])
    } by {
        lemma_number_edit(s, reference, number, reference, j);
    }
    assert forall|i: int, j: int| 0 <= i < j < ws.len() implies (#[trigger] ws[i]).start < (
    #[trigger] ws[j]).start && ws[i].end <= ws[j].start by {
        assert(rs[i].1 < rs[j].0 - 5);
        lemma_number_edit(s, reference, number, reference, i);
    }
    assert(first_unit_edits(s, reference, ws));
    if ws.len() > 0 {
        assert(0 <= ws[0].start);
    }
    lemma_widened(s, ws, es, 0);
    lemma_in_line_ordered(es);
    assert(t == rewritten(s, ws, 0));
}

/// Setting the unit numbers of a component's block.
proof fn lemma_units_set(s: Seq<u8>, reference: Seq<char>, unit: nat, id: Seq<u8>)
    requires
        unmarked(reference),
        units_apart(s, reference),
        instance_blocks(s, reference).len() > 0,
        plain_units(s, instance_blocks(s, reference)[0]),
        names_symbol(unit_text(s, reference, 0), id),
        plain(id),
    ensures
        ({
            let t = unit_set(s, reference, unit);
            &&& instance_blocks(t, reference).len() == instance_blocks(s, reference).len()
            &&& units_apart(t, reference)
            &&& instance_blocks(t, reference)[0].0 == instance_blocks(s, reference)[0].0
            &&& names_symbol(unit_text(t, reference, 0), id)
            &&& all_numbered(unit_text(t, reference, 0), utf8(decimal(unit)))
            &&& t.subrange(0, instance_blocks(s, reference)[0].0) == s.subrange(
                0,
                instance_blocks(s, reference)[0].0,
            )
        }),
{
    let b = instance_blocks(s, reference)[0];
    let text = unit_text(s, reference, 0);
    let number = utf8(decimal(unit));
    let rs = unit_ranges(text, 0);
    let ws = wide_number_edits(text, b.0, number);
    let vs = wide_number_edits(text, 0, number);
    let t = unit_set(s, reference, unit);
    lemma_number_edits(s, reference, unit);
    lemma_ranges(text, 0);
    lemma_decimal_plain(unit);
    lemma_unit_end(s, reference, 0);
    lemma_first_unit(s, reference, ws);
    assert(shifted(ws, b.0) =~= vs);
    assert forall|j: int| 0 <= j < vs.len() implies {
        &&& 0 <= (#[trigger] vs[j]).start <= vs[j].end
        &&& unit_swap(text, vs[j])
        &&& widens(text, vs[j], number_edits(text, 0, number)[j])
    } by {
        lemma_number_edit(s, reference, number, reference, j);
    }
    assert forall|i: int, j: int| 0 <= i < j < vs.len() implies (#[trigger] vs[i]).end <= (
    #[trigger] vs[j]).start by {
        assert(rs[i].1 < rs[j].0 - 5);
    }
    if vs.len() > 0 {
        assert(0 <= vs[0].start);
    }
    lemma_widened(text, vs, number_edits(text, 0, number), 0);
    assert(unit_text(t, reference, 0) == numbered_from(text, 0, number));
    assert(text.last() == s[b.1 - 1]);
    lemma_numbered(text, 0, number);
    lemma_names_kept(text, vs, id);
    lemma_begins_alike(s, ws, b.0);
}

/// What stands before all edits stays.
proof fn lemma_begins_alike(s: Seq<u8>, ws: Seq<Edit>, a: int)
    requires
        0 <= a <= s.len(),
        ws.len() > 0 ==> a <= ws[0].start <= s.len(),
    ensures
        rewritten(s, ws, 0).len() >= a,
        rewritten(s, ws, 0).subrange(0, a) == s.subrange(0, a),
{
    lemma_rewritten_from(s, ws, 0, a);
    let rest = rewritten(s, ws, a);
    assert((s.subrange(0, a) + rest).subrange(0, a) =~= s.subrange(0, a));
}

// ── The definition that is embedded ──────────────────────────────────────────

/// What is put into the section for embedded definitions.
pub open spec fn embedded_text(def: Seq<u8>) -> Seq<u8> {
    utf8("\n"@) + indented(def) + utf8("\n\t"@)
}

/// A definition that can be embedded beside a component: it is read as whole
/// lists, names no symbol of a library, and does not bear the component's
/// designator.
pub open spec fn definition_fits(def: Seq<u8>, reference: Seq<char>) -> bool {
    let n = embedded_text(def);
    &&& steps_in(n)
    &&& forall|d: int| leads(#[trigger] outside(d), n, outside(d), d)
    &&& absent(n, lib_head())
    &&& absent(n, utf8(reference_property(reference)))
}

/// The section for embedded definitions is closed before `a`, outside strings.
pub open spec fn section_before(s: Seq<u8>, a: int) -> bool {
    &&& first_at(s, utf8("(lib_symbols"@), 0) matches Some(start) && count_close(
        s,
        start,
        0,
    ) matches Some(z) && z < a && !lex(s, 0, z).quoted
}

/// Where the section for embedded definitions is closed.
pub open spec fn section_end(s: Seq<u8>) -> int {
    count_close(s, first_at(s, utf8("(lib_symbols"@), 0)->0, 0)->0
}

proof fn lemma_count_close(s: Seq<u8>, i: int, depth: int)
    requires
        0 <= i,
    ensures
        count_close(s, i, depth) matches Some(z) ==> i <= z < s.len() && s[z] == 0x29,
    decreases s.len() - i,
{
    if i < s.len() {
        if s[i] == 0x28 {
            lemma_count_close(s, i + 1, depth + 1);
        } else if s[i] == 0x29 {
            if depth != 1 {
                lemma_count_close(s, i + 1, depth - 1);
            }
        } else {
            lemma_count_close(s, i + 1, depth);
        }
    }
}

proof fn lemma_count_same(s: Seq<u8>, t: Seq<u8>, i: int, depth: int, a: int)
    requires
        0 <= i,
        a <= s.len(),
        a <= t.len(),
        forall|k: int| 0 <= k < a ==> s[k] == #[trigger] t[k],
        count_close(s, i, depth) matches Some(z) && z < a,
    ensures
        count_close(t, i, depth) == count_close(s, i, depth),
    decreases s.len() - i,
{
    lemma_count_close(s, i, depth);
    assert(s[i] == t[i]);
    if s[i] == 0x28 {
        lemma_count_same(s, t, i + 1, depth + 1, a);
    } else if s[i] == 0x29 {
        if depth != 1 {
            lemma_count_same(s, t, i + 1, depth - 1, a);
        }
    } else {
        lemma_count_same(s, t, i + 1, depth, a);
    }
}

/// A text that reads the same up to `a` has its section there too.
proof fn lemma_section_same(s: Seq<u8>, t: Seq<u8>, a: int)
    requires
        section_before(s, a),
        0 <= a <= s.len(),
        a <= t.len(),
        t.subrange(0, a) == s.subrange(0, a),
    ensures
        section_before(t, a),
        section_end(t) == section_end(s),
{
    let p = utf8("(lib_symbols"@);
    let start = first_at(s, p, 0)->0;
    let z = count_close(s, start, 0)->0;
    reveal_strlit("(lib_symbols");
    vstd::utf8::is_ascii_chars_encode_utf8("(lib_symbols"@);
    lemma_first_at(s, p, 0);
    lemma_first_at(t, p, 0);
    lemma_count_close(s, start, 0);
    assert forall|k: int| 0 <= k < a implies s[k] == #[trigger] t[k] by {
        assert(s.subrange(0, a)[k] == s[k]);
        assert(t.subrange(0, a)[k] == t[k]);
    }
    if z < start + 12 {
        assert(s.subrange(start, start + 12)[z - start] == s[z]);
    }
    assert(t.subrange(start, start + 12) =~= s.subrange(start, start + 12));
    assert(occurs_at(t, p, start));
    let f = first_at(t, p, 0)->0;
    if f < start {
        assert(s.subrange(f, f + 12) =~= t.subrange(f, f + 12));
        assert(occurs_at(s, p, f));
    }
    lemma_count_same(s, t, start, 0, a);
    lemma_lex_same(s, t, 0, z);
}

/// Lists that are put in whole are closed where they end.
proof fn lemma_whole_lists(s: Seq<u8>, h: int, n: Seq<u8>)
    requires
        0 <= h <= s.len(),
        !lex(s, 0, h).quoted,
        leads(outside(lex(s, 0, h).depth), n, outside(lex(s, 0, h).depth), lex(s, 0, h).depth),
    ensures
        closed_starts(spliced(s, h, h, n), h, h + n.len()),
{
    let t = spliced(s, h, h, n);
    let z = h + n.len();
    let d = lex(s, 0, h).depth;
    lemma_graft_bytes(s, h, h, n);
    lemma_unquoted(s, 0, h);
    lemma_lex_same(s, t, 0, h);
    assert(lex(t, 0, h) == outside(d));
    lemma_run_lex(t, 0, h, n, n.len() as int);
    assert forall|k: int|
        h <= k < z && #[trigger] is_block_start(t, utf8("symbol"@), k) implies closed_to(t, k, z) by {
        lemma_run_lex(t, 0, h, n, k - h);
        lemma_low(outside(d), n, n.len() as int, k - h);
        lemma_lex_from(t, k, z);
        if let Some(x) = block_end(t, k) {
            lemma_block_end(t, k);
            if x > z {
                // Reading from the list's beginning, the depth is still above
                // zero at `z`.
                assert(lex(t, k, z).depth > 0);
            }
        }
    }
}

/// A definition may be put into the section.
proof fn lemma_definition_graft(s: Seq<u8>, reference: Seq<char>, def: Seq<u8>)
    requires
        unmarked(reference),
        section_before(s, s.len() as int),
        definition_fits(def, reference),
    ensures
        ({
            let start = first_at(s, utf8("(lib_symbols"@), 0)->0;
            let h = count_close(s, start, 0)->0;
            let n = embedded_text(def);
            let t = spliced(s, h, h, n);
            let q = utf8(reference_property(reference));
            &&& 0 <= h < s.len()
            &&& with_section(s) == s
            &&& definition_added(s, def) == t
            &&& graftable(s, h, h, n)
            &&& free(s, q, h, h)
            &&& free(t, q, h, h + n.len())
        }),
{
    let p = utf8("(lib_symbols"@);
    let q = utf8(reference_property(reference));
    let start = first_at(s, p, 0)->0;
    let h = count_close(s, start, 0)->0;
    let n = embedded_text(def);
    let t = spliced(s, h, h, n);
    let d = lex(s, 0, h).depth;
    lemma_first_at(s, p, 0);
    lemma_occurs(s, p);
    lemma_count_close(s, start, 0);
    lemma_unquoted(s, 0, h);
    assert(lex(s, 0, h) == outside(d));
    assert(leads(outside(d), n, outside(d), d));
    reveal_strlit("\n");
    lemma_one_byte("\n"@);
    assert(n[0] == 0x0a);
    lemma_graft_bytes(s, h, h, n);
    lemma_head_texts();
    lemma_property_exchange(reference, reference);
    lemma_absent_free(t, h, n, lib_head());
    lemma_absent_free(t, h, n, q);
    lemma_whole_lists(s, h, n);
}

/// The units of a component once a definition was embedded before them.
proof fn lemma_embedded_beside(s: Seq<u8>, reference: Seq<char>, def: Seq<u8>)
    requires
        unmarked(reference),
        instance_blocks(s, reference).len() > 0,
        section_before(s, instance_blocks(s, reference)[0].0),
        definition_fits(def, reference),
    ensures
        ({
            let t = definition_added(s, def);
            &&& with_section(s) == s
            &&& instance_blocks(t, reference).len() == instance_blocks(s, reference).len()
            &&& unit_text(t, reference, 0) == unit_text(s, reference, 0)
        }),
{
    let b = instance_blocks(s, reference)[0];
    let start = first_at(s, utf8("(lib_symbols"@), 0)->0;
    let h = count_close(s, start, 0)->0;
    let n = embedded_text(def);
    let t = spliced(s, h, h, n);
    lemma_units(s, reference);
    assert(unit_shaped(s, b));
    lemma_definition_graft(s, reference, def);
    lemma_graft_bytes(s, h, h, n);
    lemma_property_exchange(reference, reference);
    lemma_graft_units(s, h, h, n, reference);
    let now = instance_blocks(t, reference);
    assert(now[0] == moved_block(b, h, n.len() as int));
    assert(t.subrange(now[0].0, now[0].1) =~= s.subrange(b.0, b.1));
}

// ── A section that is added ──────────────────────────────────────────────────

/// A schematic without a section for embedded definitions, in which there is
/// room for one before `a`: behind its first line that a list closes, outside
/// strings.
pub open spec fn room_before(s: Seq<u8>, a: int) -> bool {
    &&& !occurs(s, utf8("(lib_symbols"@))
    &&& first_at(s, utf8(")\n"@), 0) matches Some(i) && i + 2 <= a && !lex(s, 0, i + 2).quoted
}

proof fn lemma_section_texts()
    ensures
        utf8("(lib_symbols"@) == seq![
            0x28u8,
            0x6c,
            0x69,
            0x62,
            0x5f,
            0x73,
            0x79,
            0x6d,
            0x62,
            0x6f,
            0x6c,
            0x73,
        ],
        clean(utf8("(lib_symbols"@)),
        utf8(")\n"@) == seq![0x29u8, 0x0a],
        utf8("\n\t(lib_symbols\n\t)\n"@) == seq![0x0au8, 0x09] + utf8("(lib_symbols"@) + seq![
            0x0au8,
            0x09,
            0x29,
            0x0a,
        ],
{
    reveal_strlit("(lib_symbols");
    reveal_strlit(")\n");
    reveal_strlit("\n\t(lib_symbols\n\t)\n");
    vstd::utf8::is_ascii_chars_encode_utf8("(lib_symbols"@);
    vstd::utf8::is_ascii_chars_encode_utf8(")\n"@);
    vstd::utf8::is_ascii_chars_encode_utf8("\n\t(lib_symbols\n\t)\n"@);
    assert(utf8("(lib_symbols"@) =~= seq![
        0x28u8,
        0x6c,
        0x69,
        0x62,
        0x5f,
        0x73,
        0x79,
        0x6d,
        0x62,
        0x6f,
        0x6c,
        0x73,
    ]);
    assert(utf8(")\n"@) =~= seq![0x29u8, 0x0a]);
    assert(utf8("\n\t(lib_symbols\n\t)\n"@) =~= seq![0x0au8, 0x09] + utf8("(lib_symbols"@) + seq![
        0x0au8,
        0x09,
        0x29,
        0x0a,
    ]);
}

/// The bytes of the section that is put in.
proof fn lemma_section_bytes()
    ensures
        ({
            let n = utf8("\n\t(lib_symbols\n\t)\n"@);
            let p = utf8("(lib_symbols"@);
            &&& n.len() == 18
            &&& n[0] == 0x0a
            &&& n[2] == 0x28
            &&& n[3] == 0x6c
            &&& n[7] == 0x73
            &&& n[16] == 0x29
            &&& forall|k: int| 0 <= k < 18 && k != 2 ==> #[trigger] n[k] != 0x28
            &&& forall|k: int| 0 <= k < 16 ==> #[trigger] n[k] != 0x29
            &&& n.subrange(2, 14) == p
            &&& p.len() == 12
            &&& p[0] == 0x28
            &&& p[1] == 0x6c
            &&& p[5] == 0x73
            &&& clean(p)
            &&& utf8(")\n"@).len() == 2
            &&& utf8(")\n"@)[0] == 0x29
            &&& utf8(")\n"@)[1] == 0x0a
        }),
{
    lemma_section_texts();
    let n = utf8("\n\t(lib_symbols\n\t)\n"@);
    assert(n.subrange(2, 14) =~= utf8("(lib_symbols"@));
}

/// The section that is put in is read as one list.
proof fn lemma_section_leads(d: int)
    ensures
        leads(outside(d), utf8("\n\t(lib_symbols\n\t)\n"@), outside(d), d),
        !run(outside(d), utf8("\n\t(lib_symbols\n\t)\n"@), 16).quoted,
{
    lemma_section_texts();
    reveal_with_fuel(run, 19);
    reveal_with_fuel(low, 19);
}

/// An exchange of one list's beginning for another brings in no section.
proof fn lemma_no_section_one(s: Seq<u8>, h: int, e: int, n: Seq<u8>)
    requires
        0 <= h < e <= s.len(),
        s[h] == 0x28,
        n.len() > 5,
        n[0] == 0x28,
        n[1] != 0x6c || n[5] != 0x73,
        forall|k: int| 0 < k < n.len() ==> #[trigger] n[k] != 0x28,
        !occurs(s, utf8("(lib_symbols"@)),
    ensures
        !occurs(spliced(s, h, e, n), utf8("(lib_symbols"@)),
{
    let p = utf8("(lib_symbols"@);
    let t = spliced(s, h, e, n);
    let by = n.len() - (e - h);
    lemma_section_bytes();
    lemma_graft_bytes(s, h, e, n);
    lemma_occurs(s, p);
    lemma_occurs(t, p);
    if occurs(t, p) {
        let j = choose|j: int| occurs_at(t, p, j);
        assert(t.subrange(j, j + 12)[0] == t[j]);
        assert(t.subrange(j, j + 12)[1] == t[j + 1]);
        assert(t.subrange(j, j + 12)[5] == t[j + 5]);
        if h <= j < h + n.len() {
            assert(t[h + (j - h)] == n[j - h]);
            assert(t[h + 1] == n[1] && t[h + 5] == n[5]);
        } else {
            let i = if j < h {
                j
            } else {
                j - by
            };
            assert(stops(p, s[h], n));
            lemma_graft_occurs(s, h, e, n, p, i);
            assert(occurs_at(s, p, i));
        }
    }
}

/// So does setting unit numbers.
proof fn lemma_no_section_all(s: Seq<u8>, ws: Seq<Edit>)
    requires
        in_line(ws),
        forall|j: int| 0 <= j < ws.len() ==> unit_swap(s, #[trigger] ws[j]) && ws[j].text.len() > 5,
        !occurs(s, utf8("(lib_symbols"@)),
    ensures
        !occurs(rewritten(s, ws, 0), utf8("(lib_symbols"@)),
    decreases ws.len(),
{
    if ws.len() == 0 {
        assert(rewritten(s, ws, 0) =~= s);
    } else {
        let n = ws.len() - 1;
        let l = ws[n];
        let rest = ws.drop_last();
        let now = spliced(s, l.start, l.end, l.text);
        assert(unit_swap(s, ws[n]));
        assert(0 <= ws[0].start);
        lemma_last_first(s, ws, 0);
        lemma_no_section_one(s, l.start, l.end, l.text);
        lemma_graft_bytes(s, l.start, l.end, l.text);
        assert forall|i: int, j: int| 0 <= i < j < rest.len() implies (#[trigger] rest[i]).end <= (
        #[trigger] rest[j]).start by {
            assert(ws[i].end <= ws[j].start);
        }
        assert forall|j: int| 0 <= j < rest.len() implies unit_swap(now, #[trigger] rest[j])
            && rest[j].text.len() > 5 && 0 <= rest[j].start <= rest[j].end by {
            assert(unit_swap(s, ws[j]));
            assert(ws[j].end <= ws[n].start);
        }
        lemma_no_section_all(now, rest);
    }
}

/// Nor does the schematic in which unit numbers were set.
proof fn lemma_numbers_no_section(named: Seq<u8>, reference: Seq<char>, unit: nat)
    requires
        instance_blocks(named, reference).len() > 0,
        plain_units(named, instance_blocks(named, reference)[0]),
        !occurs(named, utf8("(lib_symbols"@)),
    ensures
        !occurs(unit_set(named, reference, unit), utf8("(lib_symbols"@)),
{
    let number = utf8(decimal(unit));
    let text = unit_text(named, reference, 0);
    let block = instance_blocks(named, reference)[0];
    let ws = wide_number_edits(text, block.0, number);
    lemma_number_edits(named, reference, unit);
    lemma_decimal_plain(unit);
    lemma_unit_open();
    lemma_units(named, reference);
    assert(unit_shaped(named, block));
    assert forall|j: int| 0 <= j < ws.len() implies unit_swap(named, #[trigger] ws[j])
        && ws[j].text.len() > 5 by {
        lemma_number_edit(named, reference, number, reference, j);
        let r = unit_ranges(text, 0)[j];
        let v = Edit { start: r.0 - 6, end: r.1, text: unit_open() + number };
        assert(unit_swap(text, v));
        assert(named[ws[j].start] == text[v.start]);
        assert(named[ws[j].start + 1] == text[v.start + 1]);
        assert forall|k: int| ws[j].start < k < ws[j].end implies #[trigger] named[k] != 0x28 by {
            assert(named[k] == text[k - block.0]);
        }
    }
    lemma_no_section_all(named, ws);
}

/// A schematic without a section has none once a component was named anew.
proof fn lemma_still_no_section(
    s: Seq<u8>,
    reference: Seq<char>,
    old_id: Seq<u8>,
    new_lib_id: Seq<char>,
    unit: Option<u32>,
)
    requires
        replaceable(s, reference, old_id),
        unmarked(new_lib_id),
        unit is Some ==> plain_units(s, instance_blocks(s, reference)[0]),
        !occurs(s, utf8("(lib_symbols"@)),
    ensures
        !occurs(
            renamed_symbol(
                s,
                reference,
                lib_id_range(s, reference)->Ok_0,
                new_lib_id,
                unit,
            ),
            utf8("(lib_symbols"@),
        ),
{
    let b = instance_blocks(s, reference)[0];
    let id = utf8(new_lib_id);
    let o = first_at(unit_text(s, reference, 0), utf8("(lib_id \""@), 0)->0;
    let h = b.0 + o;
    let n = naming(id);
    let e = h + naming(old_id).len();
    let named = spliced(s, h, e, n);
    lemma_plain_bytes(new_lib_id);
    lemma_open();
    lemma_name_range(s, reference, old_id);
    lemma_named_anew(s, reference, old_id, id);
    assert(s[h] == 0x28) by {
        assert(s.subrange(h, e)[0] == s[h]);
        assert(naming(old_id)[0] == 0x28);
    }
    assert forall|k: int| 0 < k < n.len() implies #[trigger] n[k] != 0x28 by {
        if 9 <= k < 9 + id.len() {
            assert(n[k] == id[k - 9]);
        }
    }
    assert(n[5] == utf8("(lib_id \""@)[5]);
    lemma_no_section_one(s, h, e, n);
    if let Some(u) = unit {
        lemma_still_plain(s, h, e, id, b);
        lemma_numbers_no_section(named, reference, u as nat);
    }
}

/// The place of the first line that a list closes, in a text that reads the
/// same up to `a`.
proof fn lemma_room_same(s: Seq<u8>, t: Seq<u8>, a: int)
    requires
        room_before(s, a),
        0 <= a <= s.len(),
        a <= t.len(),
        t.subrange(0, a) == s.subrange(0, a),
        !occurs(t, utf8("(lib_symbols"@)),
    ensures
        room_before(t, a),
{
    let p = utf8(")\n"@);
    lemma_section_bytes();
    lemma_first_at(s, p, 0);
    lemma_first_at(t, p, 0);
    let i = first_at(s, p, 0)->0;
    assert forall|k: int| 0 <= k < a implies s[k] == #[trigger] t[k] by {
        assert(s.subrange(0, a)[k] == s[k]);
        assert(t.subrange(0, a)[k] == t[k]);
    }
    assert(t.subrange(i, i + 2) =~= s.subrange(i, i + 2));
    assert(occurs_at(t, p, i));
    let f = first_at(t, p, 0)->0;
    if f < i {
        assert(s.subrange(f, f + 2) =~= t.subrange(f, f + 2));
        assert(occurs_at(s, p, f));
    }
    lemma_lex_same(s, t, 0, i + 2);
}

/// The text of the section may be put in.
proof fn lemma_section_graft(s: Seq<u8>, reference: Seq<char>, a: int)
    requires
        room_before(s, a),
        a < s.len(),
        unmarked(reference),
    ensures
        ({
            let h = first_at(s, utf8(")\n"@), 0)->0 + 2;
            let n = utf8("\n\t(lib_symbols\n\t)\n"@);
            let t = spliced(s, h, h, n);
            let q = utf8(reference_property(reference));
            &&& n.len() == 18
            &&& with_section(s) == t
            &&& 2 <= h <= a
            &&& graftable(s, h, h, n)
            &&& free(s, q, h, h)
            &&& free(t, q, h, h + n.len())
            &&& section_before(t, h + 17)
        }),
{
    let p = utf8("(lib_symbols"@);
    let q = utf8(reference_property(reference));
    let n = utf8("\n\t(lib_symbols\n\t)\n"@);
    let h = first_at(s, utf8(")\n"@), 0)->0 + 2;
    let t = spliced(s, h, h, n);
    let d = lex(s, 0, h).depth;
    lemma_section_bytes();
    lemma_head_texts();
    lemma_property_parts(reference);
    lemma_property_exchange(reference, reference);
    assert(q[0] == 0x28 && q[1] == 0x70);
    lemma_first_at(s, utf8(")\n"@), 0);
    assert(s.subrange(h - 2, h)[0] == s[h - 2]);
    assert(s.subrange(h - 2, h)[1] == s[h - 1]);
    assert(behind_close(s, h));
    lemma_graft_bytes(s, h, h, n);
    lemma_unquoted(s, 0, h);
    assert(lex(s, 0, h) == outside(d));
    lemma_section_leads(d);
    assert(n[2] == 0x28);
    assert(absent(n, symbol_head())) by {
        assert(symbol_head()[1] != n[3]);
        assert(differs_at(n, symbol_head(), 2));
    }
    assert(absent(n, lib_head())) by {
        assert(lib_head()[5] != n[7]);
        assert(differs_at(n, lib_head(), 2));
    }
    assert(absent(n, q)) by {
        assert(q[1] != n[3]);
        assert(differs_at(n, q, 2));
    }
    lemma_absent_free(t, h, n, symbol_head());
    lemma_absent_free(t, h, n, lib_head());
    lemma_absent_free(t, h, n, q);
    assert(graftable(s, h, h, n));
    lemma_added_section(s, h, n);
    lemma_lex_same(s, t, 0, h);
    lemma_run_lex(t, 0, h, n, 16);
}

/// Where the section that was put in begins and ends.
proof fn lemma_added_section(s: Seq<u8>, h: int, n: Seq<u8>)
    requires
        n == utf8("\n\t(lib_symbols\n\t)\n"@),
        2 <= h < s.len(),
        behind_close(s, h),
        !occurs(s, utf8("(lib_symbols"@)),
    ensures
        ({
            let t = spliced(s, h, h, n);
            &&& first_at(t, utf8("(lib_symbols"@), 0) == Some(h + 2)
            &&& count_close(t, h + 2, 0) == Some(h + 16)
        }),
{
    let p = utf8("(lib_symbols"@);
    let t = spliced(s, h, h, n);
    lemma_section_bytes();
    lemma_graft_bytes(s, h, h, n);
    lemma_occurs(s, p);
    lemma_first_at(t, p, 0);
    assert(t.subrange(h + 2, h + 14) =~= n.subrange(2, 14));
    assert(occurs_at(t, p, h + 2));
    let f = first_at(t, p, 0)->0;
    if f < h + 2 {
        assert(t.subrange(f, f + 12)[0] == t[f]);
        if f >= h {
            assert(t[h + (f - h)] == n[f - h]);
        } else {
            lemma_graft_occurs(s, h, h, n, p, f);
            assert(occurs_at(s, p, f));
        }
    }
    assert(t[h + 2] == n[2]);
    assert(t[h + 16] == n[16]);
    assert forall|k: int| h + 3 <= k < h + 16 implies #[trigger] t[k] != 0x28 && t[k] != 0x29 by {
        assert(t[h + (k - h)] == n[k - h]);
    }
    lemma_count_over(t, h + 3, h + 16);
}

/// Counting goes over what holds no parenthesis.
proof fn lemma_count_over(t: Seq<u8>, i: int, z: int)
    requires
        0 <= i <= z < t.len(),
        t[z] == 0x29,
        forall|k: int| i <= k < z ==> #[trigger] t[k] != 0x28 && t[k] != 0x29,
    ensures
        count_close(t, i, 1) == Some(z),
    decreases z - i,
{
    if i < z {
        assert(t[i] != 0x28);
        lemma_count_over(t, i + 1, z);
    }
}

/// The units of a component once a section was added before them, and a
/// definition put into it.
proof fn lemma_section_beside(s: Seq<u8>, reference: Seq<char>, def: Seq<u8>)
    requires
        unmarked(reference),
        instance_blocks(s, reference).len() > 0,
        room_before(s, instance_blocks(s, reference)[0].0),
        definition_fits(def, reference),
    ensures
        ({
            let t = definition_added(with_section(s), def);
            &&& instance_blocks(t, reference).len() == instance_blocks(s, reference).len()
            &&& unit_text(t, reference, 0) == unit_text(s, reference, 0)
        }),
{
    let b = instance_blocks(s, reference)[0];
    let h = first_at(s, utf8(")\n"@), 0)->0 + 2;
    let n = utf8("\n\t(lib_symbols\n\t)\n"@);
    let t = spliced(s, h, h, n);
    lemma_units(s, reference);
    assert(unit_shaped(s, b));
    lemma_section_graft(s, reference, b.0);
    lemma_graft_bytes(s, h, h, n);
    lemma_property_exchange(reference, reference);
    lemma_graft_units(s, h, h, n, reference);
    let now = instance_blocks(t, reference);
    assert(now[0] == moved_block(b, h, n.len() as int));
    assert(t.subrange(now[0].0, now[0].1) =~= s.subrange(b.0, b.1));
    lemma_embedded_beside(t, reference, def);
}

// ── Replacing a component ────────────────────────────────────────────────────

/// A text in which one name was put over another, and nothing else was changed.
pub open spec fn renamed_at(
    before: Seq<u8>,
    after: Seq<u8>,
    old_id: Seq<u8>,
    id: Seq<u8>,
    o: int,
) -> bool {
    &&& occurs_at(before, naming(old_id), o)
    &&& after == spliced(before, o, o + naming(old_id).len(), naming(id))
}

/// The component in the schematic in which it was named anew.
proof fn lemma_swapped(
    s: Seq<u8>,
    reference: Seq<char>,
    old_id: Seq<u8>,
    new_lib_id: Seq<char>,
    unit: Option<u32>,
)
    requires
        replaceable(s, reference, old_id),
        unmarked(new_lib_id),
        unit is Some ==> plain_units(s, instance_blocks(s, reference)[0]),
    ensures
        ({
            let b = instance_blocks(s, reference)[0];
            let range = lib_id_range(s, reference)->Ok_0;
            let t = renamed_symbol(s, reference, range, new_lib_id, unit);
            let before = unit_text(s, reference, 0);
            let after = unit_text(t, reference, 0);
            let o = first_at(before, utf8("(lib_id \""@), 0)->0;
            &&& lib_id_range(s, reference) is Ok
            &&& s.subrange(range.0, range.1) == old_id
            &&& instance_blocks(t, reference).len() == instance_blocks(s, reference).len()
            &&& instance_blocks(t, reference)[0].0 == b.0
            &&& 0 <= b.0 <= s.len()
            &&& b.0 <= t.len()
            &&& t.subrange(0, b.0) == s.subrange(0, b.0)
            &&& names_symbol(after, utf8(new_lib_id))
            &&& unit matches Some(u) ==> all_numbered(after, utf8(decimal(u as nat)))
            &&& unit is None ==> renamed_at(before, after, old_id, utf8(new_lib_id), o)
        }),
{
    let all = instance_blocks(s, reference);
    let b = all[0];
    let id = utf8(new_lib_id);
    let before = unit_text(s, reference, 0);
    let o = first_at(before, utf8("(lib_id \""@), 0)->0;
    let h = b.0 + o;
    let e = h + naming(old_id).len();
    let named = spliced(s, h, e, naming(id));
    lemma_plain_bytes(new_lib_id);
    lemma_open();
    lemma_name_range(s, reference, old_id);
    lemma_named_anew(s, reference, old_id, id);
    assert(named.subrange(0, b.0) =~= s.subrange(0, b.0));
    lemma_units(named, reference);
    assert(unit_shaped(named, instance_blocks(named, reference)[0]));
    if let Some(u) = unit {
        assert(s[h] == 0x28) by {
            assert(s.subrange(h, e)[0] == s[h]);
            assert(naming(old_id)[0] == 0x28);
        }
        lemma_still_plain(s, h, e, id, b);
        lemma_units_set(named, reference, u as nat, id);
        lemma_units(unit_set(named, reference, u as nat), reference);
        assert(unit_shaped(
            unit_set(named, reference, u as nat),
            instance_blocks(unit_set(named, reference, u as nat), reference)[0],
        ));
    }
}

/// When a component was replaced its block names the new symbol, with a unit or
/// without. With a unit every unit number of the block is the one that was
/// asked for; without one nothing else in the block is changed. What is
/// reported as the former symbol is what the block named before.
pub proof fn law_replaced_names_the_symbol(
    s: Seq<u8>,
    reference: Seq<char>,
    old_id: Seq<u8>,
    new_lib_id: Seq<char>,
    unit: Option<u32>,
    lookup: SymbolLookup,
)
    requires
        replaced(s, reference, new_lib_id, unit, lookup) is Ok,
        replaceable(s, reference, old_id),
        unmarked(new_lib_id),
        unit is Some ==> plain_units(s, instance_blocks(s, reference)[0]),
        lookup.definition matches Some(def) ==> (section_before(
            s,
            instance_blocks(s, reference)[0].0,
        ) || room_before(s, instance_blocks(s, reference)[0].0)) && definition_fits(
            utf8(def@),
            reference,
        ),
    ensures
        ({
            let (t, was) = replaced(s, reference, new_lib_id, unit, lookup)->Ok_0;
            let before = unit_text(s, reference, 0);
            let after = unit_text(t, reference, 0);
            &&& instance_blocks(t, reference).len() == instance_blocks(s, reference).len()
            &&& was == old_id
            &&& names_symbol(after, utf8(new_lib_id))
            &&& unit matches Some(u) ==> all_numbered(after, utf8(decimal(u as nat)))
            &&& unit is None ==> exists|o: int| #[trigger]
                renamed_at(before, after, old_id, utf8(new_lib_id), o)
        }),
{
    let b = instance_blocks(s, reference)[0];
    lemma_swapped(s, reference, old_id, new_lib_id, unit);
    let range = lib_id_range(s, reference)->Ok_0;
    let swapped = renamed_symbol(s, reference, range, new_lib_id, unit);
    if !embeds(swapped, new_lib_id) {
        let def = utf8((lookup.definition->0)@);
        if section_before(s, b.0) {
            lemma_section_same(s, swapped, b.0);
            lemma_embedded_beside(swapped, reference, def);
        } else {
            lemma_still_no_section(s, reference, old_id, new_lib_id, unit);
            lemma_room_same(s, swapped, b.0);
            lemma_section_beside(swapped, reference, def);
        }
    }
}

// ── The other components ─────────────────────────────────────────────────────

/// What is put in or exchanged behind `a` leaves blocks on their side of `a`.
spec fn same_side(all: Seq<(int, int)>, now: Seq<(int, int)>, a: int) -> bool {
    &&& now.len() == all.len()
    &&& forall|k: int|
        0 <= k < all.len() ==> {
            &&& all[k].1 <= a ==> (#[trigger] now[k]).1 <= a
            &&& a <= all[k].0 ==> a <= now[k].0
        }
}

/// Edits behind `a`, beside the units of a component.
proof fn lemma_all_aside(s: Seq<u8>, other: Seq<char>, ws: Seq<Edit>, a: int)
    requires
        unmarked(other),
        in_line(ws),
        forall|i: int, j: int|
            0 <= i < j < ws.len() ==> (#[trigger] ws[i]).start < (#[trigger] ws[j]).start,
        forall|j: int|
            0 <= j < ws.len() ==> sound(s, #[trigger] ws[j], utf8(reference_property(other))) && a
                < ws[j].start,
        forall|j: int| 0 <= j < ws.len() ==> clear_of(instance_blocks(s, other), #[trigger] ws[j]),
    ensures
        same_side(
            instance_blocks(s, other),
            instance_blocks(rewritten(s, ws, 0), other),
            a,
        ),
    decreases ws.len(),
{
    if ws.len() > 0 {
        let n = ws.len() - 1;
        let l = ws[n];
        let p = utf8(reference_property(other));
        let s1 = spliced(s, l.start, l.end, l.text);
        let rest = ws.drop_last();
        let all = instance_blocks(s, other);
        let mid = instance_blocks(s1, other);
        assert(sound(s, ws[n], p));
        assert(clear_of(all, ws[n]));
        assert(0 <= ws[0].start);
        lemma_last_first(s, ws, 0);
        lemma_one_beside(s, other, l);
        lemma_units(s, other);
        assert forall|j: int| 0 <= j < rest.len() implies sound(s1, #[trigger] rest[j], p) && a
            < rest[j].start by {
            assert(ws[j].start < ws[n].start);
            assert(ws[j].end <= ws[n].start);
            assert(sound(s, ws[j], p) && a < ws[j].start);
            lemma_still_sound(s, ws[j], l, p);
        }
        assert forall|j: int| 0 <= j < rest.len() implies clear_of(mid, #[trigger] rest[j]) by {
            assert(ws[j].end <= ws[n].start);
            assert(clear_of(all, ws[j]));
            assert forall|k: int| 0 <= k < mid.len() implies (#[trigger] mid[k]).1 <= rest[j].start
                || rest[j].end <= mid[k].0 by {
                assert(unit_shaped(s, all[k]));
                assert(mid[k] == moved_block(all[k], l.start, l.text.len() - (l.end - l.start)));
                assert(all[k].1 <= ws[j].start || ws[j].end <= all[k].0);
                assert(all[k].1 <= l.start || l.end <= all[k].0);
            }
        }
        assert forall|i: int, j: int| 0 <= i < j < rest.len() implies (#[trigger] rest[i]).start < (
        #[trigger] rest[j]).start && rest[i].end <= rest[j].start by {
            assert(ws[i].start < ws[j].start);
        }
        assert forall|i: int| 0 <= i < rest.len() implies 0 <= (#[trigger] rest[i]).start
            <= rest[i].end by {
            assert(0 <= ws[i].start <= ws[i].end);
        }
        assert(same_side(all, mid, a)) by {
            assert forall|k: int| 0 <= k < all.len() implies {
                &&& all[k].1 <= a ==> (#[trigger] mid[k]).1 <= a
                &&& a <= all[k].0 ==> a <= mid[k].0
            } by {
                assert(unit_shaped(s, all[k]));
                assert(mid[k] == moved_block(all[k], l.start, l.text.len() - (l.end - l.start)));
                assert(all[k].1 <= l.start || l.end <= all[k].0);
            }
        }
        lemma_all_aside(s1, other, rest, a);
        let now = instance_blocks(rewritten(s, ws, 0), other);
        assert forall|k: int| 0 <= k < all.len() implies {
            &&& all[k].1 <= a ==> (#[trigger] now[k]).1 <= a
            &&& a <= all[k].0 ==> a <= now[k].0
        } by {
            assert(mid[k].1 <= a ==> now[k].1 <= a);
        }
    } else {
        assert(rewritten(s, ws, 0) =~= s);
    }
}

/// The units of another component in the schematic in which one was named anew.
proof fn lemma_beside_named(
    s: Seq<u8>,
    reference: Seq<char>,
    old_id: Seq<u8>,
    id: Seq<u8>,
    other: Seq<char>,
    a: int,
)
    requires
        replaceable(s, reference, old_id),
        plain(id),
        unmarked(other),
        apart(s, reference, other),
        a <= instance_blocks(s, reference)[0].0,
    ensures
        ({
            let b = instance_blocks(s, reference)[0];
            let o = first_at(unit_text(s, reference, 0), utf8("(lib_id \""@), 0)->0;
            let e = o + naming(old_id).len();
            let t = spliced(s, b.0 + o, b.0 + e, naming(id));
            let block = instance_blocks(t, reference)[0];
            &&& same_side(instance_blocks(s, other), instance_blocks(t, other), a)
            &&& forall|k: int|
                0 <= k < instance_blocks(s, other).len() ==> #[trigger] unit_text(t, other, k)
                    == unit_text(s, other, k)
            &&& forall|k: int|
                0 <= k < instance_blocks(t, other).len() ==> block.1 <= (
                #[trigger] instance_blocks(t, other)[k]).0 || instance_blocks(t, other)[k].1
                    <= block.0
        }),
{
    let b = instance_blocks(s, reference)[0];
    let o = first_at(unit_text(s, reference, 0), utf8("(lib_id \""@), 0)->0;
    let h = b.0 + o;
    let n = naming(id);
    let e = h + naming(old_id).len();
    let t = spliced(s, h, e, n);
    let by = n.len() - naming(old_id).len();
    let all = instance_blocks(s, other);
    let now = instance_blocks(t, other);
    lemma_name_range(s, reference, old_id);
    lemma_named_anew(s, reference, old_id, id);
    lemma_name_graft(s, h, old_id, id, other);
    lemma_property_exchange(other, other);
    lemma_graft_units(s, h, e, n, other);
    lemma_graft_bytes(s, h, e, n);
    lemma_units(s, other);
    assert forall|k: int| 0 <= k < all.len() implies {
        &&& #[trigger] now[k] == moved_block(all[k], h, by)
        &&& all[k].1 <= b.0 || b.1 <= all[k].0
        &&& unit_shaped(s, all[k])
    } by {
        assert(unit_shaped(s, all[k]));
        assert(b.1 <= all[k].0 || all[k].1 <= b.0);
    }
    assert forall|k: int| 0 <= k < all.len() implies #[trigger] unit_text(t, other, k) == unit_text(
        s,
        other,
        k,
    ) by {
        assert(now[k] == moved_block(all[k], h, by));
        assert(t.subrange(now[k].0, now[k].1) =~= s.subrange(all[k].0, all[k].1));
    }
}

/// The same, with its unit set.
proof fn lemma_beside_swapped(
    s: Seq<u8>,
    reference: Seq<char>,
    old_id: Seq<u8>,
    new_lib_id: Seq<char>,
    unit: Option<u32>,
    other: Seq<char>,
    a: int,
)
    requires
        replaceable(s, reference, old_id),
        unmarked(new_lib_id),
        unit is Some ==> plain_units(s, instance_blocks(s, reference)[0]),
        unmarked(other),
        apart(s, reference, other),
        a <= instance_blocks(s, reference)[0].0,
    ensures
        ({
            let range = lib_id_range(s, reference)->Ok_0;
            let t = renamed_symbol(s, reference, range, new_lib_id, unit);
            &&& same_side(instance_blocks(s, other), instance_blocks(t, other), a)
            &&& forall|k: int|
                0 <= k < instance_blocks(s, other).len() ==> #[trigger] unit_text(t, other, k)
                    == unit_text(s, other, k)
        }),
{
    let b = instance_blocks(s, reference)[0];
    let id = utf8(new_lib_id);
    let o = first_at(unit_text(s, reference, 0), utf8("(lib_id \""@), 0)->0;
    let h = b.0 + o;
    let e = h + naming(old_id).len();
    let named = spliced(s, h, e, naming(id));
    lemma_plain_bytes(new_lib_id);
    lemma_open();
    lemma_name_range(s, reference, old_id);
    lemma_named_anew(s, reference, old_id, id);
    lemma_beside_named(s, reference, old_id, id, other, a);
    if let Some(u) = unit {
        let number = utf8(decimal(u as nat));
        let text = unit_text(named, reference, 0);
        let block = instance_blocks(named, reference)[0];
        let ws = wide_number_edits(text, block.0, number);
        let beside = instance_blocks(named, other);
        let t = unit_set(named, reference, u as nat);
        assert(s[h] == 0x28) by {
            assert(s.subrange(h, e)[0] == s[h]);
            assert(naming(old_id)[0] == 0x28);
        }
        lemma_still_plain(s, h, e, id, b);
        lemma_number_edits(named, reference, u as nat);
        lemma_decimal_plain(u as nat);
        assert forall|j: int| 0 <= j < ws.len() implies {
            &&& sound(named, #[trigger] ws[j], utf8(reference_property(other)))
            &&& a < ws[j].start
            &&& clear_of(beside, ws[j])
        } by {
            lemma_number_edit(named, reference, number, other, j);
            assert forall|k: int| 0 <= k < beside.len() implies (#[trigger] beside[k]).1
                <= ws[j].start || ws[j].end <= beside[k].0 by {
                assert(block.1 <= beside[k].0 || beside[k].1 <= block.0);
            }
        }
        lemma_all_beside(named, other, ws);
        lemma_all_aside(named, other, ws, a);
        let all = instance_blocks(s, other);
        let now = instance_blocks(t, other);
        assert forall|k: int| 0 <= k < all.len() implies {
            &&& all[k].1 <= a ==> (#[trigger] now[k]).1 <= a
            &&& a <= all[k].0 ==> a <= now[k].0
        } by {
            assert(beside[k].1 <= a ==> now[k].1 <= a);
            assert(all[k].1 <= a ==> beside[k].1 <= a);
        }
        assert forall|k: int| 0 <= k < all.len() implies #[trigger] unit_text(t, other, k)
            == unit_text(s, other, k) by {
            assert(unit_text(t, other, k) == unit_text(named, other, k));
            assert(unit_text(named, other, k) == unit_text(s, other, k));
        }
    }
}

/// Replacing a component leaves the units of every other component as they
/// are, byte for byte and as many as they are, provided that they stand beside
/// the component's and beside the section for embedded definitions.
pub proof fn law_replacement_leaves_the_others(
    s: Seq<u8>,
    reference: Seq<char>,
    old_id: Seq<u8>,
    new_lib_id: Seq<char>,
    unit: Option<u32>,
    lookup: SymbolLookup,
    other: Seq<char>,
    k: int,
)
    requires
        replaced(s, reference, new_lib_id, unit, lookup) is Ok,
        replaceable(s, reference, old_id),
        unmarked(new_lib_id),
        unit is Some ==> plain_units(s, instance_blocks(s, reference)[0]),
        section_before(s, instance_blocks(s, reference)[0].0),
        lookup.definition matches Some(def) ==> definition_fits(utf8(def@), reference)
            && definition_fits(utf8(def@), other),
        unmarked(other),
        apart(s, reference, other),
        forall|j: int|
            0 <= j < instance_blocks(s, other).len() ==> (#[trigger] instance_blocks(s, other)[j]).1
                <= section_end(s) || section_end(s) <= instance_blocks(s, other)[j].0,
        0 <= k < instance_blocks(s, other).len(),
    ensures
        ({
            let t = (replaced(s, reference, new_lib_id, unit, lookup)->Ok_0).0;
            &&& instance_blocks(t, other).len() == instance_blocks(s, other).len()
            &&& unit_text(t, other, k) == unit_text(s, other, k)
        }),
{
    let b = instance_blocks(s, reference)[0];
    let h = section_end(s);
    lemma_swapped(s, reference, old_id, new_lib_id, unit);
    lemma_beside_swapped(s, reference, old_id, new_lib_id, unit, other, h);
    let range = lib_id_range(s, reference)->Ok_0;
    let x = renamed_symbol(s, reference, range, new_lib_id, unit);
    assert(unit_text(x, other, k) == unit_text(s, other, k));
    if !embeds(x, new_lib_id) {
        let def = utf8((lookup.definition->0)@);
        lemma_section_same(s, x, b.0);
        assert(instance_blocks(s, other)[k].1 <= h || h <= instance_blocks(s, other)[k].0);
        assert(instance_blocks(x, other)[k].1 <= h || h <= instance_blocks(x, other)[k].0);
        lemma_units(x, reference);
        assert(unit_shaped(x, instance_blocks(x, reference)[0]));
        lemma_definition_beside(x, other, def, k);
    }
}

/// A definition that is embedded beside a unit leaves the unit as it is.
proof fn lemma_definition_beside(x: Seq<u8>, other: Seq<char>, def: Seq<u8>, k: int)
    requires
        unmarked(other),
        section_before(x, x.len() as int),
        definition_fits(def, other),
        0 <= k < instance_blocks(x, other).len(),
        instance_blocks(x, other)[k].1 <= section_end(x) || section_end(x) <= instance_blocks(
            x,
            other,
        )[k].0,
    ensures
        ({
            let t = definition_added(x, def);
            &&& with_section(x) == x
            &&& instance_blocks(t, other).len() == instance_blocks(x, other).len()
            &&& unit_text(t, other, k) == unit_text(x, other, k)
        }),
{
    let h = section_end(x);
    let n = embedded_text(def);
    let t = spliced(x, h, h, n);
    let mid = instance_blocks(x, other);
    lemma_definition_graft(x, other, def);
    lemma_graft_bytes(x, h, h, n);
    lemma_property_exchange(other, other);
    lemma_graft_units(x, h, h, n, other);
    lemma_units(x, other);
    assert(unit_shaped(x, mid[k]));
    let now = instance_blocks(t, other);
    assert(now[k] == moved_block(mid[k], h, n.len() as int));
    assert(t.subrange(now[k].0, now[k].1) =~= x.subrange(mid[k].0, mid[k].1));
}

} // verus!
