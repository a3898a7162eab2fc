//! What putting components into a group does to their units.

use vstd::prelude::*;
use crate::carried::{
    absent, clear_of, differs_at, insertable, lemma_absent_joined, lemma_all_beside,
    lemma_mild_absent, lemma_of_property, lemma_sound_graft, lemma_still_sound, lemma_unit_edited,
    lemma_unit_edits_in_line, lemma_unit_end, lemma_unit_lex, lemma_units_edited,
    lemma_value_absent, sound, tame, unit_edits, unit_text, units_apart,
};
use crate::components::{group_edits, group_property, grouped, put_in_group, Grouping};
use crate::edit::{in_line, lemma_in_line_ordered, lemma_last_first, rewritten, Edit};
use crate::graft::{
    inside, leads, lemma_graft_bytes, lemma_graft_units, lemma_head_texts, lemma_joined,
    lemma_named, lib_head, low, moved_block, opens_at, outside, run, symbol_head, unmarked, whole,
};
use crate::properties::{lemma_units, unit_shaped};
use crate::rename::{lemma_property_exchange, lemma_property_parts};
use crate::scan::lex;
use crate::symbols::{instance_blocks, is_placed, law_instance_blocks_sound, reference_property};
use crate::text::{
    first_at, lemma_first_at, lemma_occurs, lemma_utf8_add, occurs, occurs_at, spliced, utf8,
};

verus! {

// ── The property of a group ──────────────────────────────────────────────────

/// A property that says which group a unit belongs to.
pub open spec fn in_group(group: Seq<char>) -> Seq<u8> {
    utf8("(property \"Group\" \""@ + group + "\""@)
}

spec fn group_rest() -> Seq<char> {
    "      (at 0 0 0)\n"@ + "      (effects (font "@ + "(size 1.27 1.27)) "@ + "(hide yes))\n"@
        + "    )\n    "@
}

proof fn lemma_group_parts(group: Seq<char>)
    ensures
        group_property(group) == "    (property \"Group\" \""@ + (group + "\"\n"@) + group_rest(),
        "    (property \"Group\" \""@ == "    "@ + "(property \"Group\" \""@,
{
    reveal_strlit("\"\n      (at 0 0 0)\n      (effects (font (size 1.27 1.27)) (hide yes))\n    )\n    ");
    reveal_strlit("\"\n");
    reveal_strlit("      (at 0 0 0)\n");
    reveal_strlit("      (effects (font ");
    reveal_strlit("(size 1.27 1.27)) ");
    reveal_strlit("(hide yes))\n");
    reveal_strlit("    )\n    ");
    reveal_strlit("    (property \"Group\" \"");
    reveal_strlit("    ");
    reveal_strlit("(property \"Group\" \"");
    assert("\"\n      (at 0 0 0)\n      (effects (font (size 1.27 1.27)) (hide yes))\n    )\n    "@
        =~= "\"\n"@ + group_rest());
    assert(group_property(group) =~= "    (property \"Group\" \""@ + (group + "\"\n"@)
        + group_rest());
    assert("    (property \"Group\" \""@ =~= "    "@ + "(property \"Group\" \""@);
}

proof fn lemma_group_head(d: int)
    ensures
        leads(outside(d), utf8("    (property \"Group\" \""@), inside(d + 1), d),
        leads(inside(d + 1), utf8("\"\n"@), outside(d + 1), d + 1),
{
    reveal_strlit("    (property \"Group\" \"");
    reveal_strlit("\"\n");
    vstd::utf8::is_ascii_chars_encode_utf8("    (property \"Group\" \""@);
    vstd::utf8::is_ascii_chars_encode_utf8("\"\n"@);
    reveal_with_fuel(run, 25);
    reveal_with_fuel(low, 25);
}

proof fn lemma_group_middle(d: int)
    ensures
        leads(outside(d + 1), utf8("      (at 0 0 0)\n"@), outside(d + 1), d),
        leads(outside(d + 1), utf8("      (effects (font "@), outside(d + 3), d),
{
    reveal_strlit("      (at 0 0 0)\n");
    reveal_strlit("      (effects (font ");
    vstd::utf8::is_ascii_chars_encode_utf8("      (at 0 0 0)\n"@);
    vstd::utf8::is_ascii_chars_encode_utf8("      (effects (font "@);
    reveal_with_fuel(run, 23);
    reveal_with_fuel(low, 23);
}

proof fn lemma_group_end(d: int)
    ensures
        leads(outside(d + 3), utf8("(size 1.27 1.27)) "@), outside(d + 2), d),
        leads(outside(d + 2), utf8("(hide yes))\n"@), outside(d + 1), d),
        leads(outside(d + 1), utf8("    )\n    "@), outside(d), d),
{
    reveal_strlit("(size 1.27 1.27)) ");
    reveal_strlit("(hide yes))\n");
    reveal_strlit("    )\n    ");
    vstd::utf8::is_ascii_chars_encode_utf8("(size 1.27 1.27)) "@);
    vstd::utf8::is_ascii_chars_encode_utf8("(hide yes))\n"@);
    vstd::utf8::is_ascii_chars_encode_utf8("    )\n    "@);
    reveal_with_fuel(run, 20);
    reveal_with_fuel(low, 20);
}

/// The property of a group is read as one list.
proof fn lemma_group_leads(d: int, group: Seq<char>)
    requires
        tame(group),
    ensures
        leads(outside(d), utf8(group_property(group)), outside(d), d),
{
    let o = outside(d);
    lemma_group_parts(group);
    lemma_group_head(d);
    lemma_group_middle(d);
    lemma_group_end(d);
    lemma_named(d + 1, group);
    lemma_joined(inside(d + 1), inside(d + 1), outside(d + 1), group, "\"\n"@, d + 1);
    let p1 = "    (property \"Group\" \""@;
    let p2 = p1 + (group + "\"\n"@);
    lemma_joined(o, inside(d + 1), outside(d + 1), p1, group + "\"\n"@, d);
    let q1 = "      (at 0 0 0)\n"@;
    let q2 = q1 + "      (effects (font "@;
    lemma_joined(outside(d + 1), outside(d + 1), outside(d + 3), q1, "      (effects (font "@, d);
    let q3 = q2 + "(size 1.27 1.27)) "@;
    lemma_joined(outside(d + 1), outside(d + 3), outside(d + 2), q2, "(size 1.27 1.27)) "@, d);
    let q4 = q3 + "(hide yes))\n"@;
    lemma_joined(outside(d + 1), outside(d + 2), outside(d + 1), q3, "(hide yes))\n"@, d);
    lemma_joined(outside(d + 1), outside(d + 1), o, q4, "    )\n    "@, d);
    lemma_joined(o, outside(d + 1), o, p2, group_rest(), d);
}

/// A search text that none of the literal parts of the property is.
spec fn unlike_group(p: Seq<u8>) -> bool {
    &&& p.len() > 11
    &&& p[0] == 0x28
    &&& p[1] == 0x70
    &&& p[11] == 0x52
}

proof fn lemma_group_rest_absent(p: Seq<u8>)
    requires
        p.len() > 2,
        p[0] == 0x28,
        p[1] == 0x70 || p[1] == 0x6c || (p[1] == 0x73 && p[2] == 0x79),
    ensures
        absent(utf8(group_rest()), p),
{
    let a = "      (at 0 0 0)\n"@;
    let b = "      (effects (font "@;
    let c = "(size 1.27 1.27)) "@;
    let e = "(hide yes))\n"@;
    let f = "    )\n    "@;
    reveal_strlit("      (at 0 0 0)\n");
    reveal_strlit("      (effects (font ");
    reveal_strlit("(size 1.27 1.27)) ");
    reveal_strlit("(hide yes))\n");
    reveal_strlit("    )\n    ");
    vstd::utf8::is_ascii_chars_encode_utf8(a);
    vstd::utf8::is_ascii_chars_encode_utf8(b);
    vstd::utf8::is_ascii_chars_encode_utf8(c);
    vstd::utf8::is_ascii_chars_encode_utf8(e);
    vstd::utf8::is_ascii_chars_encode_utf8(f);
    assert(p[1] != utf8(a)[7]);
    assert(differs_at(utf8(a), p, 6));
    assert(p[1] != utf8(b)[7]);
    assert(differs_at(utf8(b), p, 6));
    assert(p[1] != utf8(b)[16]);
    assert(differs_at(utf8(b), p, 15));
    assert(p[1] != utf8(c)[1] || p[2] != utf8(c)[2]);
    assert(differs_at(utf8(c), p, 0));
    assert(p[1] != utf8(e)[1]);
    assert(differs_at(utf8(e), p, 0));
    assert(absent(utf8(a), p));
    assert(absent(utf8(b), p));
    assert(absent(utf8(c), p));
    assert(absent(utf8(e), p));
    assert(absent(utf8(f), p));
    lemma_absent_joined(a, b, p);
    lemma_absent_joined(a + b, c, p);
    lemma_absent_joined(a + b + c, e, p);
    lemma_absent_joined(a + b + c + e, f, p);
}

proof fn lemma_group_absent(group: Seq<char>, p: Seq<u8>)
    requires
        tame(group),
        p == symbol_head() || p == lib_head() || unlike_group(p),
        absent(utf8(group) + seq![0x22u8], p),
    ensures
        absent(utf8(group_property(group)), p),
{
    let head = "    (property \"Group\" \""@;
    lemma_head_texts();
    reveal_strlit("    (property \"Group\" \"");
    vstd::utf8::is_ascii_chars_encode_utf8(head);
    let h = utf8(head);
    if unlike_group(p) {
        assert(p[11] != h[15]);
    } else {
        assert(p[1] != h[5]);
    }
    assert(differs_at(h, p, 4));
    assert(absent(h, p));
    lemma_value_absent(group, p);
    lemma_group_rest_absent(p);
    lemma_group_parts(group);
    lemma_absent_joined(head, group + "\"\n"@, p);
    lemma_absent_joined(head + (group + "\"\n"@), group_rest(), p);
}

/// The property of a group may be put in before a parenthesis.
proof fn lemma_group_insertable(group: Seq<char>, reference: Seq<char>)
    requires
        tame(group),
        unmarked(reference),
    ensures
        insertable(utf8(group_property(group)), utf8(reference_property(reference))),
        utf8(group_property(group))[0] == 0x20,
        occurs_at(utf8(group_property(group)), in_group(group), 4),
{
    let n = utf8(group_property(group));
    let p = utf8(reference_property(reference));
    assert forall|d: int| leads(#[trigger] outside(d), n, outside(d), d) by {
        lemma_group_leads(d, group);
    }
    lemma_head_texts();
    lemma_property_parts(reference);
    lemma_of_property(reference, reference);
    lemma_reference_bytes(reference);
    lemma_mild_absent(utf8(group), symbol_head());
    lemma_mild_absent(utf8(group), lib_head());
    lemma_mild_absent(utf8(group), p);
    lemma_group_absent(group, symbol_head());
    lemma_group_absent(group, lib_head());
    lemma_group_absent(group, p);
    lemma_group_bytes(group);
    assert(opens_at(n, 4));
}

/// The bytes with which the property of a group begins.
proof fn lemma_group_bytes(group: Seq<char>)
    ensures
        ({
            let n = utf8(group_property(group));
            &&& n.len() > 4
            &&& n[0] == 0x20 && n[1] == 0x20 && n[2] == 0x20 && n[3] == 0x20 && n[4] == 0x28
            &&& occurs_at(n, in_group(group), 4)
        }),
{
    let n = utf8(group_property(group));
    let a = "    "@;
    let b = "(property \"Group\" \""@ + group + "\""@;
    let c = "\n"@ + group_rest();
    lemma_group_parts(group);
    reveal_strlit("    ");
    reveal_strlit("(property \"Group\" \"");
    reveal_strlit("\"\n");
    reveal_strlit("\"");
    reveal_strlit("\n");
    vstd::utf8::is_ascii_chars_encode_utf8(a);
    vstd::utf8::is_ascii_chars_encode_utf8("(property \"Group\" \""@);
    assert("\"\n"@ =~= "\""@ + "\n"@);
    assert(group_property(group) =~= a + b + c);
    lemma_utf8_add(a + b, c);
    lemma_utf8_add(a, b);
    lemma_utf8_add("(property \"Group\" \""@, group + "\""@);
    assert(b =~= "(property \"Group\" \""@ + (group + "\""@));
    assert(n.subrange(4, 4int + utf8(b).len()) =~= utf8(b));
    assert(n[4] == utf8(b)[0]);
}

/// The byte by which a designator's property differs from that of a group.
proof fn lemma_reference_bytes(reference: Seq<char>)
    ensures
        unlike_group(utf8(reference_property(reference))),
{
    let a = "(property \"Reference\" \""@;
    reveal_strlit("(property \"Reference\" \"");
    vstd::utf8::is_ascii_chars_encode_utf8(a);
    lemma_utf8_add(a, reference);
    lemma_utf8_add(a + reference, "\""@);
    let p = utf8(reference_property(reference));
    assert(p[0] == utf8(a)[0] && p[1] == utf8(a)[1] && p[11] == utf8(a)[11]);
}

// ── One component ────────────────────────────────────────────────────────────

/// Where the property of a group goes in a unit.
pub open spec fn group_place(text: Seq<u8>) -> int {
    match first_at(text, utf8("(instances"@), 0) {
        Some(at) => at,
        None => text.len() - 1,
    }
}

/// The place is outside strings, and not directly behind an empty name of a
/// library's symbol.
pub open spec fn clear_place(text: Seq<u8>) -> bool {
    &&& !lex(text, 0, group_place(text)).quoted
    &&& !occurs_at(text, utf8("(lib_id"@), group_place(text) - 7)
}

/// The units of a component can be put into a group: they stand one behind the
/// other, and the place in each is clear.
pub open spec fn groupable(s: Seq<u8>, reference: Seq<char>) -> bool {
    &&& unmarked(reference)
    &&& units_apart(s, reference)
    &&& forall|k: int|
        0 <= k < instance_blocks(s, reference).len() ==> clear_place(
            #[trigger] unit_text(s, reference, k),
        )
}

/// A unit with the property of a group.
spec fn with_group(text: Seq<u8>, group: Seq<char>) -> Seq<u8> {
    let at = group_place(text);
    spliced(text, at, at, utf8(group_property(group)))
}

spec fn group_edit(s: Seq<u8>, b: (int, int), group: Seq<char>) -> Edit {
    let at = b.0 + group_place(s.subrange(b.0, b.1));
    Edit { start: at, end: at, text: utf8(group_property(group)) }
}

proof fn lemma_group_edits(s: Seq<u8>, blocks: Seq<(int, int)>, n: int, group: Seq<char>)
    requires
        0 <= n <= blocks.len(),
        forall|k: int| 0 <= k < n ==> 0 <= (#[trigger] blocks[k]).0 < blocks[k].1 <= s.len(),
    ensures
        group_edits(s, blocks, n, group).len() == n,
        forall|k: int|
            0 <= k < n ==> #[trigger] group_edits(s, blocks, n, group)[k] == group_edit(
                s,
                blocks[k],
                group,
            ),
    decreases n,
{
    if n > 0 {
        lemma_group_edits(s, blocks, n - 1, group);
        assert(0 <= blocks[n - 1].0 < blocks[n - 1].1 <= s.len());
    }
}

/// The place in a unit is inside it, at a parenthesis.
proof fn lemma_group_place(s: Seq<u8>, reference: Seq<char>, k: int)
    requires
        0 <= k < instance_blocks(s, reference).len(),
    ensures
        ({
            let b = instance_blocks(s, reference)[k];
            let text = unit_text(s, reference, k);
            let at = group_place(text);
            &&& unit_shaped(s, b)
            &&& 7 <= at < text.len()
            &&& s[b.0 + at] == 0x28 || s[b.0 + at] == 0x29
            &&& occurs_at(s, utf8("(lib_id"@), b.0 + at - 7) == occurs_at(
                text,
                utf8("(lib_id"@),
                at - 7,
            )
        }),
{
    let b = instance_blocks(s, reference)[k];
    let text = unit_text(s, reference, k);
    let at = group_place(text);
    let p = utf8("(instances"@);
    lemma_unit_end(s, reference, k);
    law_instance_blocks_sound(s, reference);
    lemma_head_texts();
    reveal_strlit("(instances");
    vstd::utf8::is_ascii_chars_encode_utf8("(instances"@);
    reveal_strlit("(lib_id");
    vstd::utf8::is_ascii_chars_encode_utf8("(lib_id"@);
    lemma_occurs(text, lib_head());
    assert(is_placed(s, b));
    let l = choose|l: int| occurs_at(text, lib_head(), l);
    assert(text.subrange(l, l + 8)[0] == text[l]);
    assert(text.subrange(l, l + 8)[1] == text[l + 1]);
    assert(text[0] == s[b.0] && text[1] == s[b.0 + 1]);
    assert(l > 0);
    assert(text.len() >= 9);
    lemma_first_at(text, p, 0);
    if let Some(f) = first_at(text, p, 0) {
        assert(text.subrange(f, f + 10)[0] == text[f]);
        assert(text.subrange(f, f + 10)[1] == text[f + 1]);
        crate::graft::lemma_start_text(s, b.0);
        assert(s.subrange(b.0, b.0 + 7) =~= symbol_head());
        if f < 7 {
            assert(text[f] == s.subrange(b.0, b.0 + 7)[f]);
        }
        assert(s[b.0 + f] == text[f]);
    } else {
        assert(s[b.0 + at] == s[b.1 - 1]);
    }
    assert(text.subrange(at - 7, at) =~= s.subrange(b.0 + at - 7, b.0 + at));
}

/// The edits that put the units of a component into a group.
proof fn lemma_group_sound(
    s: Seq<u8>,
    reference: Seq<char>,
    group: Seq<char>,
    other: Seq<char>,
    k: int,
)
    requires
        tame(group),
        groupable(s, reference),
        unmarked(other),
        0 <= k < instance_blocks(s, reference).len(),
    ensures
        ({
            let b = instance_blocks(s, reference)[k];
            let w = group_edit(s, b, group);
            &&& sound(s, w, utf8(reference_property(other)))
            &&& b.0 < w.start
            &&& w.end < b.1
        }),
{
    let text = unit_text(s, reference, k);
    lemma_group_place(s, reference, k);
    lemma_group_insertable(group, other);
    assert(clear_place(text));
    lemma_unit_lex(s, reference, k, group_place(text));
}

proof fn lemma_group_in_line(s: Seq<u8>, reference: Seq<char>, group: Seq<char>)
    requires
        tame(group),
        groupable(s, reference),
    ensures
        ({
            let all = instance_blocks(s, reference);
            let ws = group_edits(s, all, all.len() as int, group);
            let us = Seq::new(all.len(), |k: int| k);
            &&& ws.len() == all.len()
            &&& unit_edits(s, reference, ws, us)
            &&& in_line(ws)
            &&& put_in_group(s, reference, group) == rewritten(s, ws, 0)
            &&& forall|k: int|
                0 <= k < all.len() ==> #[trigger] ws[k] == group_edit(s, all[k], group)
            &&& forall|i: int, j: int|
                0 <= i < j < ws.len() ==> (#[trigger] ws[i]).start < (#[trigger] ws[j]).start
        }),
{
    let all = instance_blocks(s, reference);
    let n = all.len() as int;
    let ws = group_edits(s, all, n, group);
    let us = Seq::new(all.len(), |k: int| k);
    lemma_units(s, reference);
    assert forall|k: int| 0 <= k < n implies 0 <= (#[trigger] all[k]).0 < all[k].1 <= s.len() by {
        assert(unit_shaped(s, all[k]));
    }
    lemma_group_edits(s, all, n, group);
    assert forall|j: int| 0 <= j < ws.len() implies sound(
        s,
        #[trigger] ws[j],
        utf8(reference_property(reference)),
    ) && all[us[j]].0 < ws[j].start && ws[j].end < all[us[j]].1 by {
        lemma_group_sound(s, reference, group, reference, j);
    }
    lemma_unit_edits_in_line(s, reference, ws, us);
    lemma_in_line_ordered(ws);
    assert forall|i: int, j: int| 0 <= i < j < ws.len() implies (#[trigger] ws[i]).start < (
    #[trigger] ws[j]).start by {
        assert(all[us[i]].1 <= all[us[j]].0);
        assert(ws[i].end < all[us[i]].1);
    }
}

/// The units of a component that was put into a group.
proof fn lemma_put_in_group(s: Seq<u8>, reference: Seq<char>, group: Seq<char>)
    requires
        tame(group),
        groupable(s, reference),
    ensures
        ({
            let t = put_in_group(s, reference, group);
            let all = instance_blocks(s, reference);
            &&& instance_blocks(t, reference).len() == all.len()
            &&& units_apart(t, reference)
            &&& forall|k: int|
                0 <= k < all.len() ==> #[trigger] unit_text(t, reference, k) == with_group(
                    unit_text(s, reference, k),
                    group,
                )
        }),
{
    let t = put_in_group(s, reference, group);
    let all = instance_blocks(s, reference);
    let ws = group_edits(s, all, all.len() as int, group);
    let us = Seq::new(all.len(), |k: int| k);
    lemma_group_in_line(s, reference, group);
    lemma_units_edited(s, reference, ws, us);
    assert forall|k: int| 0 <= k < all.len() implies #[trigger] unit_text(t, reference, k)
        == with_group(unit_text(s, reference, k), group) by {
        lemma_unit_edited(s, reference, ws, us, k, 0, k);
        assert(us[k] == k);
        assert(ws[k] == group_edit(s, all[k], group));
    }
}

/// The units of two components stand beside each other.
pub open spec fn apart(s: Seq<u8>, a: Seq<char>, b: Seq<char>) -> bool {
    forall|i: int, j: int|
        0 <= i < instance_blocks(s, a).len() && 0 <= j < instance_blocks(s, b).len() ==> (
        #[trigger] instance_blocks(s, a)[i]).1 <= (#[trigger] instance_blocks(s, b)[j]).0
            || instance_blocks(s, b)[j].1 <= instance_blocks(s, a)[i].0
}

/// The units of another component stay as they are.
proof fn lemma_group_beside(
    s: Seq<u8>,
    reference: Seq<char>,
    group: Seq<char>,
    other: Seq<char>,
)
    requires
        tame(group),
        groupable(s, reference),
        unmarked(other),
        apart(s, reference, other),
    ensures
        ({
            let t = put_in_group(s, reference, group);
            &&& instance_blocks(t, other).len() == instance_blocks(s, other).len()
            &&& forall|k: int|
                0 <= k < instance_blocks(s, other).len() ==> #[trigger] unit_text(t, other, k)
                    == unit_text(s, other, k)
        }),
{
    let all = instance_blocks(s, reference);
    let beside = instance_blocks(s, other);
    let ws = group_edits(s, all, all.len() as int, group);
    lemma_group_in_line(s, reference, group);
    assert forall|j: int| 0 <= j < ws.len() implies sound(
        s,
        #[trigger] ws[j],
        utf8(reference_property(other)),
    ) && clear_of(beside, ws[j]) by {
        lemma_group_sound(s, reference, group, other, j);
        assert(ws[j] == group_edit(s, all[j], group));
        assert forall|k: int| 0 <= k < beside.len() implies (#[trigger] beside[k]).1 <= ws[j].start
            || ws[j].end <= beside[k].0 by {
            assert(all[j].1 <= beside[k].0 || beside[k].1 <= all[j].0);
        }
    }
    lemma_all_beside(s, other, ws);
}

/// What is put in keeps blocks in order that it does not cut.
proof fn lemma_order_kept(b: (int, int), c: (int, int), h: int, by: int)
    requires
        by >= 0,
        whole(b, h, h),
        whole(c, h, h),
        b.1 <= c.0,
    ensures
        moved_block(b, h, by).1 <= moved_block(c, h, by).0,
{
}

/// One text that is put in keeps units apart.
proof fn lemma_one_kept(s: Seq<u8>, a: Seq<char>, b: Seq<char>, w: Edit)
    requires
        unmarked(a),
        unmarked(b),
        w.start == w.end,
        sound(s, w, utf8(reference_property(a))),
        sound(s, w, utf8(reference_property(b))),
    ensures
        ({
            let t = spliced(s, w.start, w.end, w.text);
            &&& apart(s, a, b) ==> apart(t, a, b)
            &&& units_apart(s, a) ==> units_apart(t, a)
        }),
{
    let t = spliced(s, w.start, w.end, w.text);
    let by = w.text.len() as int;
    lemma_property_exchange(a, a);
    lemma_property_exchange(b, b);
    lemma_sound_graft(s, w, utf8(reference_property(a)));
    lemma_sound_graft(s, w, utf8(reference_property(b)));
    lemma_graft_units(s, w.start, w.end, w.text, a);
    lemma_graft_units(s, w.start, w.end, w.text, b);
    let x = instance_blocks(s, a);
    let y = instance_blocks(s, b);
    let u = instance_blocks(t, a);
    let v = instance_blocks(t, b);
    if apart(s, a, b) {
        assert forall|i: int, j: int| 0 <= i < u.len() && 0 <= j < v.len() implies (
        #[trigger] u[i]).1 <= (#[trigger] v[j]).0 || v[j].1 <= u[i].0 by {
            assert(x[i].1 <= y[j].0 || y[j].1 <= x[i].0);
            assert(u[i] == moved_block(x[i], w.start, by));
            assert(v[j] == moved_block(y[j], w.start, by));
            if x[i].1 <= y[j].0 {
                lemma_order_kept(x[i], y[j], w.start, by);
            } else {
                lemma_order_kept(y[j], x[i], w.start, by);
            }
        }
    }
    if units_apart(s, a) {
        assert forall|i: int, j: int| 0 <= i < j < u.len() implies (#[trigger] u[i]).1 <= (
        #[trigger] u[j]).0 by {
            assert(x[i].1 <= x[j].0);
            assert(u[i] == moved_block(x[i], w.start, by));
            assert(u[j] == moved_block(x[j], w.start, by));
            lemma_order_kept(x[i], x[j], w.start, by);
        }
    }
}

/// So do any number of them.
proof fn lemma_all_kept(s: Seq<u8>, a: Seq<char>, b: Seq<char>, ws: Seq<Edit>)
    requires
        unmarked(a),
        unmarked(b),
        in_line(ws),
        forall|i: int, j: int|
            0 <= i < j < ws.len() ==> (#[trigger] ws[i]).start < (#[trigger] ws[j]).start,
        forall|j: int| 0 <= j < ws.len() ==> (#[trigger] ws[j]).start == ws[j].end,
        forall|j: int|
            0 <= j < ws.len() ==> sound(s, #[trigger] ws[j], utf8(reference_property(a)))
                && sound(s, ws[j], utf8(reference_property(b))),
    ensures
        ({
            let t = rewritten(s, ws, 0);
            &&& apart(s, a, b) ==> apart(t, a, b)
            &&& units_apart(s, a) ==> units_apart(t, a)
        }),
    decreases ws.len(),
{
    if ws.len() > 0 {
        let n = ws.len() - 1;
        let l = ws[n];
        let s1 = spliced(s, l.start, l.end, l.text);
        let rest = ws.drop_last();
        assert(0 <= ws[0].start);
        assert(sound(s, ws[n], utf8(reference_property(a))));
        lemma_last_first(s, ws, 0);
        lemma_one_kept(s, a, b, l);
        assert forall|j: int| 0 <= j < rest.len() implies sound(
            s1,
            #[trigger] rest[j],
            utf8(reference_property(a)),
        ) && sound(s1, rest[j], utf8(reference_property(b))) by {
            assert(ws[j].start < ws[n].start);
            assert(ws[j].end <= ws[n].start);
            lemma_still_sound(s, ws[j], l, utf8(reference_property(a)));
            lemma_still_sound(s, ws[j], l, utf8(reference_property(b)));
        }
        assert forall|i: int, j: int| 0 <= i < j < rest.len() implies (#[trigger] rest[i]).start < (
        #[trigger] rest[j]).start && rest[i].end <= rest[j].start by {
            assert(ws[i].start < ws[j].start);
        }
        assert forall|j: int| 0 <= j < rest.len() implies (#[trigger] rest[j]).start == rest[j].end
            && 0 <= rest[j].start by {
            assert(ws[j].start == ws[j].end);
        }
        lemma_all_kept(s1, a, b, rest);
    } else {
        assert(rewritten(s, ws, 0) =~= s);
    }
}

/// Putting a component into a group keeps units apart.
proof fn lemma_group_keeps(
    s: Seq<u8>,
    reference: Seq<char>,
    group: Seq<char>,
    a: Seq<char>,
    b: Seq<char>,
)
    requires
        tame(group),
        groupable(s, reference),
        unmarked(a),
        unmarked(b),
    ensures
        apart(s, a, b) ==> apart(put_in_group(s, reference, group), a, b),
        units_apart(s, a) ==> units_apart(put_in_group(s, reference, group), a),
{
    let all = instance_blocks(s, reference);
    let ws = group_edits(s, all, all.len() as int, group);
    lemma_group_in_line(s, reference, group);
    assert forall|j: int| 0 <= j < ws.len() implies sound(
        s,
        #[trigger] ws[j],
        utf8(reference_property(a)),
    ) && sound(s, ws[j], utf8(reference_property(b))) && ws[j].start == ws[j].end by {
        lemma_group_sound(s, reference, group, a, j);
        lemma_group_sound(s, reference, group, b, j);
        assert(ws[j] == group_edit(s, all[j], group));
    }
    lemma_all_kept(s, a, b, ws);
}

// ── Several components ───────────────────────────────────────────────────────

/// Components can be put into a group: no designator is listed twice, and
/// their units stand beside each other.
pub open spec fn all_groupable(s: Seq<u8>, refs: Seq<Seq<char>>) -> bool {
    &&& forall|i: int| 0 <= i < refs.len() ==> groupable(s, #[trigger] refs[i])
    &&& forall|i: int, j: int|
        0 <= i < refs.len() && 0 <= j < refs.len() && i != j ==> #[trigger] refs[i]
            != #[trigger] refs[j] && apart(s, refs[i], refs[j])
}

/// A unit in `s` and the same unit in `t`, which belongs to a group now, or does
/// not yet.
spec fn unit_went(s: Seq<u8>, t: Seq<u8>, r: Seq<char>, k: int, group: Seq<char>, done: bool) -> bool {
    unit_text(t, r, k) == if done {
        with_group(unit_text(s, r, k), group)
    } else {
        unit_text(s, r, k)
    }
}

spec fn component_went(s: Seq<u8>, t: Seq<u8>, r: Seq<char>, group: Seq<char>, done: bool) -> bool {
    &&& instance_blocks(t, r).len() == instance_blocks(s, r).len()
    &&& units_apart(t, r)
    &&& forall|k: int|
        0 <= k < instance_blocks(s, r).len() ==> #[trigger] unit_went(s, t, r, k, group, done)
}

/// What became of the units once the first `n` components were grouped.
proof fn lemma_grouped_units(s: Seq<u8>, refs: Seq<Seq<char>>, group: Seq<char>, n: int)
    requires
        tame(group),
        all_groupable(s, refs),
        0 <= n <= refs.len(),
        grouped(s, refs, group, n) is Ok,
    ensures
        ({
            let t = (grouped(s, refs, group, n)->Ok_0).content;
            &&& forall|i: int|
                0 <= i < refs.len() ==> component_went(s, t, #[trigger] refs[i], group, i < n)
            &&& forall|i: int, j: int|
                0 <= i < refs.len() && 0 <= j < refs.len() && i != j ==> apart(
                    t,
                    #[trigger] refs[i],
                    #[trigger] refs[j],
                )
        }),
    decreases n,
{
    let t = (grouped(s, refs, group, n)->Ok_0).content;
    if n == 0 {
        assert forall|i: int| 0 <= i < refs.len() implies component_went(
            s,
            t,
            #[trigger] refs[i],
            group,
            false,
        ) by {
            assert(groupable(s, refs[i]));
        }
    } else {
        let c = (grouped(s, refs, group, n - 1)->Ok_0).content;
        let r = refs[n - 1];
        lemma_grouped_units(s, refs, group, n - 1);
        assert(component_went(s, c, r, group, false));
        if instance_blocks(c, r).len() == 0 {
            assert(t == c);
            assert forall|i: int| 0 <= i < refs.len() implies component_went(
                s,
                t,
                #[trigger] refs[i],
                group,
                i < n,
            ) by {
                assert(component_went(s, c, refs[i], group, i < n - 1));
            }
        } else {
            assert(t == put_in_group(c, r, group));
            assert(groupable(c, r)) by {
                assert(groupable(s, r));
                assert forall|k: int| 0 <= k < instance_blocks(c, r).len() implies clear_place(
                    #[trigger] unit_text(c, r, k),
                ) by {
                    assert(unit_went(s, c, r, k, group, false));
                    assert(clear_place(unit_text(s, r, k)));
                }
            }
            lemma_group_step(s, c, refs, group, n);
        }
    }
}

/// One more component is put into the group.
proof fn lemma_group_step(
    s: Seq<u8>,
    c: Seq<u8>,
    refs: Seq<Seq<char>>,
    group: Seq<char>,
    n: int,
)
    requires
        tame(group),
        all_groupable(s, refs),
        0 < n <= refs.len(),
        groupable(c, refs[n - 1]),
        forall|i: int|
            0 <= i < refs.len() ==> component_went(s, c, #[trigger] refs[i], group, i < n - 1),
        forall|i: int, j: int|
            0 <= i < refs.len() && 0 <= j < refs.len() && i != j ==> apart(
                c,
                #[trigger] refs[i],
                #[trigger] refs[j],
            ),
    ensures
        ({
            let t = put_in_group(c, refs[n - 1], group);
            &&& forall|i: int|
                0 <= i < refs.len() ==> component_went(s, t, #[trigger] refs[i], group, i < n)
            &&& forall|i: int, j: int|
                0 <= i < refs.len() && 0 <= j < refs.len() && i != j ==> apart(
                    t,
                    #[trigger] refs[i],
                    #[trigger] refs[j],
                )
        }),
{
    let r = refs[n - 1];
    let t = put_in_group(c, r, group);
    assert forall|i: int| 0 <= i < refs.len() implies component_went(
        s,
        t,
        #[trigger] refs[i],
        group,
        i < n,
    ) by {
        let x = refs[i];
        assert(component_went(s, c, x, group, i < n - 1));
        assert(groupable(s, x));
        if i == n - 1 {
            lemma_put_in_group(c, r, group);
            assert forall|k: int| 0 <= k < instance_blocks(s, x).len() implies #[trigger] unit_went(
                s,
                t,
                x,
                k,
                group,
                true,
            ) by {
                assert(unit_went(s, c, x, k, group, false));
                assert(unit_text(t, x, k) == with_group(unit_text(c, x, k), group));
            }
        } else {
            assert(apart(c, refs[n - 1], refs[i]));
            lemma_group_beside(c, r, group, x);
            lemma_group_keeps(c, r, group, x, x);
            let done = i < n - 1;
            assert forall|k: int| 0 <= k < instance_blocks(s, x).len() implies #[trigger] unit_went(
                s,
                t,
                x,
                k,
                group,
                done,
            ) by {
                assert(unit_went(s, c, x, k, group, done));
                assert(unit_text(t, x, k) == unit_text(c, x, k));
            }
        }
    }
    assert forall|i: int, j: int|
        0 <= i < refs.len() && 0 <= j < refs.len() && i != j implies apart(
        t,
        #[trigger] refs[i],
        #[trigger] refs[j],
    ) by {
        assert(groupable(s, refs[i]));
        assert(groupable(s, refs[j]));
        lemma_group_keeps(c, r, group, refs[i], refs[j]);
    }
}

/// One text is another with something put in at a place.
pub open spec fn put_in_at(before: Seq<u8>, after: Seq<u8>, what: Seq<u8>, at: int) -> bool {
    0 <= at <= before.len() && after == spliced(before, at, at, what)
}

/// Once components were grouped, every unit of every one of them carries the
/// property with the group's name, wherever the component stood in the list,
/// and has lost nothing. The units are as many as they were.
pub proof fn law_grouped_units_carry_the_group(
    s: Seq<u8>,
    refs: Seq<Seq<char>>,
    group: Seq<char>,
    i: int,
    k: int,
)
    requires
        tame(group),
        all_groupable(s, refs),
        grouped(s, refs, group, refs.len() as int) is Ok,
        0 <= i < refs.len(),
        0 <= k < instance_blocks(s, refs[i]).len(),
    ensures
        ({
            let t = (grouped(s, refs, group, refs.len() as int)->Ok_0).content;
            let before = unit_text(s, refs[i], k);
            let after = unit_text(t, refs[i], k);
            &&& instance_blocks(t, refs[i]).len() == instance_blocks(s, refs[i]).len()
            &&& occurs(after, in_group(group))
            &&& exists|what: Seq<u8>, at: int| #[trigger] put_in_at(before, after, what, at)
        }),
{
    let t = (grouped(s, refs, group, refs.len() as int)->Ok_0).content;
    let r = refs[i];
    let before = unit_text(s, r, k);
    let after = unit_text(t, r, k);
    let what = utf8(group_property(group));
    let at = group_place(before);
    lemma_grouped_units(s, refs, group, refs.len() as int);
    assert(component_went(s, t, r, group, true));
    assert(unit_went(s, t, r, k, group, true));
    lemma_group_place(s, r, k);
    lemma_group_bytes(group);
    lemma_graft_bytes(before, at, at, what);
    assert(put_in_at(before, after, what, at));
    assert(after.subrange(at + 4, at + 4 + in_group(group).len()) =~= what.subrange(
        4,
        4int + in_group(group).len(),
    ));
    assert(occurs_at(after, in_group(group), at + 4));
    lemma_occurs(after, in_group(group));
}

/// Grouping components leaves the units of every other component as they are,
/// byte for byte.
pub proof fn law_grouping_leaves_the_others(
    s: Seq<u8>,
    refs: Seq<Seq<char>>,
    group: Seq<char>,
    other: Seq<char>,
    k: int,
)
    requires
        tame(group),
        all_groupable(s, refs.push(other)),
        grouped(s, refs, group, refs.len() as int) is Ok,
        0 <= k < instance_blocks(s, other).len(),
    ensures
        ({
            let t = (grouped(s, refs, group, refs.len() as int)->Ok_0).content;
            &&& instance_blocks(t, other).len() == instance_blocks(s, other).len()
            &&& unit_text(t, other, k) == unit_text(s, other, k)
        }),
{
    let all = refs.push(other);
    let n = refs.len() as int;
    let t = (grouped(s, refs, group, n)->Ok_0).content;
    lemma_grouped_prefix(s, refs, all, group, n);
    lemma_grouped_units(s, all, group, n);
    assert(component_went(s, t, all[n], group, false));
    assert(unit_went(s, t, other, k, group, false));
}

proof fn lemma_grouped_prefix(
    s: Seq<u8>,
    refs: Seq<Seq<char>>,
    all: Seq<Seq<char>>,
    group: Seq<char>,
    n: int,
)
    requires
        n <= refs.len() <= all.len(),
        forall|i: int| 0 <= i < refs.len() ==> #[trigger] all[i] == refs[i],
    ensures
        grouped(s, all, group, n) == grouped(s, refs, group, n),
    decreases n,
{
    if n > 0 {
        lemma_grouped_prefix(s, refs, all, group, n - 1);
        assert(all[n - 1] == refs[n - 1]);
    }
}

/// Grouping some components and others is grouping the others in the schematic
/// in which the first are grouped. Those that are listed as grouped are listed
/// in that order.
pub proof fn law_grouping_goes_on(
    s: Seq<u8>,
    first: Seq<Seq<char>>,
    rest: Seq<Seq<char>>,
    group: Seq<char>,
)
    requires
        grouped(s, first + rest, group, (first + rest).len() as int) is Ok,
        grouped(s, first, group, first.len() as int) matches Ok(g) && grouped(
            g.content,
            rest,
            group,
            rest.len() as int,
        ) is Ok,
    ensures
        ({
            let whole = grouped(s, first + rest, group, (first + rest).len() as int)->Ok_0;
            let a = grouped(s, first, group, first.len() as int)->Ok_0;
            let b = grouped(a.content, rest, group, rest.len() as int)->Ok_0;
            &&& whole.content == b.content
            &&& whole.grouped == a.grouped + b.grouped
        }),
{
    lemma_grouping_goes_on(s, first, rest, group, rest.len() as int);
}

proof fn lemma_grouping_goes_on(
    s: Seq<u8>,
    first: Seq<Seq<char>>,
    rest: Seq<Seq<char>>,
    group: Seq<char>,
    n: int,
)
    requires
        0 <= n <= rest.len(),
        grouped(s, first + rest, group, first.len() + n) is Ok,
        grouped(s, first, group, first.len() as int) matches Ok(g) && grouped(
            g.content,
            rest,
            group,
            n,
        ) is Ok,
    ensures
        ({
            let whole = grouped(s, first + rest, group, first.len() + n)->Ok_0;
            let a = grouped(s, first, group, first.len() as int)->Ok_0;
            let b = grouped(a.content, rest, group, n)->Ok_0;
            &&& whole.content == b.content
            &&& whole.grouped == a.grouped + b.grouped
        }),
    decreases n,
{
    let a = grouped(s, first, group, first.len() as int)->Ok_0;
    if n == 0 {
        lemma_grouped_prefix(s, first, first + rest, group, first.len() as int);
        assert(a.grouped + Seq::<Seq<char>>::empty() =~= a.grouped);
    } else {
        lemma_grouping_goes_on(s, first, rest, group, n - 1);
        let one = grouped(s, first + rest, group, first.len() + n - 1)->Ok_0;
        let two = grouped(a.content, rest, group, n - 1)->Ok_0;
        assert((first + rest)[first.len() + n - 1] == rest[n - 1]);
        let whole = grouped(s, first + rest, group, first.len() + n)->Ok_0;
        let b = grouped(a.content, rest, group, n)->Ok_0;
        assert(whole.grouped =~= a.grouped + b.grouped);
    }
}

/// A component is listed as grouped exactly where it was asked for and a
/// symbol bears its designator.
pub proof fn law_grouped_are_those_found(s: Seq<u8>, refs: Seq<Seq<char>>, group: Seq<char>)
    requires
        tame(group),
        all_groupable(s, refs),
        grouped(s, refs, group, refs.len() as int) is Ok,
    ensures
        forall|r: Seq<char>|
            #[trigger] (grouped(s, refs, group, refs.len() as int)->Ok_0).grouped.contains(r)
                <==> refs.contains(r) && instance_blocks(s, r).len() > 0,
{
    lemma_grouped_found(s, refs, group, refs.len() as int);
    let g = grouped(s, refs, group, refs.len() as int)->Ok_0;
    assert forall|r: Seq<char>| #[trigger] g.grouped.contains(r) <==> refs.contains(r)
        && instance_blocks(s, r).len() > 0 by {
        if refs.contains(r) && instance_blocks(s, r).len() > 0 {
            let i = choose|i: int| 0 <= i < refs.len() && refs[i] == r;
            assert(listed_among(refs, i, r));
        }
        if g.grouped.contains(r) {
            let i = choose|i: int| 0 <= i < refs.len() && #[trigger] listed_among(refs, i, r);
            assert(refs[i] == r);
        }
    }
}

spec fn listed_among(refs: Seq<Seq<char>>, i: int, r: Seq<char>) -> bool {
    refs[i] == r
}

proof fn lemma_grouped_found(s: Seq<u8>, refs: Seq<Seq<char>>, group: Seq<char>, n: int)
    requires
        tame(group),
        all_groupable(s, refs),
        0 <= n <= refs.len(),
        grouped(s, refs, group, n) is Ok,
    ensures
        forall|r: Seq<char>|
            #[trigger] (grouped(s, refs, group, n)->Ok_0).grouped.contains(r) <==> instance_blocks(
                s,
                r,
            ).len() > 0 && exists|i: int| 0 <= i < n && #[trigger] listed_among(refs, i, r),
    decreases n,
{
    if n > 0 {
        lemma_grouped_found(s, refs, group, n - 1);
        lemma_grouped_units(s, refs, group, n - 1);
        let before = grouped(s, refs, group, n - 1)->Ok_0;
        let now = grouped(s, refs, group, n)->Ok_0;
        let x = refs[n - 1];
        assert(component_went(s, before.content, x, group, false));
        assert(listed_among(refs, n - 1, x));
        assert forall|r: Seq<char>| #[trigger] now.grouped.contains(r) <==> instance_blocks(
            s,
            r,
        ).len() > 0 && exists|i: int| 0 <= i < n && #[trigger] listed_among(refs, i, r) by {
            if instance_blocks(s, x).len() > 0 {
                assert(now.grouped == before.grouped.push(x));
                assert(now.grouped.last() == x);
                if before.grouped.contains(r) {
                    let m = choose|m: int|
                        0 <= m < before.grouped.len() && before.grouped[m] == r;
                    assert(now.grouped[m] == r);
                }
                if now.grouped.contains(r) && r != x {
                    let m = choose|m: int| 0 <= m < now.grouped.len() && now.grouped[m] == r;
                    assert(before.grouped[m] == r);
                }
            } else {
                assert(now.grouped == before.grouped);
            }
            assert(before.grouped.contains(r) <==> instance_blocks(s, r).len() > 0 && exists|i: int|
                0 <= i < n - 1 && #[trigger] listed_among(refs, i, r));
            if exists|i: int| 0 <= i < n && #[trigger] listed_among(refs, i, r) {
                let i = choose|i: int| 0 <= i < n && #[trigger] listed_among(refs, i, r);
                if i < n - 1 {
                    assert(listed_among(refs, i, r));
                }
            }
        }
    }
}

} // verus!
