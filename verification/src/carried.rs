//! What the units of a component hold after a field was set on them.

use vstd::prelude::*;
use crate::components::annotated;
use crate::edit::{
    edited, in_line, lemma_in_line_ordered, lemma_last_first, lemma_undone, lemma_widened,
    lengthened, rewritten, widens, Edit,
};
use crate::graft::{
    clean, free, graftable, inside, leads, lemma_escaped, lemma_graft_bytes, lemma_graft_occurs,
    lemma_graft_reads, lemma_graft_units, lemma_head_texts, lemma_joined, lemma_low, lemma_named,
    lemma_quiet, lemma_run_lex, lemma_run_second, lemma_stops, lemma_unmarked, lib_head, low,
    moved_block, opens_at, outside, run, solo, steps_in, symbol_head, unmarked,
};
use crate::node::{parsed, past_blanks};
use crate::numeral::PointText;
use crate::properties::{
    add_edit, carries, field_changed, field_edits, holds, lemma_first_fault, lemma_units,
    new_property, property_added, property_indent, property_set, property_start, unit_fault,
    unit_shaped, value_edit, value_end, value_replaced, value_start, Reach,
};
use crate::quote::escaped;
use crate::rename::{
    differ, lemma_differ, lemma_plain_bytes, lemma_property_exchange, lemma_property_parts,
};
use crate::scan::{
    lemma_block_end, lemma_lex_compose, lemma_lex_same, lemma_lex_within, lemma_unquoted, lex,
    lex_step,
};
use crate::symbols::{
    instance_block, instance_blocks, law_instance_blocks_in_order, law_instance_blocks_sound,
    reference_property, unnested,
};
use crate::text::{
    first_at, lemma_byte_absent, lemma_chars, lemma_first_at, lemma_occurs, lemma_one_byte,
    lemma_utf8_add, occurs, occurs_at, spliced, utf8,
};

verus! {

// ── Reading a property that is put in ────────────────────────────────────────

/// How the marks of the literal parts of a property are read.
proof fn lemma_heads(d: int)
    ensures
        leads(outside(d), utf8("\n"@), outside(d), d),
        leads(outside(d), utf8("(property \""@), inside(d + 1), d),
        leads(inside(d), utf8("\" \""@), inside(d), d),
        leads(inside(d), utf8("\"\n"@), outside(d), d),
        leads(outside(d), utf8("\t(at "@), outside(d + 1), d),
        leads(outside(d), utf8(" "@), outside(d), d),
{
    reveal_strlit("\n");
    reveal_strlit("(property \"");
    reveal_strlit("\" \"");
    reveal_strlit("\"\n");
    reveal_strlit("\t(at ");
    reveal_strlit(" ");
    vstd::utf8::is_ascii_chars_encode_utf8("\n"@);
    vstd::utf8::is_ascii_chars_encode_utf8("(property \""@);
    vstd::utf8::is_ascii_chars_encode_utf8("\" \""@);
    vstd::utf8::is_ascii_chars_encode_utf8("\"\n"@);
    vstd::utf8::is_ascii_chars_encode_utf8("\t(at "@);
    vstd::utf8::is_ascii_chars_encode_utf8(" "@);
    reveal_with_fuel(run, 12);
    reveal_with_fuel(low, 12);
}

/// How the rest of a property is read.
proof fn lemma_tails(d: int)
    ensures
        leads(outside(d + 1), utf8(" 0)\n"@), outside(d), d),
        leads(outside(d), utf8("\t(hide yes)\n"@), outside(d), d),
        leads(outside(d), utf8("\t(effects\n"@), outside(d + 1), d),
        leads(outside(d), utf8("\t\t(font\n"@), outside(d + 1), d),
        leads(outside(d + 1), utf8("\t\t)\n"@), outside(d), d),
        leads(outside(d + 1), utf8("\t)\n"@), outside(d), d),
        leads(outside(d + 1), utf8(")"@), outside(d), d),
{
    reveal_strlit(" 0)\n");
    reveal_strlit("\t(hide yes)\n");
    reveal_strlit("\t(effects\n");
    reveal_strlit("\t\t(font\n");
    reveal_strlit("\t\t)\n");
    reveal_strlit("\t)\n");
    reveal_strlit(")");
    vstd::utf8::is_ascii_chars_encode_utf8(" 0)\n"@);
    vstd::utf8::is_ascii_chars_encode_utf8("\t(hide yes)\n"@);
    vstd::utf8::is_ascii_chars_encode_utf8("\t(effects\n"@);
    vstd::utf8::is_ascii_chars_encode_utf8("\t\t(font\n"@);
    vstd::utf8::is_ascii_chars_encode_utf8("\t\t)\n"@);
    vstd::utf8::is_ascii_chars_encode_utf8("\t)\n"@);
    vstd::utf8::is_ascii_chars_encode_utf8(")"@);
    reveal_with_fuel(run, 13);
    reveal_with_fuel(low, 13);
}

proof fn lemma_size(d: int)
    ensures
        leads(outside(d), utf8("\t\t\t(size 1.27 1.27)\n"@), outside(d), d),
{
    reveal_strlit("\t\t\t(size 1.27 1.27)\n");
    vstd::utf8::is_ascii_chars_encode_utf8("\t\t\t(size 1.27 1.27)\n"@);
    reveal_with_fuel(run, 22);
    reveal_with_fuel(low, 22);
}

/// A new property is read as one list: it ends at the depth at which it began.
proof fn lemma_new_property(
    d: int,
    indent: Seq<char>,
    name: Seq<char>,
    value: Seq<char>,
    x: Seq<char>,
    y: Seq<char>,
)
    requires
        unmarked(indent),
        unmarked(x),
        unmarked(y),
        !name.contains('"'),
        !name.contains('\\'),
    ensures
        leads(outside(d), utf8(new_property(indent, name, value, x, y)), outside(d), d),
{
    let o = outside(d);
    lemma_heads(d);
    lemma_heads(d + 1);
    lemma_heads(d + 2);
    lemma_tails(d);
    lemma_tails(d + 1);
    lemma_tails(d + 2);
    lemma_size(d + 3);
    lemma_unmarked(d, indent);
    lemma_unmarked(d + 1, indent);
    lemma_unmarked(d + 2, indent);
    lemma_unmarked(d + 3, indent);
    lemma_unmarked(d + 2, x);
    lemma_unmarked(d + 2, y);
    lemma_named(d + 1, name);
    lemma_escaped(d + 1, value);
    let p1 = "\n"@;
    let p2 = p1 + indent;
    lemma_joined(o, o, o, p1, indent, d);
    let p3 = p2 + "(property \""@;
    lemma_joined(o, o, inside(d + 1), p2, "(property \""@, d);
    let p4 = p3 + name;
    lemma_joined(o, inside(d + 1), inside(d + 1), p3, name, d);
    let p5 = p4 + "\" \""@;
    lemma_joined(o, inside(d + 1), inside(d + 1), p4, "\" \""@, d);
    let p6 = p5 + escaped(value, false);
    lemma_joined(o, inside(d + 1), inside(d + 1), p5, escaped(value, false), d);
    let p7 = p6 + "\"\n"@;
    lemma_joined(o, inside(d + 1), outside(d + 1), p6, "\"\n"@, d);
    let p8 = p7 + indent;
    lemma_joined(o, outside(d + 1), outside(d + 1), p7, indent, d);
    let p9 = p8 + "\t(at "@;
    lemma_joined(o, outside(d + 1), outside(d + 2), p8, "\t(at "@, d);
    let p10 = p9 + x;
    lemma_joined(o, outside(d + 2), outside(d + 2), p9, x, d);
    let p11 = p10 + " "@;
    lemma_joined(o, outside(d + 2), outside(d + 2), p10, " "@, d);
    let p12 = p11 + y;
    lemma_joined(o, outside(d + 2), outside(d + 2), p11, y, d);
    let p13 = p12 + " 0)\n"@;
    lemma_joined(o, outside(d + 2), outside(d + 1), p12, " 0)\n"@, d);
    let p14 = p13 + indent;
    lemma_joined(o, outside(d + 1), outside(d + 1), p13, indent, d);
    let p15 = p14 + "\t(hide yes)\n"@;
    lemma_joined(o, outside(d + 1), outside(d + 1), p14, "\t(hide yes)\n"@, d);
    let p16 = p15 + indent;
    lemma_joined(o, outside(d + 1), outside(d + 1), p15, indent, d);
    let p17 = p16 + "\t(effects\n"@;
    lemma_joined(o, outside(d + 1), outside(d + 2), p16, "\t(effects\n"@, d);
    let p18 = p17 + indent;
    lemma_joined(o, outside(d + 2), outside(d + 2), p17, indent, d);
    let p19 = p18 + "\t\t(font\n"@;
    lemma_joined(o, outside(d + 2), outside(d + 3), p18, "\t\t(font\n"@, d);
    let p20 = p19 + indent;
    lemma_joined(o, outside(d + 3), outside(d + 3), p19, indent, d);
    let p21 = p20 + "\t\t\t(size 1.27 1.27)\n"@;
    lemma_joined(o, outside(d + 3), outside(d + 3), p20, "\t\t\t(size 1.27 1.27)\n"@, d);
    let p22 = p21 + indent;
    lemma_joined(o, outside(d + 3), outside(d + 3), p21, indent, d);
    let p23 = p22 + "\t\t)\n"@;
    lemma_joined(o, outside(d + 3), outside(d + 2), p22, "\t\t)\n"@, d);
    let p24 = p23 + indent;
    lemma_joined(o, outside(d + 2), outside(d + 2), p23, indent, d);
    let p25 = p24 + "\t)\n"@;
    lemma_joined(o, outside(d + 2), outside(d + 1), p24, "\t)\n"@, d);
    let p26 = p25 + indent;
    lemma_joined(o, outside(d + 1), outside(d + 1), p25, indent, d);
    lemma_joined(o, outside(d + 1), o, p26, ")"@, d);
    assert(new_property(indent, name, value, x, y) == p26 + ")"@);
}


// ── What a property does not hold ────────────────────────────────────────────

/// A text that needs no escapes in a string.
pub open spec fn bare(s: Seq<char>) -> bool {
    !s.contains('"') && !s.contains('\\')
}

/// A value, as it is written, that leads no search astray: it holds no head of
/// a symbol and none of a library's name, and no property begins in it, not
/// with the quote behind it either.
pub open spec fn mild(written: Seq<u8>) -> bool {
    let n = written + seq![0x22u8];
    &&& !occurs(n, symbol_head())
    &&& !occurs(n, lib_head())
    &&& !occurs(n, utf8("(property \""@))
}

/// A value that may be put in a string as it is.
pub open spec fn tame(value: Seq<char>) -> bool {
    bare(value) && mild(utf8(value))
}

/// A search text that begins as a property does.
pub open spec fn of_property(p: Seq<u8>) -> bool {
    p.len() >= 11 && p.subrange(0, 11) == utf8("(property \""@)
}

/// What is not absent from a text that ends in a quote stands in it, or its
/// beginning up to a quote does.
proof fn lemma_not_absent(n: Seq<u8>, p: Seq<u8>, m: int)
    requires
        n.len() > 0,
        n.last() == 0x22,
        0 < m <= p.len(),
        forall|k: int| 0 <= k < m - 1 ==> #[trigger] p[k] != 0x22,
        !occurs(n, p.subrange(0, m)),
    ensures
        absent(n, p),
{
    let q = p.subrange(0, m);
    lemma_occurs(n, q);
    assert forall|i: int| 0 <= i < n.len() && #[trigger] n[i] == 0x28 implies differs_at(n, p, i) by {
        if !differs_at(n, p, i) {
            assert forall|k: int| 0 <= k < p.len() && i + k < n.len() implies #[trigger] p[k]
                == n[i + k] by {}
            if i + m <= n.len() {
                assert(n.subrange(i, i + m) =~= q) by {
                    assert forall|k: int| 0 <= k < m implies n[i + k] == #[trigger] q[k] by {
                        assert(p[k] == n[i + k]);
                    }
                }
                assert(occurs_at(n, q, i));
            } else {
                let k = n.len() - 1 - i;
                assert(p[k] == n[i + k]);
            }
        }
    }
}

/// A mild value holds no head and no beginning of a property.
pub proof fn lemma_mild_absent(v: Seq<u8>, p: Seq<u8>)
    requires
        mild(v),
        p == symbol_head() || p == lib_head() || of_property(p),
    ensures
        absent(v + seq![0x22u8], p),
{
    let n = v + seq![0x22u8];
    lemma_head_texts();
    if of_property(p) {
        reveal_strlit("(property \"");
        vstd::utf8::is_ascii_chars_encode_utf8("(property \""@);
        let q = utf8("(property \""@);
        assert forall|k: int| 0 <= k < 10 implies #[trigger] p[k] != 0x22 by {
            assert(p.subrange(0, 11)[k] == p[k]);
            assert(q[k] != 0x22);
        }
        lemma_not_absent(n, p, 11);
    } else {
        assert(p.subrange(0, p.len() as int) =~= p);
        lemma_not_absent(n, p, p.len() as int);
    }
}

/// A value without marks is mild.
proof fn lemma_unmarked_mild(value: Seq<char>)
    requires
        unmarked(value),
    ensures
        tame(value),
        forall|p: Seq<u8>| #[trigger] absent(utf8(value) + seq![0x22u8], p),
{
    let n = utf8(value) + seq![0x22u8];
    lemma_byte_absent(value, '(');
    assert forall|i: int| 0 <= i < n.len() implies #[trigger] n[i] != 0x28 by {
        if i < utf8(value).len() {
            assert(n[i] == utf8(value)[i]);
        }
    }
    lemma_head_texts();
    reveal_strlit("(property \"");
    vstd::utf8::is_ascii_chars_encode_utf8("(property \""@);
    lemma_no_list(n, symbol_head());
    lemma_no_list(n, lib_head());
    lemma_no_list(n, utf8("(property \""@));
}

/// Where no list opens, none is found.
proof fn lemma_no_list(n: Seq<u8>, p: Seq<u8>)
    requires
        p.len() > 0,
        p[0] == 0x28,
        forall|i: int| 0 <= i < n.len() ==> #[trigger] n[i] != 0x28,
    ensures
        !occurs(n, p),
{
    lemma_occurs(n, p);
    if occurs(n, p) {
        let i = choose|i: int| occurs_at(n, p, i);
        assert(n.subrange(i, i + p.len())[0] == n[i]);
    }
}

/// Wherever a list opens in `n`, what follows differs from `p` within `n`.
pub open spec fn absent(n: Seq<u8>, p: Seq<u8>) -> bool {
    forall|i: int| 0 <= i < n.len() && #[trigger] n[i] == 0x28 ==> differs_at(n, p, i)
}

pub open spec fn differs_at(n: Seq<u8>, p: Seq<u8>, i: int) -> bool {
    exists|k: int| 0 <= k < p.len() && i + k < n.len() && #[trigger] p[k] != n[i + k]
}

/// What is absent from a text does not begin in it, wherever the text stands.
pub proof fn lemma_absent_free(t: Seq<u8>, h: int, n: Seq<u8>, p: Seq<u8>)
    requires
        absent(n, p),
        occurs_at(t, n, h),
        p.len() > 0,
        p[0] == 0x28,
    ensures
        free(t, p, h, h + n.len()),
{
    assert forall|j: int| h <= j < h + n.len() implies !occurs_at(t, p, j) by {
        let i = j - h;
        assert(t.subrange(h, h + n.len())[i] == t[j]);
        if occurs_at(t, p, j) {
            assert(t.subrange(j, j + p.len())[0] == t[j]);
            assert(n[i] == 0x28);
            let k = choose|k: int| 0 <= k < p.len() && i + k < n.len() && #[trigger] p[k] != n[i
                + k];
            assert(t.subrange(h, h + n.len())[i + k] == t[j + k]);
            assert(t.subrange(j, j + p.len())[k] == t[j + k]);
        }
    }
}

pub proof fn lemma_absent_joined(a: Seq<char>, b: Seq<char>, p: Seq<u8>)
    requires
        absent(utf8(a), p),
        absent(utf8(b), p),
    ensures
        absent(utf8(a + b), p),
{
    let x = utf8(a);
    let y = utf8(b);
    lemma_utf8_add(a, b);
    let n = x + y;
    assert forall|i: int| 0 <= i < n.len() && #[trigger] n[i] == 0x28 implies differs_at(n, p, i) by {
        if i < x.len() {
            assert(x[i] == 0x28);
            let k = choose|k: int| 0 <= k < p.len() && i + k < x.len() && #[trigger] p[k] != x[i
                + k];
            assert(p[k] != n[i + k]);
        } else {
            let m = i - x.len();
            assert(y[m] == 0x28);
            let k = choose|k: int| 0 <= k < p.len() && m + k < y.len() && #[trigger] p[k] != y[m
                + k];
            assert(p[k] != n[i + k]);
        }
    }
}

proof fn lemma_unmarked_absent(a: Seq<char>, p: Seq<u8>)
    requires
        unmarked(a),
    ensures
        absent(utf8(a), p),
{
    lemma_byte_absent(a, '(');
}

/// A search text that none of the literal parts of a property is.
spec fn unlike_parts(p: Seq<u8>) -> bool {
    &&& p.len() > 2
    &&& p[0] == 0x28
    &&& p[1] == 0x70 || p[1] == 0x6c || (p[1] == 0x73 && p[2] == 0x79)
}

proof fn lemma_parts_absent(p: Seq<u8>)
    requires
        unlike_parts(p),
    ensures
        absent(utf8("\"\n"@), p),
        absent(utf8("\t(at "@), p),
        absent(utf8(" "@), p),
        absent(utf8(" 0)\n"@), p),
        absent(utf8("\t(hide yes)\n"@), p),
        absent(utf8("\t(effects\n"@), p),
        absent(utf8("\t\t(font\n"@), p),
        absent(utf8("\t\t\t(size 1.27 1.27)\n"@), p),
        absent(utf8("\t\t)\n"@), p),
        absent(utf8("\t)\n"@), p),
        absent(utf8(")"@), p),
{
    reveal_strlit("\"\n");
    reveal_strlit("\t(at ");
    reveal_strlit(" ");
    reveal_strlit(" 0)\n");
    reveal_strlit("\t(hide yes)\n");
    reveal_strlit("\t(effects\n");
    reveal_strlit("\t\t(font\n");
    reveal_strlit("\t\t\t(size 1.27 1.27)\n");
    reveal_strlit("\t\t)\n");
    reveal_strlit("\t)\n");
    reveal_strlit(")");
    vstd::utf8::is_ascii_chars_encode_utf8("\"\n"@);
    vstd::utf8::is_ascii_chars_encode_utf8("\t(at "@);
    vstd::utf8::is_ascii_chars_encode_utf8(" "@);
    vstd::utf8::is_ascii_chars_encode_utf8(" 0)\n"@);
    vstd::utf8::is_ascii_chars_encode_utf8("\t(hide yes)\n"@);
    vstd::utf8::is_ascii_chars_encode_utf8("\t(effects\n"@);
    vstd::utf8::is_ascii_chars_encode_utf8("\t\t(font\n"@);
    vstd::utf8::is_ascii_chars_encode_utf8("\t\t\t(size 1.27 1.27)\n"@);
    vstd::utf8::is_ascii_chars_encode_utf8("\t\t)\n"@);
    vstd::utf8::is_ascii_chars_encode_utf8("\t)\n"@);
    vstd::utf8::is_ascii_chars_encode_utf8(")"@);
    let at = utf8("\t(at "@);
    assert(p[1] != at[2]);
    assert(differs_at(at, p, 1));
    let hide = utf8("\t(hide yes)\n"@);
    assert(p[1] != hide[2]);
    assert(differs_at(hide, p, 1));
    let effects = utf8("\t(effects\n"@);
    assert(p[1] != effects[2]);
    assert(differs_at(effects, p, 1));
    let font = utf8("\t\t(font\n"@);
    assert(p[1] != font[3]);
    assert(differs_at(font, p, 2));
    let size = utf8("\t\t\t(size 1.27 1.27)\n"@);
    assert(p[1] != size[4] || p[2] != size[5]);
    assert(differs_at(size, p, 3));
}

/// What follows the beginning of a new property: the value as it is written,
/// and the rest.
spec fn property_rest(
    indent: Seq<char>,
    written: Seq<char>,
    x: Seq<char>,
    y: Seq<char>,
) -> Seq<char> {
    written + "\"\n"@ + indent + "\t(at "@ + x + " "@ + y + " 0)\n"@ + indent + "\t(hide yes)\n"@
        + indent + "\t(effects\n"@ + indent + "\t\t(font\n"@ + indent
        + "\t\t\t(size 1.27 1.27)\n"@ + indent + "\t\t)\n"@ + indent + "\t)\n"@ + indent + ")"@
}

/// A value and the quote behind it, with the line broken there.
pub proof fn lemma_value_absent(written: Seq<char>, p: Seq<u8>)
    requires
        absent(utf8(written) + seq![0x22u8], p),
    ensures
        absent(utf8(written + "\"\n"@), p),
{
    let v = utf8(written);
    let x = v + seq![0x22u8];
    let n = utf8(written + "\"\n"@);
    reveal_strlit("\"\n");
    vstd::utf8::is_ascii_chars_encode_utf8("\"\n"@);
    lemma_utf8_add(written, "\"\n"@);
    assert(n =~= x + seq![0x0au8]);
    assert forall|i: int| 0 <= i < n.len() && #[trigger] n[i] == 0x28 implies differs_at(n, p, i) by {
        assert(x[i] == 0x28);
        assert(differs_at(x, p, i));
        let k = choose|k: int| 0 <= k < p.len() && i + k < x.len() && #[trigger] p[k] != x[i + k];
        assert(p[k] != n[i + k]);
    }
}

proof fn lemma_rest_absent(
    indent: Seq<char>,
    written: Seq<char>,
    x: Seq<char>,
    y: Seq<char>,
    p: Seq<u8>,
)
    requires
        unmarked(indent),
        absent(utf8(written) + seq![0x22u8], p),
        unmarked(x),
        unmarked(y),
        unlike_parts(p),
    ensures
        absent(utf8(property_rest(indent, written, x, y)), p),
{
    lemma_parts_absent(p);
    lemma_unmarked_absent(indent, p);
    lemma_unmarked_absent(x, p);
    lemma_unmarked_absent(y, p);
    lemma_value_absent(written, p);
    let q1 = written + "\"\n"@;
    let q2 = q1 + indent;
    lemma_absent_joined(q1, indent, p);
    let q3 = q2 + "\t(at "@;
    lemma_absent_joined(q2, "\t(at "@, p);
    let q4 = q3 + x;
    lemma_absent_joined(q3, x, p);
    let q5 = q4 + " "@;
    lemma_absent_joined(q4, " "@, p);
    let q6 = q5 + y;
    lemma_absent_joined(q5, y, p);
    let q7 = q6 + " 0)\n"@;
    lemma_absent_joined(q6, " 0)\n"@, p);
    let q8 = q7 + indent;
    lemma_absent_joined(q7, indent, p);
    let q9 = q8 + "\t(hide yes)\n"@;
    lemma_absent_joined(q8, "\t(hide yes)\n"@, p);
    let q10 = q9 + indent;
    lemma_absent_joined(q9, indent, p);
    let q11 = q10 + "\t(effects\n"@;
    lemma_absent_joined(q10, "\t(effects\n"@, p);
    let q12 = q11 + indent;
    lemma_absent_joined(q11, indent, p);
    let q13 = q12 + "\t\t(font\n"@;
    lemma_absent_joined(q12, "\t\t(font\n"@, p);
    let q14 = q13 + indent;
    lemma_absent_joined(q13, indent, p);
    let q15 = q14 + "\t\t\t(size 1.27 1.27)\n"@;
    lemma_absent_joined(q14, "\t\t\t(size 1.27 1.27)\n"@, p);
    let q16 = q15 + indent;
    lemma_absent_joined(q15, indent, p);
    let q17 = q16 + "\t\t)\n"@;
    lemma_absent_joined(q16, "\t\t)\n"@, p);
    let q18 = q17 + indent;
    lemma_absent_joined(q17, indent, p);
    let q19 = q18 + "\t)\n"@;
    lemma_absent_joined(q18, "\t)\n"@, p);
    let q20 = q19 + indent;
    lemma_absent_joined(q19, indent, p);
    let q21 = q20 + ")"@;
    lemma_absent_joined(q20, ")"@, p);
}

/// A bare value needs no escapes.
pub proof fn lemma_unescaped(value: Seq<char>)
    requires
        bare(value),
    ensures
        escaped(value, false) == value,
    decreases value.len(),
{
    if value.len() > 0 {
        let rest = value.drop_last();
        assert forall|c: char| rest.contains(c) implies value.contains(c) by {
            let i = choose|i: int| 0 <= i < rest.len() && rest[i] == c;
            assert(value[i] == c);
        }
        lemma_unescaped(rest);
        assert(value.contains(value.last()));
        assert(escaped(value, false) =~= value);
    } else {
        assert(escaped(value, false) =~= value);
    }
}

proof fn lemma_regrouped(a: Seq<char>, b: Seq<char>, c: Seq<char>)
    ensures
        (a + b) + c == a + (b + c),
{
    assert((a + b) + c =~= a + (b + c));
}

/// The parts of a new property.
proof fn lemma_property_split(
    indent: Seq<char>,
    name: Seq<char>,
    value: Seq<char>,
    x: Seq<char>,
    y: Seq<char>,
)
    ensures
        new_property(indent, name, value, x, y) == "\n"@ + indent + property_start(name)
            + property_rest(indent, escaped(value, false), x, y),
        utf8(new_property(indent, name, value, x, y)) == utf8("\n"@ + indent) + utf8(
            property_start(name),
        ) + utf8(property_rest(indent, escaped(value, false), x, y)),
{
    let n = new_property(indent, name, value, x, y);
    let before = "\n"@ + indent;
    let rest = property_rest(indent, escaped(value, false), x, y);
    let a = before + property_start(name);
    assert(before + "(property \""@ + name + "\" \""@ =~= a);
    let q0 = escaped(value, false);
    let q1 = q0 + "\"\n"@;
    lemma_regrouped(a, q0, "\"\n"@);
    let q2 = q1 + indent;
    lemma_regrouped(a, q1, indent);
    let q3 = q2 + "\t(at "@;
    lemma_regrouped(a, q2, "\t(at "@);
    let q4 = q3 + x;
    lemma_regrouped(a, q3, x);
    let q5 = q4 + " "@;
    lemma_regrouped(a, q4, " "@);
    let q6 = q5 + y;
    lemma_regrouped(a, q5, y);
    let q7 = q6 + " 0)\n"@;
    lemma_regrouped(a, q6, " 0)\n"@);
    let q8 = q7 + indent;
    lemma_regrouped(a, q7, indent);
    let q9 = q8 + "\t(hide yes)\n"@;
    lemma_regrouped(a, q8, "\t(hide yes)\n"@);
    let q10 = q9 + indent;
    lemma_regrouped(a, q9, indent);
    let q11 = q10 + "\t(effects\n"@;
    lemma_regrouped(a, q10, "\t(effects\n"@);
    let q12 = q11 + indent;
    lemma_regrouped(a, q11, indent);
    let q13 = q12 + "\t\t(font\n"@;
    lemma_regrouped(a, q12, "\t\t(font\n"@);
    let q14 = q13 + indent;
    lemma_regrouped(a, q13, indent);
    let q15 = q14 + "\t\t\t(size 1.27 1.27)\n"@;
    lemma_regrouped(a, q14, "\t\t\t(size 1.27 1.27)\n"@);
    let q16 = q15 + indent;
    lemma_regrouped(a, q15, indent);
    let q17 = q16 + "\t\t)\n"@;
    lemma_regrouped(a, q16, "\t\t)\n"@);
    let q18 = q17 + indent;
    lemma_regrouped(a, q17, indent);
    let q19 = q18 + "\t)\n"@;
    lemma_regrouped(a, q18, "\t)\n"@);
    let q20 = q19 + indent;
    lemma_regrouped(a, q19, indent);
    let q21 = q20 + ")"@;
    lemma_regrouped(a, q20, ")"@);
    assert(n == a + rest);
    lemma_utf8_add(before, property_start(name));
    lemma_utf8_add(before + property_start(name), rest);
}

/// The bytes with which a property of a name begins.
pub proof fn lemma_start_bytes(name: Seq<char>)
    requires
        unmarked(name),
    ensures
        clean(utf8(property_start(name))),
        solo(utf8(property_start(name))),
        utf8(property_start(name))[1] == 0x70,
        utf8(property_start(name)).last() == 0x22,
        utf8(property_start(name)).len() > 2,
        utf8(property_start(name)) == utf8("(property \""@) + utf8(name) + utf8("\" \""@),
        forall|i: int|
            0 <= i < utf8(property_start(name)).len() ==> #[trigger] utf8(
                property_start(name),
            )[i] != 0x29,
{
    let a = "(property \""@;
    let c = "\" \""@;
    reveal_strlit("(property \"");
    reveal_strlit("\" \"");
    vstd::utf8::is_ascii_chars_encode_utf8(a);
    vstd::utf8::is_ascii_chars_encode_utf8(c);
    lemma_plain_bytes(name);
    lemma_utf8_add(a, name);
    lemma_utf8_add(a + name, c);
    let p = utf8(property_start(name));
    assert(p =~= utf8(a) + utf8(name) + utf8(c));
    assert forall|k: int| 0 < k < p.len() implies #[trigger] p[k] != 0x28 && p[k] != 0x29 by {
        if 11 <= k < 11 + utf8(name).len() {
            assert(p[k] == utf8(name)[k - 11]);
        }
    }
}

/// Properties of two names begin differently.
pub proof fn lemma_names_differ(a: Seq<char>, b: Seq<char>)
    requires
        unmarked(a),
        unmarked(b),
        a != b,
    ensures
        differ(utf8(property_start(a)), utf8(property_start(b))),
{
    lemma_start_bytes(a);
    lemma_start_bytes(b);
    reveal_strlit("\" \"");
    vstd::utf8::is_ascii_chars_encode_utf8("\" \""@);
    lemma_differ(utf8("(property \""@), a, b, utf8("\" \""@));
}

/// The search text for a designator begins as its property does.
proof fn lemma_reference_start(reference: Seq<char>)
    ensures
        unmarked("Reference"@),
        utf8(reference_property(reference)) == utf8(property_start("Reference"@)) + utf8(reference)
            + seq![0x22u8],
{
    reveal_strlit("Reference");
    reveal_strlit("(property \"");
    reveal_strlit("\" \"");
    reveal_strlit("(property \"Reference\" \"");
    lemma_property_parts(reference);
    assert(property_start("Reference"@) =~= "(property \"Reference\" \""@);
}

/// A property of another name does not begin as a designator's does.
proof fn lemma_not_the_designator(name: Seq<char>, reference: Seq<char>)
    requires
        unmarked(name),
        name != "Reference"@,
    ensures
        differ(utf8(property_start(name)), utf8(reference_property(reference))),
{
    let p = utf8(property_start(name));
    let q = utf8(property_start("Reference"@));
    lemma_reference_start(reference);
    lemma_names_differ(name, "Reference"@);
    let k = choose|k: int| 0 <= k < p.len() && k < q.len() && #[trigger] p[k] != q[k];
    assert(utf8(reference_property(reference))[k] == q[k]);
    assert(p[k] != utf8(reference_property(reference))[k]);
}

/// A new property comes to its parenthesis before it comes to a quote.
proof fn lemma_property_steps(
    indent: Seq<char>,
    name: Seq<char>,
    value: Seq<char>,
    x: Seq<char>,
    y: Seq<char>,
)
    requires
        unmarked(indent),
        unmarked(name),
    ensures
        steps_in(utf8(new_property(indent, name, value, x, y))),
{
    let n = utf8(new_property(indent, name, value, x, y));
    let q = utf8("\n"@ + indent).len() as int;
    lemma_property_split(indent, name, value, x, y);
    lemma_start_bytes(name);
    reveal_strlit("\n");
    assert(!("\n"@ + indent).contains('"')) by {
        if ("\n"@ + indent).contains('"') {
            let k = choose|k: int| 0 <= k < 1 + indent.len() && ("\n"@ + indent)[k] == '"';
            assert(indent[k - 1] == '"');
        }
    }
    lemma_byte_absent("\n"@ + indent, '"');
    assert forall|k: int| 0 <= k < q implies #[trigger] n[k] != 0x22 by {
        assert(n[k] == utf8("\n"@ + indent)[k]);
    }
    assert(n[q] == utf8(property_start(name))[0]);
    assert(opens_at(n, q));
}

/// A new property holds no search text that differs from its beginning.
proof fn lemma_property_absent(
    indent: Seq<char>,
    name: Seq<char>,
    value: Seq<char>,
    x: Seq<char>,
    y: Seq<char>,
    p: Seq<u8>,
)
    requires
        unmarked(indent),
        unmarked(name),
        absent(utf8(escaped(value, false)) + seq![0x22u8], p),
        unmarked(x),
        unmarked(y),
        unlike_parts(p),
        differ(utf8(property_start(name)), p),
    ensures
        absent(utf8(new_property(indent, name, value, x, y)), p),
{
    let h = utf8(property_start(name));
    lemma_property_split(indent, name, value, x, y);
    lemma_rest_absent(indent, escaped(value, false), x, y, p);
    lemma_start_bytes(name);
    reveal_strlit("\n");
    lemma_one_byte("\n"@);
    lemma_unmarked_absent(indent, p);
    lemma_absent_joined("\n"@, indent, p);
    assert(absent(h, p)) by {
        let k = choose|k: int| 0 <= k < h.len() && k < p.len() && #[trigger] h[k] != p[k];
        assert(p[k] != h[0 + k]);
        assert(differs_at(h, p, 0));
    }
    lemma_absent_joined("\n"@ + indent, property_start(name), p);
    lemma_absent_joined("\n"@ + indent + property_start(name), property_rest(indent, escaped(value, false), x, y), p);
}

// ── The units of a component, edited ─────────────────────────────────────────

/// The text of a unit of a component.
pub open spec fn unit_text(s: Seq<u8>, reference: Seq<char>, k: int) -> Seq<u8> {
    let b = instance_blocks(s, reference)[k];
    s.subrange(b.0, b.1)
}

/// The units of a component stand one behind the other, none inside another.
pub open spec fn units_apart(s: Seq<u8>, reference: Seq<char>) -> bool {
    forall|i: int, j: int|
        0 <= i < j < instance_blocks(s, reference).len() ==> (
        #[trigger] instance_blocks(s, reference)[i]).1 <= (#[trigger] instance_blocks(
            s,
            reference,
        )[j]).0
}

/// Units that stand one behind the other do not nest.
proof fn lemma_apart_unnested(s: Seq<u8>, reference: Seq<char>)
    requires
        units_apart(s, reference),
    ensures
        unnested(instance_blocks(s, reference)),
{
    let all = instance_blocks(s, reference);
    lemma_units(s, reference);
    assert forall|i: int, j: int| 0 <= i < all.len() && 0 <= j < all.len() implies !((
    #[trigger] all[i]).0 < (#[trigger] all[j]).0 < all[i].1) by {
        assert(unit_shaped(s, all[j]));
        if i < j {
            assert(all[i].1 <= all[j].0);
        } else if j < i {
            assert(all[j].1 <= all[i].0);
        }
    }
}

/// An edit that keeps the symbols around it: it puts one property with its
/// value over another, or a new property before a parenthesis. It touches no
/// search text `p`.
pub open spec fn sound(s: Seq<u8>, w: Edit, p: Seq<u8>) -> bool {
    &&& 0 <= w.start <= w.end <= s.len()
    &&& w.start < s.len()
    &&& if w.start < w.end {
        &&& !lex(s, 0, w.start).quoted
        &&& swappable(s.subrange(w.start, w.end), p)
        &&& swappable(w.text, p)
    } else {
        &&& s[w.start] == 0x28 || s[w.start] == 0x29
        &&& !lex(s, 0, w.start).quoted
        &&& insertable(w.text, p)
        &&& w.text[0] == 0x20 ==> !occurs_at(s, utf8("(lib_id"@), w.start - 7)
    }
}

/// A text that may be put in before a parenthesis.
pub open spec fn insertable(n: Seq<u8>, p: Seq<u8>) -> bool {
    &&& n.len() > 0
    &&& n[0] == 0x0a || n[0] == 0x20
    &&& steps_in(n)
    &&& forall|d: int| leads(#[trigger] outside(d), n, outside(d), d)
    &&& absent(n, symbol_head())
    &&& absent(n, lib_head())
    &&& absent(n, p)
}

/// The beginning of a list that may be put over another.
pub open spec fn swappable(n: Seq<u8>, p: Seq<u8>) -> bool {
    &&& n.len() > 0
    &&& n[0] == 0x28
    &&& forall|d: int| leads(#[trigger] outside(d), n, outside(d + 1), d)
    &&& absent(n, symbol_head())
    &&& absent(n, lib_head())
    &&& absent(n, p)
}

pub proof fn lemma_sound_graft(s: Seq<u8>, w: Edit, p: Seq<u8>)
    requires
        sound(s, w, p),
        p.len() > 0,
        p[0] == 0x28,
    ensures
        graftable(s, w.start, w.end, w.text),
        free(s, p, w.start, w.end),
        free(spliced(s, w.start, w.end, w.text), p, w.start, w.start + w.text.len()),
{
    let h = w.start;
    let e = w.end;
    let n = w.text;
    let t = spliced(s, h, e, n);
    lemma_graft_bytes(s, h, e, n);
    lemma_head_texts();
    if h < e {
        let gone = s.subrange(h, e);
        let st = lex(s, 0, h);
        assert(occurs_at(s, gone, h));
        lemma_unquoted(s, 0, h);
        assert(st == outside(st.depth));
        assert(leads(outside(st.depth), gone, outside(st.depth + 1), st.depth));
        assert(leads(outside(st.depth), n, outside(st.depth + 1), st.depth));
        lemma_run_lex(s, 0, h, gone, gone.len() as int);
        assert forall|i: int| h <= i <= e implies (#[trigger] lex(s, 0, i)).depth >= st.depth by {
            lemma_run_lex(s, 0, h, gone, i - h);
            lemma_low(st, gone, gone.len() as int, i - h);
        }
        assert(gone[0] == s[h]);
        assert(opens_at(n, 0));
        lemma_absent_free(s, h, gone, symbol_head());
        lemma_absent_free(s, h, gone, lib_head());
        lemma_absent_free(s, h, gone, p);
        lemma_absent_free(t, h, n, symbol_head());
        lemma_absent_free(t, h, n, lib_head());
        lemma_absent_free(t, h, n, p);
    } else {
        let st = lex(s, 0, h);
        lemma_unquoted(s, 0, h);
        assert(st == outside(st.depth));
        assert(leads(outside(st.depth), n, outside(st.depth), st.depth));
        lemma_absent_free(t, h, n, symbol_head());
        lemma_absent_free(t, h, n, lib_head());
        lemma_absent_free(t, h, n, p);
    }
}

/// An edit further on leaves an edit sound.
pub proof fn lemma_still_sound(s: Seq<u8>, w: Edit, l: Edit, p: Seq<u8>)
    requires
        sound(s, w, p),
        0 <= l.start <= l.end <= s.len(),
        w.end <= l.start,
        w.start < l.start,
    ensures
        sound(spliced(s, l.start, l.end, l.text), w, p),
{
    let t = spliced(s, l.start, l.end, l.text);
    lemma_graft_bytes(s, l.start, l.end, l.text);
    assert(t.subrange(w.start, w.end) =~= s.subrange(w.start, w.end));
    lemma_lex_same(s, t, 0, w.start);
    assert(s[w.start] == t[w.start]);
    reveal_strlit("(lib_id");
    vstd::utf8::is_ascii_chars_encode_utf8("(lib_id"@);
    if w.start >= 7 {
        assert(t.subrange(w.start - 7, w.start) =~= s.subrange(w.start - 7, w.start));
    }
}

/// Edits of some units, each inside its own.
pub open spec fn unit_edits(
    s: Seq<u8>,
    reference: Seq<char>,
    ws: Seq<Edit>,
    us: Seq<int>,
) -> bool {
    &&& ws.len() == us.len()
    &&& forall|i: int, j: int| 0 <= i < j < us.len() ==> #[trigger] us[i] < #[trigger] us[j]
    &&& forall|j: int|
        0 <= j < us.len() ==> 0 <= #[trigger] us[j] < instance_blocks(s, reference).len()
    &&& forall|j: int|
        0 <= j < ws.len() ==> sound(s, #[trigger] ws[j], utf8(reference_property(reference)))
    &&& forall|j: int|
        0 <= j < ws.len() ==> instance_blocks(s, reference)[us[j]].0 < (#[trigger] ws[j]).start
            && ws[j].end < instance_blocks(s, reference)[us[j]].1
}

/// The text of a unit with the edit made that is the unit's.
pub open spec fn unit_edited(
    s: Seq<u8>,
    reference: Seq<char>,
    ws: Seq<Edit>,
    us: Seq<int>,
    k: int,
    j: int,
) -> Seq<u8>
    decreases us.len() - j,
{
    if j >= us.len() {
        unit_text(s, reference, k)
    } else if us[j] == k {
        let b = instance_blocks(s, reference)[k];
        spliced(unit_text(s, reference, k), ws[j].start - b.0, ws[j].end - b.0, ws[j].text)
    } else {
        unit_edited(s, reference, ws, us, k, j + 1)
    }
}

pub proof fn lemma_unit_edited(
    s: Seq<u8>,
    reference: Seq<char>,
    ws: Seq<Edit>,
    us: Seq<int>,
    k: int,
    j: int,
    m: int,
)
    requires
        0 <= j <= m <= us.len(),
        forall|i: int| j <= i < m ==> #[trigger] us[i] != k,
    ensures
        unit_edited(s, reference, ws, us, k, j) == unit_edited(s, reference, ws, us, k, m),
    decreases m - j,
{
    if j < m {
        assert(us[j] != k);
        lemma_unit_edited(s, reference, ws, us, k, j + 1, m);
    }
}

/// One edit inside a unit changes the text of that unit and of no other.
pub proof fn lemma_one_unit(s: Seq<u8>, reference: Seq<char>, w: Edit, u: int)
    requires
        unmarked(reference),
        units_apart(s, reference),
        0 <= u < instance_blocks(s, reference).len(),
        sound(s, w, utf8(reference_property(reference))),
        instance_blocks(s, reference)[u].0 < w.start,
        w.end < instance_blocks(s, reference)[u].1,
    ensures
        ({
            let t = spliced(s, w.start, w.end, w.text);
            let by = w.text.len() - (w.end - w.start);
            let all = instance_blocks(s, reference);
            let now = instance_blocks(t, reference);
            &&& now.len() == all.len()
            &&& units_apart(t, reference)
            &&& forall|k: int| 0 <= k < u ==> #[trigger] now[k] == all[k]
            &&& now[u] == (all[u].0, all[u].1 + by)
            &&& forall|k: int|
                u < k < all.len() ==> #[trigger] now[k] == (all[k].0 + by, all[k].1 + by)
            &&& forall|k: int|
                0 <= k < all.len() && k != u ==> #[trigger] unit_text(t, reference, k) == unit_text(
                    s,
                    reference,
                    k,
                )
            &&& unit_text(t, reference, u) == spliced(
                unit_text(s, reference, u),
                w.start - all[u].0,
                w.end - all[u].0,
                w.text,
            )
        }),
{
    let t = spliced(s, w.start, w.end, w.text);
    let by = w.text.len() - (w.end - w.start);
    let all = instance_blocks(s, reference);
    let now = instance_blocks(t, reference);
    let p = utf8(reference_property(reference));
    lemma_property_exchange(reference, reference);
    lemma_sound_graft(s, w, p);
    lemma_graft_bytes(s, w.start, w.end, w.text);
    lemma_graft_units(s, w.start, w.end, w.text, reference);
    lemma_units(s, reference);
    assert(unit_shaped(s, all[u]));
    assert forall|k: int| 0 <= k < u implies #[trigger] now[k] == all[k] by {
        assert(all[k].1 <= all[u].0);
        assert(unit_shaped(s, all[k]));
    }
    assert forall|k: int| u < k < all.len() implies #[trigger] now[k] == (
        all[k].0 + by,
        all[k].1 + by,
    ) by {
        assert(all[u].1 <= all[k].0);
        assert(unit_shaped(s, all[k]));
    }
    assert forall|i: int, j: int| 0 <= i < j < now.len() implies (#[trigger] now[i]).1 <= (
    #[trigger] now[j]).0 by {
        assert(all[i].1 <= all[j].0);
    }
    assert forall|k: int| 0 <= k < all.len() && k != u implies #[trigger] unit_text(
        t,
        reference,
        k,
    ) == unit_text(s, reference, k) by {
        assert(unit_shaped(s, all[k]));
        if k < u {
            assert(now[k] == all[k]);
            assert(all[k].1 <= all[u].0);
        } else {
            assert(now[k] == (all[k].0 + by, all[k].1 + by));
            assert(all[u].1 <= all[k].0);
        }
        assert(t.subrange(now[k].0, now[k].1) =~= s.subrange(all[k].0, all[k].1));
    }
    assert(unit_text(t, reference, u) =~= spliced(
        unit_text(s, reference, u),
        w.start - all[u].0,
        w.end - all[u].0,
        w.text,
    ));
}

/// Edits inside units that stand apart are in line.
pub proof fn lemma_unit_edits_in_line(s: Seq<u8>, reference: Seq<char>, ws: Seq<Edit>, us: Seq<int>)
    requires
        units_apart(s, reference),
        unit_edits(s, reference, ws, us),
    ensures
        in_line(ws),
{
    let all = instance_blocks(s, reference);
    assert forall|i: int| 0 <= i < ws.len() implies 0 <= (#[trigger] ws[i]).start <= ws[i].end by {
        assert(sound(s, ws[i], utf8(reference_property(reference))));
    }
    assert forall|i: int, j: int| 0 <= i < j < ws.len() implies (#[trigger] ws[i]).end <= (
    #[trigger] ws[j]).start by {
        assert(us[i] < us[j]);
        assert(all[us[i]].1 <= all[us[j]].0);
    }
}

/// Once the last edit is made the others are left to make.
proof fn lemma_edits_left(s: Seq<u8>, reference: Seq<char>, ws: Seq<Edit>, us: Seq<int>)
    requires
        unmarked(reference),
        units_apart(s, reference),
        unit_edits(s, reference, ws, us),
        ws.len() > 0,
    ensures
        ({
            let l = ws.last();
            let s1 = spliced(s, l.start, l.end, l.text);
            &&& sound(s, l, utf8(reference_property(reference)))
            &&& units_apart(s1, reference)
            &&& unit_edits(s1, reference, ws.drop_last(), us.drop_last())
            &&& rewritten(s, ws, 0) == rewritten(s1, ws.drop_last(), 0)
        }),
{
    let all = instance_blocks(s, reference);
    let n = ws.len() - 1;
    let l = ws[n];
    let u = us[n];
    let s1 = spliced(s, l.start, l.end, l.text);
    let wr = ws.drop_last();
    let ur = us.drop_last();
    lemma_unit_edits_in_line(s, reference, ws, us);
    assert(sound(s, l, utf8(reference_property(reference))));
    lemma_one_unit(s, reference, l, u);
    let mid = instance_blocks(s1, reference);
    lemma_units(s, reference);
    assert(0 <= us[0] < all.len());
    assert(unit_shaped(s, all[us[0]]));
    assert(ws[0].start >= 0);
    lemma_last_first(s, ws, 0);
    assert forall|i: int, j: int| 0 <= i < j < ur.len() implies #[trigger] ur[i]
        < #[trigger] ur[j] by {
        assert(us[i] < us[j]);
    }
    assert forall|j: int| 0 <= j < ur.len() implies 0 <= #[trigger] ur[j] < mid.len() by {
        assert(0 <= us[j] < all.len());
    }
    assert forall|j: int| 0 <= j < wr.len() implies sound(
        s1,
        #[trigger] wr[j],
        utf8(reference_property(reference)),
    ) && mid[ur[j]].0 < wr[j].start && wr[j].end < mid[ur[j]].1 by {
        assert(wr[j] == ws[j] && ur[j] == us[j]);
        assert(us[j] < us[n]);
        assert(all[us[j]].1 <= all[us[n]].0);
        assert(sound(s, ws[j], utf8(reference_property(reference))));
        lemma_still_sound(s, ws[j], l, utf8(reference_property(reference)));
        assert(mid[us[j]] == all[us[j]]);
    }
}

/// Edits inside units change the texts of those units and of no others.
pub proof fn lemma_units_edited(s: Seq<u8>, reference: Seq<char>, ws: Seq<Edit>, us: Seq<int>)
    requires
        unmarked(reference),
        units_apart(s, reference),
        unit_edits(s, reference, ws, us),
    ensures
        ({
            let t = rewritten(s, ws, 0);
            let all = instance_blocks(s, reference);
            &&& in_line(ws)
            &&& instance_blocks(t, reference).len() == all.len()
            &&& units_apart(t, reference)
            &&& forall|k: int|
                0 <= k < all.len() ==> #[trigger] unit_text(t, reference, k) == unit_edited(
                    s,
                    reference,
                    ws,
                    us,
                    k,
                    0,
                )
            &&& forall|k: int|
                0 <= k < all.len() ==> (#[trigger] instance_blocks(t, reference)[k]).0 == all[k].0
                    + gained(ws, us, k, 0)
        }),
    decreases ws.len(),
{
    let all = instance_blocks(s, reference);
    let t = rewritten(s, ws, 0);
    lemma_unit_edits_in_line(s, reference, ws, us);
    if ws.len() == 0 {
        assert(t =~= s);
    } else {
        let n = ws.len() - 1;
        let l = ws[n];
        let u = us[n];
        let s1 = spliced(s, l.start, l.end, l.text);
        let wr = ws.drop_last();
        let ur = us.drop_last();
        lemma_edits_left(s, reference, ws, us);
        lemma_one_unit(s, reference, l, u);
        lemma_units_edited(s1, reference, wr, ur);
        let mid = instance_blocks(s1, reference);
        assert forall|k: int| 0 <= k < all.len() implies #[trigger] unit_text(t, reference, k)
            == unit_edited(s, reference, ws, us, k, 0) by {
            assert(unit_text(t, reference, k) == unit_edited(s1, reference, wr, ur, k, 0));
            lemma_edited_step(s, s1, reference, ws, us, k, 0);
        }
        assert forall|k: int| 0 <= k < all.len() implies (#[trigger] instance_blocks(
            t,
            reference,
        )[k]).0 == all[k].0 + gained(ws, us, k, 0) by {
            lemma_gained_last(ws, us, k, 0);
            if k < u {
                assert(mid[k] == all[k]);
            } else if k > u {
                assert(mid[k] == (
                    all[k].0 + l.text.len() - (l.end - l.start),
                    all[k].1 + l.text.len() - (l.end - l.start),
                ));
            }
        }
    }
}

/// A schematic that can be read can be read once its units were edited.
proof fn lemma_edited_reads(s: Seq<u8>, reference: Seq<char>, ws: Seq<Edit>, us: Seq<int>)
    requires
        unmarked(reference),
        units_apart(s, reference),
        unit_edits(s, reference, ws, us),
        parsed(s) is Some,
    ensures
        parsed(rewritten(s, ws, 0)) is Some,
    decreases ws.len(),
{
    if ws.len() == 0 {
        assert(rewritten(s, ws, 0) =~= s);
    } else {
        let all = instance_blocks(s, reference);
        let n = ws.len() - 1;
        let l = ws[n];
        let p = utf8(reference_property(reference));
        lemma_edits_left(s, reference, ws, us);
        lemma_property_exchange(reference, reference);
        lemma_sound_graft(s, l, p);
        let b = all[us[n]];
        law_instance_blocks_sound(s, reference);
        lemma_units(s, reference);
        assert(unit_shaped(s, b));
        assert(b.0 < l.start);
        if l.start < l.end {
            assert(s.subrange(l.start, l.end)[0] == s[l.start]);
        }
        lemma_graft_reads(s, l.start, l.end, l.text, b.0);
        lemma_edited_reads(
            spliced(s, l.start, l.end, l.text),
            reference,
            ws.drop_last(),
            us.drop_last(),
        );
    }
}

/// By how much the edits from index `j` on of units before unit `k` lengthen
/// the text.
pub open spec fn gained(ws: Seq<Edit>, us: Seq<int>, k: int, j: int) -> int
    decreases us.len() - j,
{
    if j >= us.len() {
        0
    } else if us[j] < k {
        ws[j].text.len() - (ws[j].end - ws[j].start) + gained(ws, us, k, j + 1)
    } else {
        gained(ws, us, k, j + 1)
    }
}

proof fn lemma_gained_last(ws: Seq<Edit>, us: Seq<int>, k: int, j: int)
    requires
        ws.len() == us.len(),
        0 <= j < us.len(),
    ensures
        gained(ws, us, k, j) == gained(ws.drop_last(), us.drop_last(), k, j) + if us.last() < k {
            ws.last().text.len() - (ws.last().end - ws.last().start)
        } else {
            0
        },
    decreases us.len() - j,
{
    if j == us.len() - 1 {
        reveal_with_fuel(gained, 2);
    } else {
        assert(us.drop_last()[j] == us[j]);
        assert(ws.drop_last()[j] == ws[j]);
        lemma_gained_last(ws, us, k, j + 1);
    }
}

/// What is left to edit of a unit once the last edit is made.
proof fn lemma_edited_step(
    s: Seq<u8>,
    s1: Seq<u8>,
    reference: Seq<char>,
    ws: Seq<Edit>,
    us: Seq<int>,
    k: int,
    j: int,
)
    requires
        ws.len() == us.len(),
        us.len() > 0,
        0 <= j < us.len(),
        0 <= k < instance_blocks(s, reference).len(),
        0 <= us.last() < instance_blocks(s, reference).len(),
        forall|a: int, b: int| 0 <= a < b < us.len() ==> #[trigger] us[a] < #[trigger] us[b],
        forall|m: int|
            0 <= m < us.last() ==> #[trigger] instance_blocks(s1, reference)[m]
                == instance_blocks(s, reference)[m],
        forall|m: int|
            0 <= m < instance_blocks(s, reference).len() && m != us.last()
                ==> #[trigger] unit_text(s1, reference, m) == unit_text(s, reference, m),
        unit_text(s1, reference, us.last()) == spliced(
            unit_text(s, reference, us.last()),
            ws.last().start - instance_blocks(s, reference)[us.last()].0,
            ws.last().end - instance_blocks(s, reference)[us.last()].0,
            ws.last().text,
        ),
    ensures
        unit_edited(s1, reference, ws.drop_last(), us.drop_last(), k, j) == unit_edited(
            s,
            reference,
            ws,
            us,
            k,
            j,
        ),
    decreases us.len() - j,
{
    let n = us.len() - 1;
    if j == n {
        reveal_with_fuel(unit_edited, 2);
        if us[n] != k {
            assert(unit_text(s1, reference, k) == unit_text(s, reference, k));
        }
    } else {
        assert(us.drop_last()[j] == us[j]);
        assert(ws.drop_last()[j] == ws[j]);
        if us[j] == k {
            assert(us[j] < us[n]);
            assert(instance_blocks(s1, reference)[k] == instance_blocks(s, reference)[k]);
            assert(unit_text(s1, reference, k) == unit_text(s, reference, k));
        } else {
            lemma_edited_step(s, s1, reference, ws, us, k, j + 1);
        }
    }
}

// ── Fields of the units ──────────────────────────────────────────────────────

/// The text of a unit with a field changed: the field is set where the unit
/// carries it, and added before the end of its block where it does not.
pub open spec fn unit_after(
    text: Seq<u8>,
    name: Seq<char>,
    value: Seq<char>,
    place: PointText,
    reach: Reach,
) -> Seq<u8> {
    let head = utf8(property_start(name));
    let held = occurs(text, head);
    if reach.sets(held) {
        let a = first_at(text, head, 0)->0 + head.len();
        let e = first_at(text, utf8("\""@), a)->0;
        spliced(text, a, e, utf8(value))
    } else if reach.adds(held) {
        let end = text.len() - 1;
        spliced(
            text,
            end,
            end,
            utf8(new_property(property_indent(text), name, value, place.x@, place.y@)),
        )
    } else {
        text
    }
}

/// The value that a unit has for a field ends inside the unit, holds no
/// backslash and is mild, and the field itself stands in no string.
pub open spec fn value_tame(s: Seq<u8>, b: (int, int), name: Seq<char>) -> bool {
    let text = s.subrange(b.0, b.1);
    let a = value_start(s, b, name);
    &&& value_end(s, b, name) matches Some(e) && e < b.1 && mild(s.subrange(a, e)) && forall|i: int|
        a <= i < e ==> #[trigger] s[i] != 0x5c
    &&& !lex(text, 0, first_at(text, utf8(property_start(name)), 0)->0).quoted
}

/// What a change to a field asks of the texts it works on: no name and no
/// number has marks, the value is mild as it is written, and no unit stands
/// inside another. A value that is put in the place of another must be bare.
/// A designator is not set here, for then the units would be another's; one
/// may be added, if it is not the component's own.
pub open spec fn field_ready(
    s: Seq<u8>,
    reference: Seq<char>,
    name: Seq<char>,
    value: Seq<char>,
    places: Seq<PointText>,
    reach: Reach,
) -> bool {
    &&& unmarked(reference)
    &&& unmarked(name)
    &&& name == "Reference"@ ==> !reach.set && value != reference && unmarked(value)
    &&& mild(utf8(escaped(value, false)))
    &&& unnested(instance_blocks(s, reference))
    &&& reach.add ==> places.len() == instance_blocks(s, reference).len()
    &&& forall|k: int|
        0 <= k < places.len() ==> unmarked((#[trigger] places[k]).x@) && unmarked(places[k].y@)
    &&& forall|k: int|
        0 <= k < instance_blocks(s, reference).len() && reach.set && holds(
            s,
            #[trigger] instance_blocks(s, reference)[k],
            name,
        ) ==> bare(value) && value_tame(s, instance_blocks(s, reference)[k], name)
}

/// The edit that changes a field on a unit.
spec fn unit_edit(
    s: Seq<u8>,
    b: (int, int),
    name: Seq<char>,
    value: Seq<char>,
    place: PointText,
    reach: Reach,
) -> Edit {
    if reach.sets(holds(s, b, name)) {
        value_edit(s, b, name, value)
    } else {
        add_edit(s, b, name, value, place)
    }
}

/// The same edit, with the beginning of the property and the quote behind its
/// value.
spec fn wide_edit(
    s: Seq<u8>,
    b: (int, int),
    name: Seq<char>,
    value: Seq<char>,
    place: PointText,
    reach: Reach,
) -> Edit {
    if reach.sets(holds(s, b, name)) {
        Edit {
            start: value_start(s, b, name) - utf8(property_start(name)).len(),
            end: value_end(s, b, name)->0 + 1,
            text: utf8(property_start(name)) + utf8(value) + seq![0x22u8],
        }
    } else {
        add_edit(s, b, name, value, place)
    }
}

/// A change to a field edits a unit.
spec fn reaches(s: Seq<u8>, b: (int, int), name: Seq<char>, reach: Reach) -> bool {
    let held = holds(s, b, name);
    reach.sets(held) || reach.adds(held)
}

/// Which of the first `n` units a change to a field edits.
spec fn owners(s: Seq<u8>, blocks: Seq<(int, int)>, n: int, name: Seq<char>, reach: Reach) -> Seq<
    int,
>
    decreases n,
{
    if n <= 0 {
        Seq::empty()
    } else {
        let before = owners(s, blocks, n - 1, name, reach);
        if reaches(s, blocks[n - 1], name, reach) {
            before.push(n - 1)
        } else {
            before
        }
    }
}

proof fn lemma_owners(s: Seq<u8>, blocks: Seq<(int, int)>, n: int, name: Seq<char>, reach: Reach)
    requires
        0 <= n <= blocks.len(),
    ensures
        forall|j: int|
            0 <= j < owners(s, blocks, n, name, reach).len() ==> 0 <= #[trigger] owners(
                s,
                blocks,
                n,
                name,
                reach,
            )[j] < n,
        forall|i: int, j: int|
            0 <= i < j < owners(s, blocks, n, name, reach).len() ==> #[trigger] owners(
                s,
                blocks,
                n,
                name,
                reach,
            )[i] < #[trigger] owners(s, blocks, n, name, reach)[j],
        forall|k: int| #[trigger]
            owners(s, blocks, n, name, reach).contains(k) <==> 0 <= k < n && reaches(s, blocks[k], name, reach),
    decreases n,
{
    if n > 0 {
        lemma_owners(s, blocks, n - 1, name, reach);
        let before = owners(s, blocks, n - 1, name, reach);
        let now = owners(s, blocks, n, name, reach);
        assert forall|k: int| #[trigger] now.contains(k) <==> 0 <= k < n && reaches(s, blocks[k], name, reach) by {
            if now.contains(k) {
                let i = choose|i: int| 0 <= i < now.len() && now[i] == k;
                if i < before.len() {
                    assert(before[i] == k);
                    assert(before.contains(k));
                }
            }
            if before.contains(k) {
                let i = choose|i: int| 0 <= i < before.len() && before[i] == k;
                assert(now[i] == k);
            }
            if now.len() > before.len() {
                assert(now[before.len() as int] == n - 1);
            }
        }
        assert forall|j: int| 0 <= j < now.len() implies 0 <= #[trigger] now[j] < n by {
            if j < before.len() {
                assert(now[j] == before[j]);
            }
        }
        assert forall|i: int, j: int| 0 <= i < j < now.len() implies #[trigger] now[i]
            < #[trigger] now[j] by {
            assert(now[i] == before[i]);
            if j < before.len() {
                assert(now[j] == before[j]);
            }
        }
    }
}

/// The edits of a change are those of the units that it edits.
proof fn lemma_owned_edits(
    s: Seq<u8>,
    blocks: Seq<(int, int)>,
    n: int,
    name: Seq<char>,
    value: Seq<char>,
    places: Seq<PointText>,
    reach: Reach,
)
    ensures
        field_edits(s, blocks, n, name, value, places, reach) == owners(
            s,
            blocks,
            n,
            name,
            reach,
        ).map_values(|k: int| unit_edit(s, blocks[k], name, value, places[k], reach)),
    decreases n,
{
    let f = |k: int| unit_edit(s, blocks[k], name, value, places[k], reach);
    if n > 0 {
        lemma_owned_edits(s, blocks, n - 1, name, value, places, reach);
        let before = owners(s, blocks, n - 1, name, reach);
        assert(before.push(n - 1).map_values(f) =~= before.map_values(f).push(f(n - 1)));
    } else {
        assert(field_edits(s, blocks, n, name, value, places, reach) =~= owners(
            s,
            blocks,
            n,
            name,
            reach,
        ).map_values(f));
    }
}

// ── A change and its units ───────────────────────────────────────────────────

/// The bytes of a unit's end.
pub proof fn lemma_unit_end(s: Seq<u8>, reference: Seq<char>, k: int)
    requires
        0 <= k < instance_blocks(s, reference).len(),
    ensures
        ({
            let b = instance_blocks(s, reference)[k];
            &&& unit_shaped(s, b)
            &&& !lex(s, 0, b.1 - 1).quoted
            &&& s[b.0 + 1] == 0x73
        }),
{
    let b = instance_blocks(s, reference)[k];
    law_instance_blocks_sound(s, reference);
    lemma_units(s, reference);
    lemma_block_end(s, b.0);
    lemma_unquoted(s, 0, b.0);
    assert(lex(s, b.0, b.1) == lex_step(lex(s, b.0, b.1 - 1), s[b.1 - 1]));
    assert(lex(s, b.0, b.1 - 1).depth > 0);
    lemma_lex_compose(s, 0, b.0, b.1 - 1);
    lemma_head_texts();
    assert(s.subrange(b.0 + 1, b.0 + 7)[0] == s[b.0 + 1]);
}

/// Blanks are without marks.
proof fn lemma_indent_unmarked(text: Seq<u8>)
    ensures
        unmarked(property_indent(text)),
{
    reveal_strlit("\t\t");
    if let Some(p) = first_at(text, utf8("(property "@), 0) {
        let line = match crate::text::last_byte_below(text, 0x0a, p) {
            Some(n) => n + 1,
            None => 0,
        };
        let end = past_blanks(text, line);
        crate::alike::lemma_blanks(text, line);
        lemma_first_at(text, utf8("(property "@), 0);
        crate::text::lemma_last_byte_below(text, 0x0a, p);
        let bytes = text.subrange(line, end);
        let w = Seq::new(bytes.len(), |i: int| bytes[i] as char);
        assert forall|i: int| 0 <= i < bytes.len() implies crate::node::is_blank(
            #[trigger] bytes[i],
        ) by {
            assert(bytes[i] == text[line + i]);
            assert(crate::node::is_blank(text[line + i]));
        }
        assert(vstd::utf8::is_ascii_chars(w)) by {
            assert forall|i: int| 0 <= i < w.len() implies (w[i] as u32) < 128 by {
                assert(crate::node::is_blank(bytes[i]));
            }
        }
        vstd::utf8::is_ascii_chars_encode_utf8(w);
        assert(utf8(w) =~= bytes);
        lemma_chars(w);
        assert forall|i: int| 0 <= i < w.len() implies w[i] != '"' && w[i] != '\\' && w[i] != '('
            && w[i] != ')' by {
            assert(crate::node::is_blank(bytes[i]));
        }
    }
}

/// A property up to the quote behind its value may be put over another.
pub proof fn lemma_value_swappable(name: Seq<char>, v: Seq<u8>, p: Seq<u8>)
    requires
        unmarked(name),
        mild(v),
        forall|i: int| 0 <= i < v.len() ==> #[trigger] v[i] != 0x22 && v[i] != 0x5c,
        of_property(p),
        differ(utf8(property_start(name)), p),
    ensures
        swappable(utf8(property_start(name)) + v + seq![0x22u8], p),
{
    let head = utf8(property_start(name));
    let quote = seq![0x22u8];
    let n = head + v + quote;
    lemma_start_bytes(name);
    lemma_head_texts();
    assert forall|d: int| leads(#[trigger] outside(d), n, outside(d + 1), d) by {
        let o = outside(d);
        let mid = inside(d + 1);
        lemma_heads(d);
        lemma_heads(d + 1);
        lemma_byte_absent(name, '"');
        lemma_named(d + 1, name);
        lemma_joined(o, mid, mid, "(property \""@, name, d);
        lemma_joined(o, mid, mid, "(property \""@ + name, "\" \""@, d);
        lemma_quiet(mid, v, v.len() as int);
        lemma_run_second(o, mid, head, v, d, v.len() as int);
        reveal_with_fuel(run, 2);
        reveal_with_fuel(low, 2);
        lemma_run_second(o, mid, head + v, quote, d, 1);
    }
    let rest = v + quote;
    assert(n =~= head + rest);
    lemma_mild_absent(v, symbol_head());
    lemma_mild_absent(v, lib_head());
    lemma_mild_absent(v, p);
    assert(differ(n, symbol_head())) by {
        assert(n[1] != symbol_head()[1]);
    }
    assert(differ(n, lib_head())) by {
        assert(n[1] != lib_head()[1]);
    }
    assert(differ(n, p)) by {
        let k = choose|k: int| 0 <= k < head.len() && k < p.len() && #[trigger] head[k] != p[k];
        assert(n[k] != p[k]);
    }
    lemma_absent_list(head, rest, symbol_head());
    lemma_absent_list(head, rest, lib_head());
    lemma_absent_list(head, rest, p);
}

/// The search text for a designator, and that for a property, begin as a
/// property does.
pub proof fn lemma_of_property(name: Seq<char>, reference: Seq<char>)
    requires
        unmarked(name),
    ensures
        of_property(utf8(property_start(name))),
        of_property(utf8(reference_property(reference))),
{
    lemma_start_bytes(name);
    lemma_reference_start(reference);
    lemma_start_bytes("Reference"@);
    reveal_strlit("(property \"");
    vstd::utf8::is_ascii_chars_encode_utf8("(property \""@);
    let q = utf8("(property \""@);
    assert(utf8(property_start(name)).subrange(0, 11) =~= q);
    assert(utf8(reference_property(reference)).subrange(0, 11) =~= q);
}

/// A place in a unit is inside a string of the schematic where it is inside
/// one of the unit's text.
pub proof fn lemma_unit_lex(s: Seq<u8>, reference: Seq<char>, k: int, i: int)
    requires
        0 <= k < instance_blocks(s, reference).len(),
        0 <= i <= unit_text(s, reference, k).len(),
    ensures
        ({
            let b = instance_blocks(s, reference)[k];
            lex(s, 0, b.0 + i).quoted == lex(unit_text(s, reference, k), 0, i).quoted
        }),
{
    let b = instance_blocks(s, reference)[k];
    law_instance_blocks_sound(s, reference);
    lemma_block_end(s, b.0);
    lemma_unquoted(s, 0, b.0);
    lemma_lex_within(s, b.0, b.1, 0, i);
    lemma_lex_compose(s, 0, b.0, b.0 + i);
}

/// Where the field of a unit stands, by the text of the unit.
pub proof fn lemma_value_place(s: Seq<u8>, reference: Seq<char>, k: int, name: Seq<char>)
    requires
        0 <= k < instance_blocks(s, reference).len(),
        unmarked(name),
        holds(s, instance_blocks(s, reference)[k], name),
        value_end(s, instance_blocks(s, reference)[k], name) matches Some(e) && e
            < instance_blocks(s, reference)[k].1,
    ensures
        ({
            let b = instance_blocks(s, reference)[k];
            let text = unit_text(s, reference, k);
            let head = utf8(property_start(name));
            let a = value_start(s, b, name);
            let e = value_end(s, b, name)->0;
            &&& b.0 < a - head.len()
            &&& a <= e
            &&& e + 1 < b.1
            &&& s[e] == 0x22
            &&& forall|i: int| a <= i < e ==> #[trigger] s[i] != 0x22
            &&& s.subrange(a - head.len(), a) == head
            &&& first_at(text, head, 0) == Some(a - head.len() - b.0)
            &&& first_at(text, utf8("\""@), a - b.0) == Some(e - b.0)
        }),
{
    let b = instance_blocks(s, reference)[k];
    let text = unit_text(s, reference, k);
    let head = utf8(property_start(name));
    let quote = utf8("\""@);
    let a = value_start(s, b, name);
    let e = value_end(s, b, name)->0;
    lemma_unit_end(s, reference, k);
    lemma_start_bytes(name);
    lemma_first_at(text, head, 0);
    let o = first_at(text, head, 0)->0;
    crate::properties::lemma_within(s, b.0, b.1, head, o);
    assert(s.subrange(b.0 + o, b.0 + o + head.len())[1] == s[b.0 + o + 1]);
    reveal_strlit("\"");
    lemma_one_byte("\""@);
    assert(quote =~= seq![0x22u8]);
    lemma_first_at(s, quote, a);
    assert(s.subrange(e, e + 1)[0] == s[e]);
    assert forall|i: int| a <= i < e implies #[trigger] s[i] != 0x22 by {
        if s[i] == 0x22 {
            assert(s.subrange(i, i + 1) =~= quote);
            assert(occurs_at(s, quote, i));
        }
    }
    lemma_first_at(text, quote, a - b.0);
    assert(text.subrange(e - b.0, e - b.0 + 1) =~= quote);
    assert(occurs_at(text, quote, e - b.0));
    let f = first_at(text, quote, a - b.0)->0;
    if f < e - b.0 {
        assert(text.subrange(f, f + 1)[0] == s[b.0 + f]);
    }
}

/// The edit of a unit is sound, and makes of the unit's text what it should.
spec fn fits_unit(
    s: Seq<u8>,
    reference: Seq<char>,
    name: Seq<char>,
    value: Seq<char>,
    place: PointText,
    reach: Reach,
    k: int,
) -> bool {
    let b = instance_blocks(s, reference)[k];
    let w = wide_edit(s, b, name, value, place, reach);
    &&& sound(s, w, utf8(reference_property(reference)))
    &&& widens(s, w, unit_edit(s, b, name, value, place, reach))
    &&& b.0 < w.start
    &&& w.end < b.1
    &&& spliced(
        unit_text(s, reference, k),
        w.start - b.0,
        w.end - b.0,
        w.text,
    ) == unit_after(unit_text(s, reference, k), name, value, place, reach)
}

/// A field that is set.
proof fn lemma_set_edit(
    s: Seq<u8>,
    reference: Seq<char>,
    name: Seq<char>,
    value: Seq<char>,
    place: PointText,
    reach: Reach,
    k: int,
)
    requires
        unmarked(name),
        name != "Reference"@,
        tame(value),
        0 <= k < instance_blocks(s, reference).len(),
        holds(s, instance_blocks(s, reference)[k], name),
        value_tame(s, instance_blocks(s, reference)[k], name),
        reach.set,
    ensures
        fits_unit(s, reference, name, value, place, reach, k),
{
    let b = instance_blocks(s, reference)[k];
    let w = wide_edit(s, b, name, value, place, reach);
    let e = unit_edit(s, b, name, value, place, reach);
    let text = unit_text(s, reference, k);
    let head = utf8(property_start(name));
    let p = utf8(reference_property(reference));
    let quote = seq![0x22u8];
    lemma_unit_end(s, reference, k);
    lemma_start_bytes(name);
    lemma_not_the_designator(name, reference);
    lemma_value_place(s, reference, k, name);
    let a = value_start(s, b, name);
    let end = value_end(s, b, name)->0;
    let gone = s.subrange(w.start, w.end);
    let old_value = s.subrange(a, end);
    assert(gone =~= head + old_value + quote) by {
        assert forall|i: int| 0 <= i < head.len() implies s[w.start + i] == #[trigger] head[i] by {
            assert(s.subrange(w.start, a)[i] == s[w.start + i]);
        }
    }
    lemma_of_property(name, reference);
    lemma_byte_absent(value, '"');
    lemma_byte_absent(value, '\\');
    assert forall|i: int| 0 <= i < old_value.len() implies #[trigger] old_value[i] != 0x22
        && old_value[i] != 0x5c by {
        assert(old_value[i] == s[a + i]);
    }
    lemma_value_swappable(name, old_value, p);
    lemma_value_swappable(name, utf8(value), p);
    lemma_unit_lex(s, reference, k, w.start - b.0);
    assert(s.subrange(w.start, e.start) =~= head);
    assert(s.subrange(e.end, w.end) =~= quote);
    assert(spliced(text, w.start - b.0, w.end - b.0, w.text) =~= spliced(
        text,
        a - b.0,
        end - b.0,
        utf8(value),
    )) by {
        assert forall|i: int| 0 <= i < head.len() implies text[w.start - b.0 + i]
            == #[trigger] head[i] by {
            assert(s.subrange(w.start, a)[i] == s[w.start + i]);
        }
    }
}

/// A list that differs from a search text, with a text behind it that does not
/// hold the search text.
proof fn lemma_absent_list(head: Seq<u8>, rest: Seq<u8>, p: Seq<u8>)
    requires
        forall|k: int| 0 < k < head.len() ==> #[trigger] head[k] != 0x28,
        absent(rest, p),
        differ(head + rest, p),
    ensures
        absent(head + rest, p),
{
    let w = head + rest;
    assert forall|i: int| 0 <= i < w.len() && #[trigger] w[i] == 0x28 implies differs_at(w, p, i) by {
        if i >= head.len() {
            let m = i - head.len();
            assert(rest[m] == w[i]);
            assert(differs_at(rest, p, m));
            let k = choose|k: int|
                0 <= k < p.len() && m + k < rest.len() && #[trigger] p[k] != rest[m + k];
            assert(p[k] != w[i + k]);
        } else if i > 0 {
            assert(head[i] == w[i]);
        } else {
            let k = choose|k: int| 0 <= k < w.len() && k < p.len() && #[trigger] w[k] != p[k];
            assert(p[k] != w[0 + k]);
        }
    }
}

/// What follows the beginning of a new property begins with its value.
proof fn lemma_rest_value(indent: Seq<char>, value: Seq<char>, x: Seq<char>, y: Seq<char>)
    requires
        bare(value),
    ensures
        ({
            let rest = utf8(property_rest(indent, value, x, y));
            let v = utf8(value);
            &&& rest.len() > v.len()
            &&& rest[v.len() as int] == 0x22
            &&& forall|k: int| 0 <= k < v.len() ==> #[trigger] rest[k] == v[k]
        }),
{
    let name = "Reference"@;
    let n = utf8(new_property(indent, name, value, x, y));
    let b = utf8("\n"@ + indent);
    let head = utf8(property_start(name));
    let rest = utf8(property_rest(indent, value, x, y));
    let tail = utf8(property_tail(indent, x, y));
    let v = utf8(value);
    lemma_unescaped(value);
    lemma_property_split(indent, name, value, x, y);
    lemma_property_value(indent, name, value, x, y);
    let a = b.len() + head.len();
    assert(n == b + head + rest);
    assert(n == b + head + v + tail);
    assert((b + head + rest).len() == a + rest.len());
    assert((b + head + v + tail).len() == a + v.len() + tail.len());
    assert forall|k: int| 0 <= k < v.len() implies #[trigger] rest[k] == v[k] by {
        assert((b + head + rest)[a + k] == rest[k]);
        assert(n[a + k] == v[k]);
    }
    assert(n[(a + v.len()) as int] == tail[0]);
    assert((b + head + rest)[(a + v.len()) as int] == rest[v.len() as int]);
}

/// A new designator holds no search text for another one.
proof fn lemma_designator_absent(
    indent: Seq<char>,
    value: Seq<char>,
    x: Seq<char>,
    y: Seq<char>,
    reference: Seq<char>,
)
    requires
        unmarked(indent),
        unmarked(value),
        unmarked(x),
        unmarked(y),
        unmarked(reference),
        value != reference,
    ensures
        absent(
            utf8(new_property(indent, "Reference"@, value, x, y)),
            utf8(reference_property(reference)),
        ),
{
    let name = "Reference"@;
    let p = utf8(reference_property(reference));
    let head = utf8(property_start(name));
    let rest = utf8(property_rest(indent, value, x, y));
    let before = "\n"@ + indent;
    let whole = property_start(name) + property_rest(indent, value, x, y);
    lemma_reference_start(reference);
    lemma_start_bytes(name);
    assert(p[1] == head[1]);
    lemma_unescaped(value);
    lemma_unmarked_mild(value);
    lemma_property_split(indent, name, value, x, y);
    lemma_rest_absent(indent, value, x, y, p);
    lemma_rest_value(indent, value, x, y);
    lemma_differ(head, value, reference, seq![0x22u8]);
    assert(differ(head + rest, p)) by {
        let v = head + utf8(value) + seq![0x22u8];
        let k = choose|k: int| 0 <= k < v.len() && k < p.len() && #[trigger] v[k] != p[k];
        let w = head + rest;
        if k >= head.len() {
            assert(w[k] == rest[k - head.len()]);
        }
        assert(w[k] == v[k]);
    }
    lemma_absent_list(head, rest, p);
    lemma_utf8_add(property_start(name), property_rest(indent, value, x, y));
    reveal_strlit("\n");
    lemma_one_byte("\n"@);
    lemma_unmarked_absent(indent, p);
    lemma_absent_joined("\n"@, indent, p);
    lemma_absent_joined(before, whole, p);
    assert(before + whole =~= before + property_start(name) + property_rest(indent, value, x, y));
}

/// A new property may be put in before a closing parenthesis.
proof fn lemma_property_insertable(
    indent: Seq<char>,
    name: Seq<char>,
    value: Seq<char>,
    place: PointText,
    reference: Seq<char>,
)
    requires
        unmarked(indent),
        unmarked(name),
        unmarked(reference),
        name == "Reference"@ ==> value != reference && unmarked(value),
        mild(utf8(escaped(value, false))),
        unmarked(place.x@),
        unmarked(place.y@),
    ensures
        insertable(
            utf8(new_property(indent, name, value, place.x@, place.y@)),
            utf8(reference_property(reference)),
        ),
        utf8(new_property(indent, name, value, place.x@, place.y@))[0] == 0x0a,
{
    let n = utf8(new_property(indent, name, value, place.x@, place.y@));
    let head = utf8(property_start(name));
    let p = utf8(reference_property(reference));
    lemma_start_bytes(name);
    assert forall|d: int| leads(#[trigger] outside(d), n, outside(d), d) by {
        lemma_new_property(d, indent, name, value, place.x@, place.y@);
    }
    lemma_head_texts();
    assert(differ(head, symbol_head())) by {
        assert(head[1] != symbol_head()[1]);
    }
    assert(differ(head, lib_head())) by {
        assert(head[1] != lib_head()[1]);
    }
    lemma_property_parts(reference);
    assert(p[1] == 0x70);
    lemma_of_property(name, reference);
    lemma_mild_absent(utf8(escaped(value, false)), symbol_head());
    lemma_mild_absent(utf8(escaped(value, false)), lib_head());
    lemma_mild_absent(utf8(escaped(value, false)), p);
    lemma_property_absent(indent, name, value, place.x@, place.y@, symbol_head());
    lemma_property_absent(indent, name, value, place.x@, place.y@, lib_head());
    if name != "Reference"@ {
        lemma_not_the_designator(name, reference);
        lemma_property_absent(indent, name, value, place.x@, place.y@, p);
    } else {
        lemma_designator_absent(indent, value, place.x@, place.y@, reference);
    }
    lemma_property_split(indent, name, value, place.x@, place.y@);
    lemma_property_steps(indent, name, value, place.x@, place.y@);
    reveal_strlit("\n");
    lemma_one_byte("\n"@);
    lemma_utf8_add("\n"@, indent);
}

/// A field that is added.
proof fn lemma_added_edit(
    s: Seq<u8>,
    reference: Seq<char>,
    name: Seq<char>,
    value: Seq<char>,
    place: PointText,
    reach: Reach,
    k: int,
)
    requires
        unmarked(reference),
        unmarked(name),
        name == "Reference"@ ==> value != reference && unmarked(value),
        mild(utf8(escaped(value, false))),
        unmarked(place.x@),
        unmarked(place.y@),
        0 <= k < instance_blocks(s, reference).len(),
        reach.adds(holds(s, instance_blocks(s, reference)[k], name)),
    ensures
        fits_unit(s, reference, name, value, place, reach, k),
{
    let b = instance_blocks(s, reference)[k];
    let w = wide_edit(s, b, name, value, place, reach);
    let text = unit_text(s, reference, k);
    lemma_unit_end(s, reference, k);
    lemma_indent_unmarked(text);
    lemma_property_insertable(property_indent(text), name, value, place, reference);
    assert(s.subrange(w.start, w.start) + w.text + s.subrange(w.end, w.end) =~= w.text);
}

proof fn lemma_wide_edit(
    s: Seq<u8>,
    reference: Seq<char>,
    name: Seq<char>,
    value: Seq<char>,
    places: Seq<PointText>,
    reach: Reach,
    k: int,
)
    requires
        field_ready(s, reference, name, value, places, reach),
        0 <= k < instance_blocks(s, reference).len(),
        reaches(s, instance_blocks(s, reference)[k], name, reach),
    ensures
        fits_unit(s, reference, name, value, places[k], reach, k),
{
    if reach.sets(holds(s, instance_blocks(s, reference)[k], name)) {
        lemma_unescaped(value);
        lemma_set_edit(s, reference, name, value, places[k], reach, k);
    } else {
        assert(unmarked(places[k].x@) && unmarked(places[k].y@));
        lemma_added_edit(s, reference, name, value, places[k], reach, k);
    }
}

/// A change to a field reaches every unit of a component and nothing else of
/// it: each unit's text is as it was, with the field set in place or added,
/// as `reach` says for a unit that carries it or does not. The units stay as
/// many, and apart, and what could be read can be read still.
pub proof fn law_field_on_every_unit(
    s: Seq<u8>,
    reference: Seq<char>,
    name: Seq<char>,
    value: Seq<char>,
    places: Seq<PointText>,
    reach: Reach,
)
    requires
        field_changed(s, reference, name, value, places, reach) is Ok,
        field_ready(s, reference, name, value, places, reach),
    ensures
        ({
            let t = field_changed(s, reference, name, value, places, reach)->Ok_0;
            &&& instance_blocks(t, reference).len() == instance_blocks(s, reference).len()
            &&& unnested(instance_blocks(t, reference))
            &&& forall|k: int|
                0 <= k < instance_blocks(s, reference).len() ==> #[trigger] unit_text(
                    t,
                    reference,
                    k,
                ) == unit_after(unit_text(s, reference, k), name, value, places[k], reach)
            &&& parsed(s) is Some ==> parsed(t) is Some
        }),
{
    lemma_field_changed(s, reference, name, value, places, reach);
    lemma_apart_unnested(
        field_changed(s, reference, name, value, places, reach)->Ok_0,
        reference,
    );
    if parsed(s) is Some {
        lemma_field_reads(s, reference, name, value, places, reach);
    }
}

/// A schematic that can be read can be read once a field was changed.
proof fn lemma_field_reads(
    s: Seq<u8>,
    reference: Seq<char>,
    name: Seq<char>,
    value: Seq<char>,
    places: Seq<PointText>,
    reach: Reach,
)
    requires
        field_ready(s, reference, name, value, places, reach),
        parsed(s) is Some,
    ensures
        ({
            let all = instance_blocks(s, reference);
            let n = all.len() as int;
            parsed(edited(s, field_edits(s, all, n, name, value, places, reach))) is Some
        }),
{
    let all = instance_blocks(s, reference);
    let n = all.len() as int;
    let us = owners(s, all, n, name, reach);
    let ws = us.map_values(|k: int| wide_edit(s, all[k], name, value, places[k], reach));
    law_instance_blocks_in_order(s, reference);
    lemma_change_edits(s, reference, name, value, places, reach);
    lemma_edited_reads(s, reference, ws, us);
}

/// The edits of a change, on the units that it edits.
proof fn lemma_change_edits(
    s: Seq<u8>,
    reference: Seq<char>,
    name: Seq<char>,
    value: Seq<char>,
    places: Seq<PointText>,
    reach: Reach,
)
    requires
        field_ready(s, reference, name, value, places, reach),
    ensures
        ({
            let all = instance_blocks(s, reference);
            let n = all.len() as int;
            let us = owners(s, all, n, name, reach);
            let ws = us.map_values(|k: int| wide_edit(s, all[k], name, value, places[k], reach));
            let es = us.map_values(|k: int| unit_edit(s, all[k], name, value, places[k], reach));
            &&& es == field_edits(s, all, n, name, value, places, reach)
            &&& unit_edits(s, reference, ws, us)
            &&& forall|j: int| 0 <= j < ws.len() ==> widens(s, #[trigger] ws[j], es[j])
            &&& in_line(es)
            &&& edited(s, es) == rewritten(s, es, 0)
            &&& rewritten(s, ws, 0) == rewritten(s, es, 0)
        }),
{
    let all = instance_blocks(s, reference);
    let n = all.len() as int;
    let us = owners(s, all, n, name, reach);
    let f = |k: int| unit_edit(s, all[k], name, value, places[k], reach);
    let g = |k: int| wide_edit(s, all[k], name, value, places[k], reach);
    let ws = us.map_values(g);
    let es = us.map_values(f);
    law_instance_blocks_in_order(s, reference);
    lemma_owners(s, all, n, name, reach);
    lemma_owned_edits(s, all, n, name, value, places, reach);
    assert forall|j: int| 0 <= j < us.len() implies {
        &&& 0 <= #[trigger] us[j] < n
        &&& fits_unit(s, reference, name, value, places[us[j]], reach, us[j])
    } by {
        assert(us.contains(us[j]));
        lemma_wide_edit(s, reference, name, value, places, reach, us[j]);
    }
    assert forall|j: int| 0 <= j < ws.len() implies widens(s, #[trigger] ws[j], es[j]) by {
        assert(0 <= us[j] < n);
    }
    assert(unit_edits(s, reference, ws, us)) by {
        assert forall|j: int| 0 <= j < ws.len() implies sound(
            s,
            #[trigger] ws[j],
            utf8(reference_property(reference)),
        ) && all[us[j]].0 < ws[j].start && ws[j].end < all[us[j]].1 by {
            assert(0 <= us[j] < n);
        }
    }
    lemma_unit_edits_in_line(s, reference, ws, us);
    if ws.len() > 0 {
        assert(0 <= us[0] < n);
        lemma_units(s, reference);
        assert(unit_shaped(s, all[us[0]]));
    }
    lemma_widened(s, ws, es, 0);
    lemma_in_line_ordered(es);
}

proof fn lemma_field_changed(
    s: Seq<u8>,
    reference: Seq<char>,
    name: Seq<char>,
    value: Seq<char>,
    places: Seq<PointText>,
    reach: Reach,
)
    requires
        field_ready(s, reference, name, value, places, reach),
    ensures
        ({
            let all = instance_blocks(s, reference);
            let n = all.len() as int;
            let us = owners(s, all, n, name, reach);
            let ws = us.map_values(|k: int| wide_edit(s, all[k], name, value, places[k], reach));
            let t = edited(s, field_edits(s, all, n, name, value, places, reach));
            &&& instance_blocks(t, reference).len() == all.len()
            &&& units_apart(t, reference)
            &&& forall|k: int|
                0 <= k < all.len() ==> #[trigger] unit_text(t, reference, k) == unit_after(
                    unit_text(s, reference, k),
                    name,
                    value,
                    places[k],
                    reach,
                )
            &&& forall|k: int|
                0 <= k < all.len() ==> (#[trigger] instance_blocks(t, reference)[k]).0 == all[k].0
                    + gained(ws, us, k, 0)
        }),
{
    let all = instance_blocks(s, reference);
    let n = all.len() as int;
    let us = owners(s, all, n, name, reach);
    let ws = us.map_values(|k: int| wide_edit(s, all[k], name, value, places[k], reach));
    let t = edited(s, field_edits(s, all, n, name, value, places, reach));
    law_instance_blocks_in_order(s, reference);
    lemma_owners(s, all, n, name, reach);
    lemma_change_edits(s, reference, name, value, places, reach);
    lemma_units_edited(s, reference, ws, us);
    assert forall|k: int| 0 <= k < all.len() implies #[trigger] unit_text(t, reference, k)
        == unit_after(unit_text(s, reference, k), name, value, places[k], reach) by {
        if us.contains(k) {
            let j = choose|j: int| 0 <= j < us.len() && us[j] == k;
            assert forall|i: int| 0 <= i < j implies #[trigger] us[i] != k by {
                assert(us[i] < us[j]);
            }
            lemma_unit_edited(s, reference, ws, us, k, 0, j);
            lemma_wide_edit(s, reference, name, value, places, reach, k);
        } else {
            assert forall|i: int| 0 <= i < us.len() implies #[trigger] us[i] != k by {
                assert(us.contains(us[i]));
            }
            lemma_unit_edited(s, reference, ws, us, k, 0, us.len() as int);
            assert(!reaches(s, all[k], name, reach));
        }
    }
}

// ── What the units carry ─────────────────────────────────────────────────────

/// Some unit carries a property exactly where the text of one holds it.
pub proof fn lemma_carries(s: Seq<u8>, reference: Seq<char>, name: Seq<char>)
    ensures
        carries(s, reference, name) <==> exists|k: int|
            0 <= k < instance_blocks(s, reference).len() && occurs(
                #[trigger] unit_text(s, reference, k),
                utf8(property_start(name)),
            ),
{
    let all = instance_blocks(s, reference);
    if carries(s, reference, name) {
        let k = choose|k: int| 0 <= k < all.len() && holds(s, #[trigger] all[k], name);
        assert(occurs(unit_text(s, reference, k), utf8(property_start(name))));
    }
    if exists|k: int|
        0 <= k < all.len() && occurs(
            #[trigger] unit_text(s, reference, k),
            utf8(property_start(name)),
        ) {
        let k = choose|k: int|
            0 <= k < all.len() && occurs(
                #[trigger] unit_text(s, reference, k),
                utf8(property_start(name)),
            );
        assert(holds(s, all[k], name));
    }
}

/// The text of a unit to which a property is added: its end stays its end.
pub open spec fn with_property(
    text: Seq<u8>,
    name: Seq<char>,
    value: Seq<char>,
    place: PointText,
) -> Seq<u8> {
    let end = text.len() - 1;
    spliced(
        text,
        end,
        end,
        utf8(new_property(property_indent(text), name, value, place.x@, place.y@)),
    )
}

/// Where search texts stand in a unit with a property added: where they stood
/// before, and, where it is the property's own beginning, in the property.
pub proof fn lemma_with_property(
    text: Seq<u8>,
    name: Seq<char>,
    value: Seq<char>,
    place: PointText,
    other: Seq<char>,
    i: int,
)
    requires
        text.len() > 1,
        text.last() == 0x29,
        unmarked(name),
        unmarked(other),
        mild(utf8(escaped(value, false))),
        unmarked(place.x@),
        unmarked(place.y@),
    ensures
        ({
            let p = utf8(property_start(other));
            let at = text.len() - 1 + utf8("\n"@ + property_indent(text)).len();
            occurs_at(with_property(text, name, value, place), p, i) <==> occurs_at(text, p, i) || (
            other == name && i == at)
        }),
{
    let end = text.len() - 1;
    let indent = property_indent(text);
    let before = utf8("\n"@ + indent);
    let head = utf8(property_start(name));
    let p = utf8(property_start(other));
    let rest = utf8(property_rest(indent, escaped(value, false), place.x@, place.y@));
    let n = utf8(new_property(indent, name, value, place.x@, place.y@));
    let t = with_property(text, name, value, place);
    let at = end + before.len();
    lemma_indent_unmarked(text);
    lemma_property_split(indent, name, value, place.x@, place.y@);
    lemma_start_bytes(name);
    lemma_start_bytes(other);
    lemma_graft_bytes(text, end, end, n);
    reveal_strlit("\n");
    lemma_one_byte("\n"@);
    lemma_utf8_add("\n"@, indent);
    assert(n == before + head + rest);
    assert(n[0] == 0x0a);
    lemma_property_steps(indent, name, value, place.x@, place.y@);
    lemma_stops(p, text[end], n);
    if 0 <= i < end {
        lemma_graft_occurs(text, end, end, n, p, i);
    } else if i >= end {
        // Behind the old text only the last parenthesis is left, and no list
        // opens there.
        if occurs_at(text, p, i) {
            assert(text.subrange(i, i + p.len())[0] == text[i]);
        }
        if i < end + n.len() {
            lemma_inside_property(indent, name, value, place.x@, place.y@, other);
            assert(t.subrange(end, end + n.len()) =~= n);
            if occurs_at(t, p, i) {
                assert(t.subrange(i, i + p.len())[0] == t[end + (i - end)]);
                assert(n[i - end] == 0x28);
                if !(other == name && i == at) {
                    assert(differs_at(n, p, i - end));
                    let k = choose|k: int|
                        0 <= k < p.len() && i - end + k < n.len() && #[trigger] p[k] != n[i - end
                            + k];
                    assert(t.subrange(i, i + p.len())[k] == t[end + (i - end + k)]);
                }
            }
            if other == name && i == at {
                assert(t.subrange(at, at + p.len()) =~= p) by {
                    assert forall|k: int| 0 <= k < p.len() implies t[at + k] == #[trigger] p[k] by {
                        assert(n[before.len() + k] == head[k]);
                        assert(t[end + (before.len() + k)] == n[before.len() + k]);
                    }
                }
            }
        } else if occurs_at(t, p, i) {
            assert(t.subrange(i, i + p.len())[0] == t[i]);
        }
    }
}

/// Where lists open in a new property, no other property begins.
proof fn lemma_inside_property(
    indent: Seq<char>,
    name: Seq<char>,
    value: Seq<char>,
    x: Seq<char>,
    y: Seq<char>,
    other: Seq<char>,
)
    requires
        unmarked(indent),
        unmarked(name),
        unmarked(other),
        mild(utf8(escaped(value, false))),
        unmarked(x),
        unmarked(y),
    ensures
        ({
            let n = utf8(new_property(indent, name, value, x, y));
            let p = utf8(property_start(other));
            forall|i: int|
                0 <= i < n.len() && #[trigger] n[i] == 0x28 ==> differs_at(n, p, i) || (other
                    == name && i == utf8("\n"@ + indent).len())
        }),
{
    let n = utf8(new_property(indent, name, value, x, y));
    let p = utf8(property_start(other));
    lemma_start_bytes(other);
    lemma_of_property(other, other);
    lemma_mild_absent(utf8(escaped(value, false)), p);
    if other != name {
        lemma_names_differ(name, other);
        lemma_property_absent(indent, name, value, x, y, p);
    } else {
        let before = utf8("\n"@ + indent);
        let rest = utf8(property_rest(indent, escaped(value, false), x, y));
        lemma_property_split(indent, name, value, x, y);
        lemma_rest_absent(indent, escaped(value, false), x, y, p);
        reveal_strlit("\n");
        lemma_one_byte("\n"@);
        lemma_utf8_add("\n"@, indent);
        lemma_byte_absent(indent, '(');
        assert forall|i: int| 0 <= i < n.len() && #[trigger] n[i] == 0x28 implies differs_at(
            n,
            p,
            i,
        ) || i == before.len() by {
            if i < before.len() {
                assert(before[i] == n[i]);
            } else if i < before.len() + p.len() {
                assert(p[i - before.len()] == n[i]);
            } else {
                let m = i - before.len() - p.len();
                assert(rest[m] == n[i]);
                let k = choose|k: int|
                    0 <= k < p.len() && m + k < rest.len() && #[trigger] p[k] != rest[m + k];
                assert(p[k] != n[i + k]);
            }
        }
    }
}

/// A property that was added to a component is carried by it, on every unit;
/// and the component carries every other property that it carried, and no
/// other.
pub proof fn law_added_is_carried(
    s: Seq<u8>,
    reference: Seq<char>,
    name: Seq<char>,
    value: Seq<char>,
    places: Seq<PointText>,
    other: Seq<char>,
)
    requires
        property_added(s, reference, name, value, places) is Ok,
        field_ready(s, reference, name, value, places, (Reach { set: false, add: true })),
        unmarked(other),
    ensures
        ({
            let t = property_added(s, reference, name, value, places)->Ok_0;
            &&& carries(t, reference, name)
            &&& forall|k: int|
                0 <= k < instance_blocks(t, reference).len() ==> holds(
                    t,
                    #[trigger] instance_blocks(t, reference)[k],
                    name,
                )
            &&& other != name ==> carries(t, reference, other) == carries(s, reference, other)
        }),
{
    let reach = Reach { set: false, add: true };
    let t = property_added(s, reference, name, value, places)->Ok_0;
    let all = instance_blocks(s, reference);
    let now = instance_blocks(t, reference);
    law_field_on_every_unit(s, reference, name, value, places, reach);
    assert forall|k: int| 0 <= k < now.len() implies holds(t, #[trigger] now[k], name) by {
        lemma_added_holds(s, t, reference, name, value, places, name, k);
        assert(occurs(unit_text(t, reference, k), utf8(property_start(name))));
    }
    assert(holds(t, now[0], name));
    lemma_carries(s, reference, other);
    lemma_carries(t, reference, other);
    if other != name {
        assert forall|k: int| 0 <= k < all.len() implies occurs(
            #[trigger] unit_text(t, reference, k),
            utf8(property_start(other)),
        ) == occurs(unit_text(s, reference, k), utf8(property_start(other))) by {
            lemma_added_holds(s, t, reference, name, value, places, other, k);
        }
        if carries(s, reference, other) {
            let k = choose|k: int|
                0 <= k < all.len() && occurs(
                    #[trigger] unit_text(s, reference, k),
                    utf8(property_start(other)),
                );
            assert(occurs(unit_text(t, reference, k), utf8(property_start(other))));
        }
        if carries(t, reference, other) {
            let k = choose|k: int|
                0 <= k < now.len() && occurs(
                    #[trigger] unit_text(t, reference, k),
                    utf8(property_start(other)),
                );
            assert(occurs(unit_text(s, reference, k), utf8(property_start(other))));
        }
    }
}

/// What a unit holds after a property was added to it.
proof fn lemma_added_holds(
    s: Seq<u8>,
    t: Seq<u8>,
    reference: Seq<char>,
    name: Seq<char>,
    value: Seq<char>,
    places: Seq<PointText>,
    other: Seq<char>,
    k: int,
)
    requires
        field_ready(s, reference, name, value, places, (Reach { set: false, add: true })),
        unmarked(other),
        0 <= k < instance_blocks(s, reference).len(),
        unit_text(t, reference, k) == unit_after(
            unit_text(s, reference, k),
            name,
            value,
            places[k],
            (Reach { set: false, add: true }),
        ),
    ensures
        occurs(unit_text(t, reference, k), utf8(property_start(other))) <==> occurs(
            unit_text(s, reference, k),
            utf8(property_start(other)),
        ) || other == name,
{
    let text = unit_text(s, reference, k);
    let now = unit_text(t, reference, k);
    let p = utf8(property_start(other));
    let b = instance_blocks(s, reference)[k];
    lemma_unit_end(s, reference, k);
    lemma_occurs(text, p);
    lemma_occurs(now, p);
    assert(unmarked(places[k].x@) && unmarked(places[k].y@));
    assert(text.last() == s[b.1 - 1]);
    assert forall|i: int| occurs_at(now, p, i) <==> occurs_at(text, p, i) || (other == name && i
        == text.len() - 1 + utf8("\n"@ + property_indent(text)).len()) by {
        lemma_with_property(text, name, value, places[k], other, i);
    }
    if other == name {
        let at = text.len() - 1 + utf8("\n"@ + property_indent(text)).len();
        assert(occurs_at(now, p, at));
    }
    if occurs(text, p) {
        let i = choose|i: int| occurs_at(text, p, i);
        assert(occurs_at(now, p, i));
    }
    if occurs(now, p) {
        let i = choose|i: int| occurs_at(now, p, i);
        assert(occurs_at(text, p, i) || other == name);
    }
}

// ── The units of other components ────────────────────────────────────────────

/// An edit of a unit holds no designator of another component either.
proof fn lemma_wide_sound(
    s: Seq<u8>,
    reference: Seq<char>,
    name: Seq<char>,
    value: Seq<char>,
    places: Seq<PointText>,
    reach: Reach,
    k: int,
    other: Seq<char>,
)
    requires
        field_ready(s, reference, name, value, places, reach),
        0 <= k < instance_blocks(s, reference).len(),
        reaches(s, instance_blocks(s, reference)[k], name, reach),
        unmarked(other),
        name == "Reference"@ ==> value != other,
    ensures
        sound(
            s,
            wide_edit(s, instance_blocks(s, reference)[k], name, value, places[k], reach),
            utf8(reference_property(other)),
        ),
{
    let b = instance_blocks(s, reference)[k];
    let w = wide_edit(s, b, name, value, places[k], reach);
    let p = utf8(reference_property(other));
    lemma_wide_edit(s, reference, name, value, places, reach, k);
    if reach.sets(holds(s, b, name)) {
        let head = utf8(property_start(name));
        let a = value_start(s, b, name);
        let end = value_end(s, b, name)->0;
        let old_value = s.subrange(a, end);
        lemma_value_place(s, reference, k, name);
        lemma_unescaped(value);
        lemma_not_the_designator(name, other);
        lemma_of_property(name, other);
        lemma_byte_absent(value, '"');
        lemma_byte_absent(value, '\\');
        assert(s.subrange(w.start, w.end) =~= head + old_value + seq![0x22u8]) by {
            assert forall|i: int| 0 <= i < head.len() implies s[w.start + i]
                == #[trigger] head[i] by {
                assert(s.subrange(w.start, a)[i] == s[w.start + i]);
            }
        }
        assert forall|i: int| 0 <= i < old_value.len() implies #[trigger] old_value[i] != 0x22
            && old_value[i] != 0x5c by {
            assert(old_value[i] == s[a + i]);
        }
        lemma_value_swappable(name, old_value, p);
        lemma_value_swappable(name, utf8(value), p);
    } else {
        let text = unit_text(s, reference, k);
        assert(unmarked(places[k].x@) && unmarked(places[k].y@));
        lemma_indent_unmarked(text);
        lemma_property_insertable(property_indent(text), name, value, places[k], other);
    }
}

/// An edit touches none of the blocks.
pub open spec fn clear_of(blocks: Seq<(int, int)>, w: Edit) -> bool {
    forall|k: int|
        0 <= k < blocks.len() ==> (#[trigger] blocks[k]).1 <= w.start || w.end <= blocks[k].0
}

/// One edit outside the units of a component leaves them as they are.
pub proof fn lemma_one_beside(s: Seq<u8>, other: Seq<char>, w: Edit)
    requires
        unmarked(other),
        sound(s, w, utf8(reference_property(other))),
        clear_of(instance_blocks(s, other), w),
    ensures
        ({
            let t = spliced(s, w.start, w.end, w.text);
            let all = instance_blocks(s, other);
            let now = instance_blocks(t, other);
            &&& now.len() == all.len()
            &&& forall|k: int|
                0 <= k < all.len() ==> #[trigger] now[k] == moved_block(
                    all[k],
                    w.start,
                    w.text.len() - (w.end - w.start),
                )
            &&& forall|k: int|
                0 <= k < all.len() ==> #[trigger] unit_text(t, other, k) == unit_text(s, other, k)
        }),
{
    let t = spliced(s, w.start, w.end, w.text);
    let by = w.text.len() - (w.end - w.start);
    let all = instance_blocks(s, other);
    let now = instance_blocks(t, other);
    lemma_property_exchange(other, other);
    lemma_sound_graft(s, w, utf8(reference_property(other)));
    lemma_graft_bytes(s, w.start, w.end, w.text);
    lemma_graft_units(s, w.start, w.end, w.text, other);
    lemma_units(s, other);
    assert forall|k: int| 0 <= k < all.len() implies #[trigger] unit_text(t, other, k) == unit_text(
        s,
        other,
        k,
    ) by {
        assert(unit_shaped(s, all[k]));
        assert(now[k] == moved_block(all[k], w.start, by));
        assert(t.subrange(now[k].0, now[k].1) =~= s.subrange(all[k].0, all[k].1));
    }
}

/// So do any number of them.
pub proof fn lemma_all_beside(s: Seq<u8>, other: Seq<char>, ws: Seq<Edit>)
    requires
        unmarked(other),
        in_line(ws),
        forall|i: int, j: int|
            0 <= i < j < ws.len() ==> (#[trigger] ws[i]).start < (#[trigger] ws[j]).start,
        forall|j: int|
            0 <= j < ws.len() ==> sound(s, #[trigger] ws[j], utf8(reference_property(other))),
        forall|j: int| 0 <= j < ws.len() ==> clear_of(instance_blocks(s, other), #[trigger] ws[j]),
    ensures
        ({
            let t = rewritten(s, ws, 0);
            &&& instance_blocks(t, other).len() == instance_blocks(s, other).len()
            &&& forall|k: int|
                0 <= k < instance_blocks(s, other).len() ==> #[trigger] unit_text(t, other, k)
                    == unit_text(s, other, k)
        }),
    decreases ws.len(),
{
    if ws.len() > 0 {
        let l = ws.last();
        let p = utf8(reference_property(other));
        let s1 = spliced(s, l.start, l.end, l.text);
        let rest = ws.drop_last();
        let all = instance_blocks(s, other);
        let mid = instance_blocks(s1, other);
        assert(sound(s, ws[ws.len() - 1], p));
        assert(clear_of(all, ws[ws.len() - 1]));
        assert(0 <= ws[0].start);
        lemma_last_first(s, ws, 0);
        lemma_one_beside(s, other, l);
        lemma_units(s, other);
        assert forall|j: int| 0 <= j < rest.len() implies sound(s1, #[trigger] rest[j], p) by {
            assert(ws[j].start < ws[ws.len() - 1].start);
            assert(ws[j].end <= ws[ws.len() - 1].start);
            lemma_still_sound(s, ws[j], l, p);
        }
        assert forall|j: int| 0 <= j < rest.len() implies clear_of(mid, #[trigger] rest[j]) by {
            assert(ws[j].end <= ws[ws.len() - 1].start);
            assert(clear_of(all, ws[j]));
            assert forall|k: int| 0 <= k < mid.len() implies (#[trigger] mid[k]).1 <= rest[j].start
                || rest[j].end <= mid[k].0 by {
                assert(unit_shaped(s, all[k]));
                assert(mid[k] == moved_block(all[k], l.start, l.text.len() - (l.end - l.start)));
                assert(all[k].1 <= ws[j].start || ws[j].end <= all[k].0);
                assert(all[k].1 <= l.start || l.end <= all[k].0);
            }
        }
        assert forall|i: int, j: int| 0 <= i < j < rest.len() implies (#[trigger] rest[i]).start < (
        #[trigger] rest[j]).start by {
            assert(ws[i].start < ws[j].start);
        }
        assert forall|i: int, j: int| 0 <= i < j < rest.len() implies (#[trigger] rest[i]).end <= (
        #[trigger] rest[j]).start by {
            assert(ws[i].end <= ws[j].start);
        }
        assert forall|i: int| 0 <= i < rest.len() implies 0 <= (#[trigger] rest[i]).start
            <= rest[i].end by {
            assert(0 <= ws[i].start <= ws[i].end);
        }
        lemma_all_beside(s1, other, rest);
        assert forall|k: int| 0 <= k < all.len() implies #[trigger] unit_text(
            rewritten(s, ws, 0),
            other,
            k,
        ) == unit_text(s, other, k) by {
            assert(unit_text(s1, other, k) == unit_text(s, other, k));
        }
    } else {
        assert(rewritten(s, ws, 0) =~= s);
    }
}

/// A change to a field of a component leaves the units of every other
/// component as they are, byte for byte, as many as they are, provided that
/// they stand apart from its own.
pub proof fn law_field_leaves_the_others(
    s: Seq<u8>,
    reference: Seq<char>,
    name: Seq<char>,
    value: Seq<char>,
    places: Seq<PointText>,
    reach: Reach,
    other: Seq<char>,
)
    requires
        field_changed(s, reference, name, value, places, reach) is Ok,
        field_ready(s, reference, name, value, places, reach),
        unmarked(other),
        name == "Reference"@ ==> value != other,
        forall|i: int, j: int|
            0 <= i < instance_blocks(s, reference).len() && 0 <= j < instance_blocks(
                s,
                other,
            ).len() ==> (#[trigger] instance_blocks(s, reference)[i]).1 <= (
            #[trigger] instance_blocks(s, other)[j]).0 || instance_blocks(s, other)[j].1
                <= instance_blocks(s, reference)[i].0,
    ensures
        ({
            let t = field_changed(s, reference, name, value, places, reach)->Ok_0;
            &&& instance_blocks(t, other).len() == instance_blocks(s, other).len()
            &&& forall|k: int|
                0 <= k < instance_blocks(s, other).len() ==> #[trigger] unit_text(t, other, k)
                    == unit_text(s, other, k)
        }),
{
    let all = instance_blocks(s, reference);
    let n = all.len() as int;
    let us = owners(s, all, n, name, reach);
    let g = |k: int| wide_edit(s, all[k], name, value, places[k], reach);
    let ws = us.map_values(g);
    let p = utf8(reference_property(other));
    law_instance_blocks_in_order(s, reference);
    lemma_owners(s, all, n, name, reach);
    lemma_change_edits(s, reference, name, value, places, reach);
    lemma_unit_edits_in_line(s, reference, ws, us);
    lemma_units(s, reference);
    assert forall|j: int| 0 <= j < ws.len() implies {
        &&& sound(s, #[trigger] ws[j], p)
        &&& clear_of(instance_blocks(s, other), ws[j])
    } by {
        assert(us.contains(us[j]));
        lemma_wide_sound(s, reference, name, value, places, reach, us[j], other);
        let b = all[us[j]];
        assert(b.0 < ws[j].start && ws[j].end < b.1);
        assert forall|k: int| 0 <= k < instance_blocks(s, other).len() implies (
        #[trigger] instance_blocks(s, other)[k]).1 <= ws[j].start || ws[j].end
            <= instance_blocks(s, other)[k].0 by {
            assert(all[us[j]].1 <= instance_blocks(s, other)[k].0 || instance_blocks(s, other)[k].1
                <= all[us[j]].0);
        }
    }
    assert forall|i: int, j: int| 0 <= i < j < ws.len() implies (#[trigger] ws[i]).start < (
    #[trigger] ws[j]).start by {
        assert(us[i] < us[j]);
        assert(all[us[i]].1 <= all[us[j]].0);
        assert(ws[i].end < all[us[i]].1 && all[us[j]].0 < ws[j].start);
        assert(ws[i].start <= ws[i].end);
    }
    lemma_all_beside(s, other, ws);
}

// ── A property and its value ─────────────────────────────────────────────────

/// What follows the value of a new property.
spec fn property_tail(indent: Seq<char>, x: Seq<char>, y: Seq<char>) -> Seq<char> {
    "\"\n"@ + indent + "\t(at "@ + x + " "@ + y + " 0)\n"@ + indent + "\t(hide yes)\n"@ + indent
        + "\t(effects\n"@ + indent + "\t\t(font\n"@ + indent + "\t\t\t(size 1.27 1.27)\n"@ + indent
        + "\t\t)\n"@ + indent + "\t)\n"@ + indent + ")"@
}

/// A new property is its beginning, its value and what follows the value.
proof fn lemma_property_value(
    indent: Seq<char>,
    name: Seq<char>,
    value: Seq<char>,
    x: Seq<char>,
    y: Seq<char>,
)
    ensures
        ({
            let before = utf8("\n"@ + indent);
            let head = utf8(property_start(name));
            let tail = utf8(property_tail(indent, x, y));
            &&& utf8(new_property(indent, name, value, x, y)) == before + head + utf8(
                escaped(value, false),
            ) + tail
            &&& tail.len() > 0
            &&& tail[0] == 0x22
        }),
{
    let before = utf8("\n"@ + indent);
    let head = utf8(property_start(name));
    let tail = property_tail(indent, x, y);
    let written = escaped(value, false);
    lemma_property_split(indent, name, value, x, y);
    let r0 = "\"\n"@;
    let r1 = r0 + indent;
    lemma_regrouped(written, r0, indent);
    let r2 = r1 + "\t(at "@;
    lemma_regrouped(written, r1, "\t(at "@);
    let r3 = r2 + x;
    lemma_regrouped(written, r2, x);
    let r4 = r3 + " "@;
    lemma_regrouped(written, r3, " "@);
    let r5 = r4 + y;
    lemma_regrouped(written, r4, y);
    let r6 = r5 + " 0)\n"@;
    lemma_regrouped(written, r5, " 0)\n"@);
    let r7 = r6 + indent;
    lemma_regrouped(written, r6, indent);
    let r8 = r7 + "\t(hide yes)\n"@;
    lemma_regrouped(written, r7, "\t(hide yes)\n"@);
    let r9 = r8 + indent;
    lemma_regrouped(written, r8, indent);
    let r10 = r9 + "\t(effects\n"@;
    lemma_regrouped(written, r9, "\t(effects\n"@);
    let r11 = r10 + indent;
    lemma_regrouped(written, r10, indent);
    let r12 = r11 + "\t\t(font\n"@;
    lemma_regrouped(written, r11, "\t\t(font\n"@);
    let r13 = r12 + indent;
    lemma_regrouped(written, r12, indent);
    let r14 = r13 + "\t\t\t(size 1.27 1.27)\n"@;
    lemma_regrouped(written, r13, "\t\t\t(size 1.27 1.27)\n"@);
    let r15 = r14 + indent;
    lemma_regrouped(written, r14, indent);
    let r16 = r15 + "\t\t)\n"@;
    lemma_regrouped(written, r15, "\t\t)\n"@);
    let r17 = r16 + indent;
    lemma_regrouped(written, r16, indent);
    let r18 = r17 + "\t)\n"@;
    lemma_regrouped(written, r17, "\t)\n"@);
    let r19 = r18 + indent;
    lemma_regrouped(written, r18, indent);
    let r20 = r19 + ")"@;
    lemma_regrouped(written, r19, ")"@);
    assert(property_rest(indent, written, x, y) == written + tail);
    lemma_utf8_add(written, tail);
    assert(before + head + utf8(written + tail) =~= before + head + utf8(written) + utf8(tail));
    lemma_tail_first(indent, x, y);
}

/// A quote follows the value.
proof fn lemma_tail_first(indent: Seq<char>, x: Seq<char>, y: Seq<char>)
    ensures
        utf8(property_tail(indent, x, y)).len() > 0,
        utf8(property_tail(indent, x, y))[0] == 0x22,
{
    let tail = property_tail(indent, x, y);
    reveal_strlit("\"\n");
    reveal_strlit(")");
    assert(tail.len() > 0);
    assert(tail[0] == '"');
    assert(tail.last() == ')');
    crate::text::lemma_edges(tail);
}

/// In a unit to which a property was added the property is found, with its
/// value.
pub proof fn lemma_added_value(
    text: Seq<u8>,
    name: Seq<char>,
    value: Seq<char>,
    place: PointText,
)
    requires
        text.len() > 1,
        text.last() == 0x29,
        unmarked(name),
        tame(value),
        unmarked(place.x@),
        unmarked(place.y@),
        !occurs(text, utf8(property_start(name))),
    ensures
        ({
            let now = with_property(text, name, value, place);
            let head = utf8(property_start(name));
            let at = text.len() - 1 + utf8("\n"@ + property_indent(text)).len();
            let a = at + head.len();
            &&& first_at(now, head, 0) == Some(at as int)
            &&& forall|i: int| occurs_at(now, head, i) ==> i == at
            &&& a + utf8(value).len() + 1 < now.len()
            &&& now.subrange(a as int, a + utf8(value).len()) == utf8(value)
            &&& now[a + utf8(value).len()] == 0x22
        }),
{
    let now = with_property(text, name, value, place);
    let head = utf8(property_start(name));
    let indent = property_indent(text);
    let before = utf8("\n"@ + indent);
    let n = utf8(new_property(indent, name, value, place.x@, place.y@));
    let tail = utf8(property_tail(indent, place.x@, place.y@));
    let end = text.len() - 1;
    let at = end + before.len();
    let a = at + head.len();
    lemma_occurs(text, head);
    lemma_unescaped(value);
    assert forall|i: int| occurs_at(now, head, i) <==> i == at by {
        lemma_with_property(text, name, value, place, name, i);
    }
    lemma_first_at(now, head, 0);
    assert(occurs_at(now, head, at as int));
    lemma_unescaped(value);
    lemma_property_value(indent, name, value, place.x@, place.y@);
    lemma_graft_bytes(text, end as int, end as int, n);
    assert forall|i: int| 0 <= i < utf8(value).len() implies now[a + i] == #[trigger] utf8(value)[i] by {
        assert(n[before.len() + head.len() + i] == utf8(value)[i]);
        assert(now[end + (before.len() + head.len() + i)] == n[before.len() + head.len() + i]);
    }
    assert(now.subrange(a as int, a + utf8(value).len()) =~= utf8(value));
    let q = before.len() + head.len() + utf8(value).len();
    assert(n[q as int] == tail[0]);
    assert(now[end + q] == n[q as int]);
}

/// Setting the value of a property that was added is adding it with that
/// value.
proof fn lemma_added_then_set(
    text: Seq<u8>,
    name: Seq<char>,
    value: Seq<char>,
    again: Seq<char>,
    place: PointText,
    other: PointText,
    reach: Reach,
)
    requires
        text.len() > 1,
        text.last() == 0x29,
        unmarked(name),
        tame(value),
        tame(again),
        unmarked(place.x@),
        unmarked(place.y@),
        !occurs(text, utf8(property_start(name))),
        reach.set,
    ensures
        unit_after(with_property(text, name, value, place), name, again, other, reach)
            == with_property(text, name, again, place),
{
    let now = with_property(text, name, value, place);
    let head = utf8(property_start(name));
    let indent = property_indent(text);
    let before = utf8("\n"@ + indent);
    let tail = utf8(property_tail(indent, place.x@, place.y@));
    let n = utf8(new_property(indent, name, value, place.x@, place.y@));
    let m = utf8(new_property(indent, name, again, place.x@, place.y@));
    let end = text.len() - 1;
    let a = end + before.len() + head.len();
    let e = a + utf8(value).len();
    let quote = utf8("\""@);
    lemma_added_value(text, name, value, place);
    lemma_unescaped(value);
    lemma_property_value(indent, name, value, place.x@, place.y@);
    lemma_unescaped(again);
    lemma_property_value(indent, name, again, place.x@, place.y@);
    reveal_strlit("\"");
    lemma_one_byte("\""@);
    assert(quote =~= seq![0x22u8]);
    lemma_byte_absent(value, '"');
    lemma_first_at(now, quote, a as int);
    assert(now.subrange(e as int, e + 1) =~= quote);
    assert(occurs_at(now, quote, e as int));
    let f = first_at(now, quote, a as int)->0;
    if f < e {
        assert(now.subrange(f, f + 1)[0] == now[f]);
        assert(now.subrange(a as int, e as int)[f - a] == now[f]);
    }
    assert(occurs(now, head));
    let front = text.subrange(0, end as int);
    let back = text.subrange(end as int, text.len() as int);
    assert(now =~= front + (before + head + utf8(value) + tail) + back);
    assert(with_property(text, name, again, place) =~= front + (before + head + utf8(again) + tail)
        + back);
    assert(spliced(now, a as int, e as int, utf8(again)) =~= front + (before + head + utf8(again)
        + tail) + back);
}

/// A unit of a component reads as if it had been annotated once, with that
/// value and at that place: it has one property of the key.
pub open spec fn annotated_at(
    s: Seq<u8>,
    u: Seq<u8>,
    reference: Seq<char>,
    key: Seq<char>,
    value: Seq<char>,
    place: PointText,
    k: int,
) -> bool {
    let head = utf8(property_start(key));
    let text = unit_text(u, reference, k);
    &&& text == unit_after(
        unit_text(s, reference, k),
        key,
        value,
        place,
        (Reach { set: false, add: true }),
    )
    &&& occurs(text, head)
    &&& forall|i: int, j: int| occurs_at(text, head, i) && occurs_at(text, head, j) ==> i == j
}

/// What is known of a unit after the first annotation.
spec fn first_annotated(
    s: Seq<u8>,
    t: Seq<u8>,
    reference: Seq<char>,
    key: Seq<char>,
    value: Seq<char>,
    place: PointText,
    k: int,
) -> bool {
    let text = unit_text(s, reference, k);
    let b = instance_blocks(t, reference)[k];
    &&& text.len() > 1
    &&& text.last() == 0x29
    &&& !occurs(text, utf8(property_start(key)))
    &&& unit_text(t, reference, k) == with_property(text, key, value, place)
    &&& holds(t, b, key)
    &&& value_tame(t, b, key)
    &&& unmarked(place.x@)
    &&& unmarked(place.y@)
}

/// The first annotation with a key.
proof fn lemma_first_annotation(
    s: Seq<u8>,
    reference: Seq<char>,
    key: Seq<char>,
    value: Seq<char>,
    places: Seq<PointText>,
)
    requires
        property_set(s, reference, key, value, places) is Ok,
        !carries(s, reference, key),
        field_ready(s, reference, key, value, places, (Reach { set: true, add: true })),
        bare(value),
    ensures
        ({
            let t = property_set(s, reference, key, value, places)->Ok_0;
            &&& instance_blocks(t, reference).len() == instance_blocks(s, reference).len()
            &&& unnested(instance_blocks(t, reference))
            &&& forall|k: int|
                0 <= k < instance_blocks(s, reference).len() ==> #[trigger] first_annotated(
                    s,
                    t,
                    reference,
                    key,
                    value,
                    places[k],
                    k,
                )
        }),
{
    let t = property_set(s, reference, key, value, places)->Ok_0;
    let all = instance_blocks(s, reference);
    law_field_on_every_unit(s, reference, key, value, places, (Reach { set: true, add: true }));
    assert forall|k: int| 0 <= k < all.len() implies #[trigger] first_annotated(
        s,
        t,
        reference,
        key,
        value,
        places[k],
        k,
    ) by {
        lemma_unit_end(s, reference, k);
        assert(!holds(s, all[k], key));
        assert(unmarked(places[k].x@) && unmarked(places[k].y@));
        assert(unit_text(s, reference, k).last() == s[all[k].1 - 1]);
        lemma_unescaped(value);
        lemma_annotated_unit(s, t, reference, key, value, places[k], k);
    }
}

/// A key that an annotation put on a component is there from then on, once on
/// every unit: the next annotation with that key gives it another value and
/// adds no second one. Every unit then reads as if it had been annotated with
/// that value alone, at the unit's own place.
pub proof fn law_annotated_once(
    s: Seq<u8>,
    reference: Seq<char>,
    key: Seq<char>,
    value: Seq<char>,
    again: Seq<char>,
    places: Seq<PointText>,
    later: Seq<PointText>,
)
    requires
        annotated(s, reference, key, value, places) is Ok,
        !(annotated(s, reference, key, value, places)->Ok_0).1,
        field_ready(s, reference, key, value, places, (Reach { set: true, add: true })),
        bare(value),
        tame(again),
        later.len() == places.len(),
        forall|k: int|
            0 <= k < later.len() ==> unmarked((#[trigger] later[k]).x@) && unmarked(later[k].y@),
    ensures
        ({
            let t = (annotated(s, reference, key, value, places)->Ok_0).0;
            annotated(t, reference, key, again, later) matches Ok((u, had)) && {
                &&& had
                &&& parsed(s) is Some ==> parsed(u) is Some
                &&& instance_blocks(u, reference).len() == instance_blocks(s, reference).len()
                &&& forall|k: int|
                    0 <= k < instance_blocks(s, reference).len() ==> #[trigger] annotated_at(
                        s,
                        u,
                        reference,
                        key,
                        again,
                        places[k],
                        k,
                    )
            }
        }),
{
    let reach = Reach { set: true, add: true };
    let t = (annotated(s, reference, key, value, places)->Ok_0).0;
    let all = instance_blocks(s, reference);
    let mid = instance_blocks(t, reference);
    lemma_unescaped(value);
    lemma_unescaped(again);
    lemma_first_annotation(s, reference, key, value, places);
    law_field_on_every_unit(s, reference, key, value, places, reach);
    assert forall|k: int| 0 <= k < mid.len() implies {
        &&& unit_fault(t, #[trigger] mid[k], reference, key, reach) is None
        &&& holds(t, mid[k], key)
        &&& value_tame(t, mid[k], key)
    } by {
        assert(first_annotated(s, t, reference, key, value, places[k], k));
    }
    assert(all.len() > 0);
    assert(holds(t, mid[0], key));
    crate::properties::lemma_first_fault(t, mid, 0, mid.len() as int, reference, key, reach);
    assert(field_ready(t, reference, key, again, later, reach));
    law_field_on_every_unit(t, reference, key, again, later, reach);
    let u = field_changed(t, reference, key, again, later, reach)->Ok_0;
    assert forall|k: int| 0 <= k < all.len() implies #[trigger] annotated_at(
        s,
        u,
        reference,
        key,
        again,
        places[k],
        k,
    ) by {
        let text = unit_text(s, reference, k);
        assert(first_annotated(s, t, reference, key, value, places[k], k));
        assert(unit_text(u, reference, k) == unit_after(
            unit_text(t, reference, k),
            key,
            again,
            later[k],
            reach,
        ));
        lemma_added_then_set(text, key, value, again, places[k], later[k], reach);
        lemma_added_value(text, key, again, places[k]);
    }
    assert(instance_block(t, reference) == Some(mid[0]));
}

/// A unit that was annotated for the first time.
proof fn lemma_annotated_unit(
    s: Seq<u8>,
    t: Seq<u8>,
    reference: Seq<char>,
    key: Seq<char>,
    value: Seq<char>,
    place: PointText,
    k: int,
)
    requires
        0 <= k < instance_blocks(s, reference).len(),
        0 <= k < instance_blocks(t, reference).len(),
        unmarked(key),
        tame(value),
        unmarked(place.x@),
        unmarked(place.y@),
        !occurs(unit_text(s, reference, k), utf8(property_start(key))),
        unit_text(t, reference, k) == unit_after(
            unit_text(s, reference, k),
            key,
            value,
            place,
            (Reach { set: true, add: true }),
        ),
    ensures
        unit_text(t, reference, k) == with_property(unit_text(s, reference, k), key, value, place),
        holds(t, instance_blocks(t, reference)[k], key),
        value_tame(t, instance_blocks(t, reference)[k], key),
{
    let text = unit_text(s, reference, k);
    let now = unit_text(t, reference, k);
    let b = instance_blocks(t, reference)[k];
    let head = utf8(property_start(key));
    let quote = utf8("\""@);
    lemma_unit_end(s, reference, k);
    lemma_unit_end(t, reference, k);
    lemma_added_value(text, key, value, place);
    assert(occurs(now, head));
    let a = value_start(t, b, key);
    let e = a + utf8(value).len();
    let o = a - b.0;
    assert forall|i: int| 0 <= i < utf8(value).len() implies t[a + i] == #[trigger] utf8(value)[i] by {
        assert(now.subrange(o, o + utf8(value).len())[i] == now[o + i]);
        assert(now[o + i] == t[b.0 + (o + i)]);
    }
    lemma_byte_absent(value, '"');
    lemma_byte_absent(value, '\\');
    reveal_strlit("\"");
    lemma_one_byte("\""@);
    assert(quote =~= seq![0x22u8]);
    assert(t[e] == now[o + utf8(value).len()]);
    lemma_first_at(t, quote, a);
    assert(t.subrange(e, e + 1) =~= quote);
    assert(occurs_at(t, quote, e));
    let f = first_at(t, quote, a)->0;
    if f < e {
        assert(t.subrange(f, f + 1)[0] == t[f]);
        assert(t[a + (f - a)] == utf8(value)[f - a]);
    }
    assert forall|i: int| a <= i < e implies #[trigger] t[i] != 0x5c by {
        assert(t[a + (i - a)] == utf8(value)[i - a]);
    }
    assert(t.subrange(a, e) =~= utf8(value));
    lemma_added_outside(s, reference, k, key, value, place);
}

/// A property that was added stands in no string.
proof fn lemma_added_outside(
    s: Seq<u8>,
    reference: Seq<char>,
    k: int,
    name: Seq<char>,
    value: Seq<char>,
    place: PointText,
)
    requires
        0 <= k < instance_blocks(s, reference).len(),
    ensures
        ({
            let text = unit_text(s, reference, k);
            let now = with_property(text, name, value, place);
            !lex(now, 0, text.len() - 1 + utf8("\n"@ + property_indent(text)).len()).quoted
        }),
{
    let text = unit_text(s, reference, k);
    let now = with_property(text, name, value, place);
    let indent = property_indent(text);
    let before = utf8("\n"@ + indent);
    let n = utf8(new_property(indent, name, value, place.x@, place.y@));
    let end = text.len() - 1;
    lemma_unit_end(s, reference, k);
    lemma_unit_lex(s, reference, k, end as int);
    lemma_indent_unmarked(text);
    lemma_graft_bytes(text, end as int, end as int, n);
    lemma_lex_same(text, now, 0, end as int);
    lemma_unquoted(text, 0, end as int);
    lemma_property_split(indent, name, value, place.x@, place.y@);
    let st = lex(text, 0, end as int);
    assert(st == outside(st.depth));
    assert(unmarked("\n"@ + indent)) by {
        reveal_strlit("\n");
        assert forall|c: char| ("\n"@ + indent).contains(c) implies c == '\n' || indent.contains(c) by {
            let i = choose|i: int| 0 <= i < 1 + indent.len() && ("\n"@ + indent)[i] == c;
            if i > 0 {
                assert(indent[i - 1] == c);
            }
        }
    }
    lemma_unmarked(st.depth, "\n"@ + indent);
    assert(occurs_at(now, before, end as int)) by {
        assert(now.subrange(end as int, end + before.len()) =~= before) by {
            assert forall|i: int| 0 <= i < before.len() implies now[end + i] == #[trigger] before[i] by {
                assert(n[i] == before[i]);
                assert(now[end + i] == n[i]);
            }
        }
    }
    lemma_run_lex(now, 0, end as int, before, before.len() as int);
}

// ── Values that are put back ─────────────────────────────────────────────────

/// What the edits of the units before a unit add is what the edits before its
/// edit add.
proof fn lemma_gained(s: Seq<u8>, ws: Seq<Edit>, es: Seq<Edit>, us: Seq<int>, i: int, j: int)
    requires
        ws.len() == us.len(),
        es.len() == us.len(),
        0 <= i <= us.len(),
        0 <= j < us.len(),
        forall|a: int, b: int| 0 <= a < b < us.len() ==> #[trigger] us[a] < #[trigger] us[b],
        forall|a: int| 0 <= a < ws.len() ==> widens(s, #[trigger] ws[a], es[a]),
    ensures
        gained(ws, us, us[j], i) == lengthened(es, i, j),
    decreases us.len() - i,
{
    if i < us.len() {
        lemma_gained(s, ws, es, us, i + 1, j);
        assert(widens(s, ws[i], es[i]));
        if i < j {
            assert(us[i] < us[j]);
        } else if i > j {
            assert(us[j] < us[i]);
        }
    }
}

/// Texts whose units hold a property alike have it changed on the same units.
proof fn lemma_same_owners(
    s: Seq<u8>,
    all: Seq<(int, int)>,
    t: Seq<u8>,
    now: Seq<(int, int)>,
    n: int,
    name: Seq<char>,
    reach: Reach,
)
    requires
        0 <= n <= all.len(),
        all.len() == now.len(),
        forall|k: int| 0 <= k < n ==> holds(t, #[trigger] now[k], name) == holds(s, all[k], name),
    ensures
        owners(t, now, n, name, reach) == owners(s, all, n, name, reach),
    decreases n,
{
    if n > 0 {
        lemma_same_owners(s, all, t, now, n - 1, name, reach);
        assert(holds(t, now[n - 1], name) == holds(s, all[n - 1], name));
    }
}

/// Where the value of a property that was set stands in its unit.
#[verifier::spinoff_prover]
#[verifier::rlimit(40)]
proof fn lemma_set_place(
    s: Seq<u8>,
    t: Seq<u8>,
    reference: Seq<char>,
    k: int,
    name: Seq<char>,
    value: Seq<char>,
    place: PointText,
    reach: Reach,
)
    requires
        unmarked(name),
        tame(value),
        reach.set,
        0 <= k < instance_blocks(s, reference).len(),
        k < instance_blocks(t, reference).len(),
        holds(s, instance_blocks(s, reference)[k], name),
        value_tame(s, instance_blocks(s, reference)[k], name),
        unit_text(t, reference, k) == unit_after(
            unit_text(s, reference, k),
            name,
            value,
            place,
            reach,
        ),
    ensures
        ({
            let b = instance_blocks(s, reference)[k];
            let c = instance_blocks(t, reference)[k];
            &&& holds(t, c, name)
            &&& value_start(t, c, name) - c.0 == value_start(s, b, name) - b.0
            &&& value_end(t, c, name) == Some(value_start(t, c, name) + utf8(value).len())
            &&& value_tame(t, c, name)
        }),
{
    let b = instance_blocks(s, reference)[k];
    let c = instance_blocks(t, reference)[k];
    let text = unit_text(s, reference, k);
    let now = unit_text(t, reference, k);
    let head = utf8(property_start(name));
    let quote = utf8("\""@);
    let v = utf8(value);
    lemma_units(s, reference);
    lemma_units(t, reference);
    assert(unit_shaped(s, b) && unit_shaped(t, c));
    lemma_value_place(s, reference, k, name);
    let a = value_start(s, b, name) - b.0;
    let e = value_end(s, b, name)->0 - b.0;
    let o = a - head.len();
    lemma_graft_bytes(text, a, e, v);
    assert(now == spliced(text, a, e, v));
    lemma_first_at(text, head, 0);
    assert(now.subrange(o, a) =~= text.subrange(o, a));
    assert(occurs_at(now, head, o));
    lemma_occurs(now, head);
    lemma_first_at(now, head, 0);
    let f = first_at(now, head, 0)->0;
    if f < o {
        assert(text.subrange(f, f + head.len()) =~= now.subrange(f, f + head.len()));
        assert(occurs_at(text, head, f));
    }
    assert(value_start(t, c, name) == c.0 + a);
    reveal_strlit("\"");
    lemma_one_byte("\""@);
    assert(quote =~= seq![0x22u8]);
    lemma_byte_absent(value, '"');
    lemma_byte_absent(value, '\\');
    let vs = c.0 + a;
    let q = vs + v.len();
    assert forall|i: int| 0 <= i < v.len() implies t[vs + i] == #[trigger] v[i] by {
        assert(now[a + i] == v[i]);
        assert(now[a + i] == t[c.0 + (a + i)]);
    }
    assert(text[e] == 0x22);
    assert(now[e + (v.len() - (e - a))] == text[e]);
    assert(t[q] == now[a + v.len()]);
    assert(t.subrange(q, q + 1) =~= quote);
    assert(occurs_at(t, quote, q));
    lemma_first_at(t, quote, vs);
    let g = first_at(t, quote, vs)->0;
    if g < q {
        assert(t.subrange(g, g + 1)[0] == t[g]);
        assert(t[vs + (g - vs)] == v[g - vs]);
    }
    assert forall|i: int| vs <= i < q implies #[trigger] t[i] != 0x5c by {
        assert(t[vs + (i - vs)] == v[i - vs]);
    }
    assert(t.subrange(vs, q) =~= v);
    lemma_lex_same(text, now, 0, o);
}

/// The value of a property is replaced exactly where some unit carries the
/// property, provided that every value ends; no symbol, no property.
pub proof fn law_update_needs_the_property(
    s: Seq<u8>,
    reference: Seq<char>,
    field: Seq<char>,
    value: Seq<char>,
)
    requires
        forall|k: int|
            0 <= k < instance_blocks(s, reference).len() && holds(
                s,
                #[trigger] instance_blocks(s, reference)[k],
                field,
            ) ==> value_end(s, instance_blocks(s, reference)[k], field) is Some,
    ensures
        value_replaced(s, reference, field, value) is Ok <==> carries(s, reference, field),
        instance_blocks(s, reference).len() == 0 ==> !carries(s, reference, field),
{
    let all = instance_blocks(s, reference);
    let reach = Reach { set: true, add: false };
    assert forall|j: int| 0 <= j < all.len() implies unit_fault(
        s,
        #[trigger] all[j],
        reference,
        field,
        reach,
    ) is None by {}
    lemma_first_fault(s, all, 0, all.len() as int, reference, field, reach);
}

/// What putting the former value back finds in a schematic whose property was
/// set.
proof fn lemma_ready_again(
    s: Seq<u8>,
    reference: Seq<char>,
    field: Seq<char>,
    value: Seq<char>,
    former: Seq<char>,
)
    requires
        field_ready(s, reference, field, value, Seq::empty(), (Reach { set: true, add: false })),
        tame(former),
        value_replaced(s, reference, field, value) is Ok,
    ensures
        ({
            let t = value_replaced(s, reference, field, value)->Ok_0;
            let all = instance_blocks(s, reference);
            let now = instance_blocks(t, reference);
            let reach = Reach { set: true, add: false };
            &&& now.len() == all.len()
            &&& field_ready(t, reference, field, former, Seq::empty(), reach)
            &&& value_replaced(t, reference, field, former) is Ok
            &&& owners(t, now, now.len() as int, field, reach) == owners(
                s,
                all,
                all.len() as int,
                field,
                reach,
            )
            &&& forall|k: int|
                0 <= k < all.len() && holds(s, #[trigger] all[k], field) ==> {
                    &&& holds(t, now[k], field)
                    &&& value_start(t, now[k], field) - now[k].0 == value_start(s, all[k], field)
                        - all[k].0
                    &&& value_end(t, now[k], field) == Some(
                        value_start(t, now[k], field) + utf8(value).len(),
                    )
                }
        }),
{
    let reach = Reach { set: true, add: false };
    let none = Seq::<PointText>::empty();
    let t = value_replaced(s, reference, field, value)->Ok_0;
    let all = instance_blocks(s, reference);
    let now = instance_blocks(t, reference);
    lemma_unescaped(former);
    law_field_on_every_unit(s, reference, field, value, none, reach);
    assert forall|k: int| 0 <= k < all.len() && holds(s, #[trigger] all[k], field) implies {
        &&& holds(t, now[k], field)
        &&& value_start(t, now[k], field) - now[k].0 == value_start(s, all[k], field) - all[k].0
        &&& value_end(t, now[k], field) == Some(
            value_start(t, now[k], field) + utf8(value).len(),
        )
        &&& value_tame(t, now[k], field)
    } by {
        assert(unit_text(t, reference, k) == unit_after(
            unit_text(s, reference, k),
            field,
            value,
            none[k],
            reach,
        ));
        lemma_unescaped(value);
        lemma_set_place(s, t, reference, k, field, value, none[k], reach);
    }
    assert forall|k: int| 0 <= k < all.len() implies holds(t, #[trigger] now[k], field) == holds(
        s,
        all[k],
        field,
    ) by {
        assert(unit_text(t, reference, k) == unit_after(
            unit_text(s, reference, k),
            field,
            value,
            none[k],
            reach,
        ));
    }
    lemma_same_owners(s, all, t, now, all.len() as int, field, reach);
    assert forall|k: int| 0 <= k < now.len() && holds(t, #[trigger] now[k], field) implies
        value_tame(t, now[k], field) by {
        assert(holds(s, all[k], field));
    }
    law_update_needs_the_property(t, reference, field, former);
    let k = choose|k: int| 0 <= k < all.len() && holds(s, #[trigger] all[k], field);
    assert(holds(t, now[k], field));
}

/// The edit that puts a former value back undoes the edit that replaced it.
proof fn lemma_put_back(
    s: Seq<u8>,
    reference: Seq<char>,
    field: Seq<char>,
    value: Seq<char>,
    former: Seq<char>,
    j: int,
)
    requires
        field_ready(s, reference, field, value, Seq::empty(), (Reach { set: true, add: false })),
        tame(former),
        value_replaced(s, reference, field, value) is Ok,
        valued(s, reference, field, former),
        0 <= j < value_edits(s, reference, field, value).len(),
    ensures
        ({
            let t = value_replaced(s, reference, field, value)->Ok_0;
            let es = value_edits(s, reference, field, value);
            let fs = value_edits(t, reference, field, former);
            &&& fs.len() == es.len()
            &&& fs[j].start == es[j].start + lengthened(es, 0, j)
            &&& fs[j].end == fs[j].start + es[j].text.len()
            &&& fs[j].text == s.subrange(es[j].start, es[j].end)
            &&& es[j].end <= s.len()
        }),
{
    let reach = Reach { set: true, add: false };
    let none = Seq::<PointText>::empty();
    let t = value_replaced(s, reference, field, value)->Ok_0;
    let all = instance_blocks(s, reference);
    let now = instance_blocks(t, reference);
    let n = all.len() as int;
    let us = owners(s, all, n, field, reach);
    let ws = us.map_values(|k: int| wide_edit(s, all[k], field, value, none[k], reach));
    let es = value_edits(s, reference, field, value);
    let fs = value_edits(t, reference, field, former);
    lemma_ready_again(s, reference, field, value, former);
    lemma_owners(s, all, n, field, reach);
    lemma_owned_edits(s, all, n, field, value, none, reach);
    lemma_owned_edits(t, now, n, field, former, none, reach);
    lemma_change_edits(s, reference, field, value, none, reach);
    lemma_field_changed(s, reference, field, value, none, reach);
    let k = us[j];
    assert(us.contains(k));
    assert(holds(s, all[k], field));
    assert(es[j] == value_edit(s, all[k], field, value));
    assert(fs[j] == value_edit(t, now[k], field, former));
    assert(now[k].0 == all[k].0 + gained(ws, us, k, 0));
    lemma_gained(s, ws, es, us, 0, j);
    assert(widens(s, ws[j], es[j]));
}

/// The edits that replace the value of a property.
spec fn value_edits(
    s: Seq<u8>,
    reference: Seq<char>,
    field: Seq<char>,
    value: Seq<char>,
) -> Seq<Edit> {
    field_edits(
        s,
        instance_blocks(s, reference),
        instance_blocks(s, reference).len() as int,
        field,
        value,
        Seq::empty(),
        (Reach { set: true, add: false }),
    )
}

/// Every unit that carries a property has that value for it.
pub open spec fn valued(
    s: Seq<u8>,
    reference: Seq<char>,
    field: Seq<char>,
    value: Seq<char>,
) -> bool {
    forall|k: int|
        0 <= k < instance_blocks(s, reference).len() && holds(
            s,
            #[trigger] instance_blocks(s, reference)[k],
            field,
        ) ==> s.subrange(
            value_start(s, instance_blocks(s, reference)[k], field),
            value_end(s, instance_blocks(s, reference)[k], field)->0,
        ) == utf8(value)
}

/// Putting the former value back restores the schematic, byte for byte.
pub proof fn law_former_value_restores(
    s: Seq<u8>,
    reference: Seq<char>,
    field: Seq<char>,
    value: Seq<char>,
    former: Seq<char>,
)
    requires
        field_ready(s, reference, field, value, Seq::empty(), (Reach { set: true, add: false })),
        tame(former),
        value_replaced(s, reference, field, value) is Ok,
        valued(s, reference, field, former),
    ensures
        value_replaced(
            value_replaced(s, reference, field, value)->Ok_0,
            reference,
            field,
            former,
        ) == Ok::<Seq<u8>, Seq<char>>(s),
{
    let reach = Reach { set: true, add: false };
    let none = Seq::<PointText>::empty();
    let t = value_replaced(s, reference, field, value)->Ok_0;
    let es = value_edits(s, reference, field, value);
    let fs = value_edits(t, reference, field, former);
    lemma_ready_again(s, reference, field, value, former);
    lemma_value_edits(s, reference, field, value);
    lemma_value_edits(t, reference, field, former);
    assert(fs.len() == es.len()) by {
        lemma_owned_edits(
            s,
            instance_blocks(s, reference),
            instance_blocks(s, reference).len() as int,
            field,
            value,
            none,
            reach,
        );
        lemma_owned_edits(
            t,
            instance_blocks(t, reference),
            instance_blocks(t, reference).len() as int,
            field,
            former,
            none,
            reach,
        );
    }
    assert forall|j: int| 0 <= j < es.len() implies {
        &&& (#[trigger] fs[j]).start == es[j].start + lengthened(es, 0, j)
        &&& fs[j].end == fs[j].start + es[j].text.len()
        &&& fs[j].text == s.subrange(es[j].start, es[j].end)
    } by {
        lemma_put_back(s, reference, field, value, former, j);
    }
    assert forall|j: int| 0 <= j < es.len() implies (#[trigger] es[j]).end <= s.len() by {
        lemma_put_back(s, reference, field, value, former, j);
    }
    if es.len() > 0 {
        assert(0 <= es[0].start);
    }
    lemma_undone(s, es, fs, 0, 0, Seq::empty());
    assert(es.skip(0) =~= es);
    assert(fs.skip(0) =~= fs);
    assert(Seq::<u8>::empty() + t =~= t);
    assert(s.subrange(0, s.len() as int) =~= s);
}

/// The edits that replace values stand in line.
proof fn lemma_value_edits(s: Seq<u8>, reference: Seq<char>, field: Seq<char>, value: Seq<char>)
    requires
        field_ready(s, reference, field, value, Seq::empty(), (Reach { set: true, add: false })),
        value_replaced(s, reference, field, value) is Ok,
    ensures
        in_line(value_edits(s, reference, field, value)),
        value_replaced(s, reference, field, value)->Ok_0 == rewritten(
            s,
            value_edits(s, reference, field, value),
            0,
        ),
{
    let reach = Reach { set: true, add: false };
    lemma_change_edits(s, reference, field, value, Seq::empty(), reach);
}

} // verus!
