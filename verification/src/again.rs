//! A refresh that is run again.

use vstd::prelude::*;
use crate::alike::{lemma_blanks, lemma_list_end, lemma_window_node, window};
use crate::edit::{
    edited, in_order, lemma_in_order, lemma_last_first, lemma_no_edit, lemma_placed_ascends, placed,
    rewritten, Edit,
};
use crate::library::{indented, symbol_name};
use crate::node::{parsed, past_blanks};
use crate::quote::{is_space, past_spaces};
use crate::refresh::{
    defined_at, defines, embedded_at, fresh_copy, lemma_defined_index, lemma_defined_name,
    lemma_refresh_edits, outcomes, refresh_edit, refresh_edits, refreshed, refreshes, LibraryCopy,
    Outcome,
};
use crate::scan::{
    block_end, direct_children, lemma_block_end, lemma_blocks_exchanged, lemma_direct_children,
    lemma_direct_children_apart, lex, lone_block, shifted,
};
use crate::text::{
    chars, first_at, lemma_ascii_boundary, lemma_byte_absent, lemma_chars, lemma_first_at,
    lemma_occurrence_cut, lemma_one_byte, lemma_utf8_add, lemma_utf8_injective, occurs_at, spliced,
    utf8,
};

verus! {

// ── Edits that stand apart ───────────────────────────────────────────────────

/// Two edits of ranges that hold something and have nothing in common.
spec fn apart(d: Edit, e: Edit) -> bool {
    d.start < d.end && e.start < e.end && (d.end <= e.start || e.end <= d.start)
}

/// Every edit stands apart from those behind it in the list.
spec fn all_apart(es: Seq<Edit>) -> bool {
    &&& forall|i: int| 0 <= i < es.len() ==> (#[trigger] es[i]).start < es[i].end
    &&& forall|i: int, j: int| 0 <= i < j < es.len() ==> apart(#[trigger] es[i], #[trigger] es[j])
}

/// The edits stand one behind the other in the text.
pub open spec fn lined_up(es: Seq<Edit>) -> bool {
    &&& forall|i: int| 0 <= i < es.len() ==> (#[trigger] es[i]).start < es[i].end
    &&& forall|i: int, j: int|
        0 <= i < j < es.len() ==> (#[trigger] es[i]).end <= (#[trigger] es[j]).start
}

proof fn lemma_lined_up_ascends(es: Seq<Edit>)
    requires
        lined_up(es),
    ensures
        crate::edit::ascending(es),
{
    assert forall|i: int, j: int| 0 <= i < j < es.len() implies (#[trigger] es[i]).start <= (
    #[trigger] es[j]).start by {
        assert(es[i].end <= es[j].start);
    }
}

proof fn lemma_placed_lined_up(sorted: Seq<Edit>, e: Edit)
    requires
        lined_up(sorted),
        e.start < e.end,
        forall|i: int| 0 <= i < sorted.len() ==> apart(e, #[trigger] sorted[i]),
    ensures
        lined_up(placed(sorted, e)),
    decreases sorted.len(),
{
    let now = placed(sorted, e);
    if sorted.len() == 0 {
    } else if e.start <= sorted[0].start {
        assert(apart(e, sorted[0]));
        assert forall|i: int, j: int| 0 <= i < j < now.len() implies (#[trigger] now[i]).end <= (
        #[trigger] now[j]).start by {
            assert(now[j] == sorted[j - 1]);
            if i > 0 {
                assert(now[i] == sorted[i - 1]);
            } else if j > 1 {
                assert(sorted[0].end <= sorted[j - 1].start);
            }
        }
        assert forall|i: int| 0 <= i < now.len() implies (#[trigger] now[i]).start < now[i].end by {
            if i > 0 {
                assert(now[i] == sorted[i - 1]);
            }
        }
    } else {
        let rest = sorted.drop_first();
        let later = placed(rest, e);
        assert(apart(e, sorted[0]));
        assert forall|i: int| 0 <= i < rest.len() implies apart(e, #[trigger] rest[i]) by {
            assert(rest[i] == sorted[i + 1]);
        }
        lemma_placed_lined_up(rest, e);
        lemma_lined_up_ascends(rest);
        lemma_placed_ascends(rest, e);
        assert forall|j: int| 0 <= j < later.len() implies sorted[0].end <= (
        #[trigger] later[j]).start by {
            assert(later.contains(later[j]));
            if later[j] != e {
                let i = choose|i: int| 0 <= i < rest.len() && rest[i] == later[j];
                assert(sorted[i + 1] == later[j]);
            }
        }
        assert forall|i: int, j: int| 0 <= i < j < now.len() implies (#[trigger] now[i]).end <= (
        #[trigger] now[j]).start by {
            assert(now[j] == later[j - 1]);
            if i > 0 {
                assert(now[i] == later[i - 1]);
            }
        }
        assert forall|i: int| 0 <= i < now.len() implies (#[trigger] now[i]).start < now[i].end by {
            if i > 0 {
                assert(now[i] == later[i - 1]);
            }
        }
    }
}

/// Edits that stand apart line up when they are ordered.
proof fn lemma_in_order_lined_up(es: Seq<Edit>)
    requires
        all_apart(es),
    ensures
        lined_up(in_order(es)),
    decreases es.len(),
{
    if es.len() > 0 {
        let rest = es.drop_first();
        assert forall|i: int, j: int| 0 <= i < j < rest.len() implies apart(
            #[trigger] rest[i],
            #[trigger] rest[j],
        ) by {
            assert(rest[i] == es[i + 1]);
            assert(rest[j] == es[j + 1]);
        }
        lemma_in_order_lined_up(rest);
        lemma_in_order(rest);
        let sorted = in_order(rest);
        assert forall|i: int| 0 <= i < sorted.len() implies apart(es[0], #[trigger] sorted[i]) by {
            assert(sorted.contains(sorted[i]));
            let k = choose|k: int| 0 <= k < rest.len() && rest[k] == sorted[i];
            assert(es[k + 1] == sorted[i]);
        }
        lemma_placed_lined_up(sorted, es[0]);
    }
}

// ── A definition and the blanks behind it ────────────────────────────────────

/// The block that a text begins with.
pub open spec fn block_of(f: Seq<u8>) -> Seq<u8> {
    f.subrange(0, block_end(f, 0)->0)
}

/// The blanks at the start of a text end where the text holds something else.
proof fn lemma_spaces_end(a: Seq<char>, b: Seq<char>, i: int, k: int)
    requires
        0 <= i <= k < a.len(),
        !is_space(a[k]),
    ensures
        past_spaces(a + b, i) == past_spaces(a, i),
        i <= past_spaces(a, i) <= k,
        forall|j: int| i <= j < past_spaces(a, i) ==> is_space(#[trigger] a[j]),
    decreases k - i,
{
    assert((a + b)[i] == a[i]);
    if is_space(a[i]) {
        lemma_spaces_end(a, b, i + 1, k);
    }
}

/// Between two quotes the reader stays inside a string, or outside.
proof fn lemma_between_quotes(s: Seq<u8>, a: int, b: int)
    requires
        0 <= a <= b,
        forall|k: int| a <= k < b ==> #[trigger] s[k] != 0x22,
    ensures
        lex(s, 0, b).quoted == lex(s, 0, a).quoted,
    decreases b - a,
{
    if a < b {
        lemma_between_quotes(s, a, b - 1);
        assert(s[b - 1] != 0x22);
    }
}

/// The first quote of a text that holds one is its first with more behind it.
proof fn lemma_first_quote(a: Seq<u8>, b: Seq<u8>, k: int)
    requires
        0 <= k < a.len(),
        a[k] == 0x22,
    ensures
        first_at(a, utf8("\""@), 0) is Some,
        first_at(a + b, utf8("\""@), 0) == first_at(a, utf8("\""@), 0),
        0 <= first_at(a, utf8("\""@), 0)->0 < a.len(),
{
    let quote = utf8("\""@);
    reveal_strlit("\"");
    lemma_one_byte("\""@);
    assert(quote =~= seq![0x22u8]);
    lemma_first_at(a, quote, 0);
    lemma_first_at(a + b, quote, 0);
    assert(a.subrange(k, k + 1) =~= quote);
    assert(occurs_at(a, quote, k));
    let i = first_at(a, quote, 0)->0;
    assert((a + b).subrange(i, i + 1) =~= a.subrange(i, i + 1));
    assert(occurs_at(a + b, quote, i));
    let j = first_at(a + b, quote, 0)->0;
    if j < i {
        assert((a + b).subrange(j, j + 1) =~= a.subrange(j, j + 1));
        assert(occurs_at(a, quote, j));
    }
}

/// The parts of a definition: its head, what stands before the parenthesis
/// that ends its block, and what stands behind.
proof fn lemma_definition_parts(text: Seq<char>) -> (r: (Seq<char>, Seq<char>))
    requires
        occurs_at(utf8(text), utf8("(symbol"@), 0),
        block_end(utf8(text), 0) is Some,
    ensures
        utf8(text) == utf8("(symbol"@) + utf8(r.0 + ")"@) + utf8(r.1),
        block_of(utf8(text)) == utf8("(symbol"@) + utf8(r.0 + ")"@),
        utf8("(symbol"@).len() == 7,
        forall|i: int| 0 <= i < 7 ==> #[trigger] utf8("(symbol"@)[i] != 0x22 && utf8("(symbol"@)[i] != 0x29,
{
    let f = utf8(text);
    let m = block_end(f, 0)->0;
    let len = f.len() as int;
    reveal_strlit("(symbol");
    reveal_strlit(")");
    vstd::utf8::is_ascii_chars_encode_utf8("(symbol"@);
    vstd::utf8::is_ascii_chars_encode_utf8(")"@);
    lemma_block_end(f, 0);
    let head = utf8("(symbol"@);
    assert(f.subrange(0, 7) == head);
    assert forall|i: int| 0 <= i < 7 implies f[i] == #[trigger] head[i] by {
        assert(f.subrange(0, 7)[i] == f[i]);
    }
    if m - 1 < 7 {
        assert(f[m - 1] == head[m - 1]);
    }
    lemma_occurrence_cut(text, "(symbol"@, 0);
    lemma_ascii_boundary(text, m - 1);
    vstd::utf8::encode_utf8_valid_utf8(text);
    vstd::utf8::valid_utf8_split(f, m);
    let front = f.subrange(0, m);
    let back = f.subrange(m, len);
    let y = chars(back);
    vstd::utf8::decode_utf8_encode_utf8(back);
    let g = chars(front);
    vstd::utf8::decode_utf8_encode_utf8(front);
    assert(front == utf8(g));
    assert(front[m - 1] == 0x29);
    lemma_ascii_boundary(g, m - 1);
    vstd::utf8::valid_utf8_split(front, m - 1);
    let inner = front.subrange(0, m - 1);
    let h = chars(inner);
    vstd::utf8::decode_utf8_encode_utf8(inner);
    assert(inner == utf8(h));
    assert(inner[6] == head[6]);
    lemma_ascii_boundary(h, 6);
    vstd::utf8::valid_utf8_split(inner, 7);
    let body = inner.subrange(7, m - 1);
    let z = chars(body);
    vstd::utf8::decode_utf8_encode_utf8(body);
    assert(utf8(z) == body);
    lemma_utf8_add(z, ")"@);
    assert(utf8(")"@) =~= seq![0x29u8]);
    assert(front =~= head + (body + seq![0x29u8]));
    assert(f =~= head + (body + seq![0x29u8]) + back);
    (z, y)
}

/// The blanks behind a definition are no part of its name.
proof fn lemma_block_name(text: Seq<char>)
    requires
        lone_block(utf8(text)),
        occurs_at(utf8(text), utf8("(symbol"@), 0),
    ensures
        symbol_name(block_of(utf8(text))) == symbol_name(utf8(text)),
{
    let f = utf8(text);
    let m = block_end(f, 0)->0;
    let core = block_of(f);
    let head = utf8("(symbol"@);
    let quote = utf8("\""@);
    let (z, y) = lemma_definition_parts(text);
    reveal_strlit(")");
    let x = z + ")"@;
    let n = x.len() - 1;
    assert(x[n] == ')');
    lemma_block_end(f, 0);
    assert(core.subrange(0, 7) =~= head);
    assert(core.subrange(7, core.len() as int) =~= utf8(x));
    lemma_utf8_add(x, y);
    assert(f.subrange(7, f.len() as int) =~= utf8(x + y));
    lemma_chars(x);
    lemma_chars(x + y);
    lemma_spaces_end(x, y, 0, n as int);
    let i = past_spaces(x, 0);
    assert((x + y)[i] == x[i]);
    if x[i] == '"' {
        let before = x.subrange(0, i);
        let name = x.subrange(i + 1, x.len() as int);
        assert((x + y).subrange(i + 1, (x + y).len() as int) =~= name + y);
        lemma_utf8_add(name, y);
        reveal_strlit("\"");
        lemma_one_byte("\""@);
        assert(quote =~= seq![0x22u8]);
        assert(x =~= before + "\""@ + name);
        lemma_utf8_add(before + "\""@, name);
        lemma_utf8_add(before, "\""@);
        assert(!before.contains('"')) by {
            if before.contains('"') {
                let j = choose|j: int| 0 <= j < before.len() && before[j] == '"';
                assert(is_space(x[j]));
            }
        }
        lemma_byte_absent(before, '"');
        let q = 7 + utf8(before).len() as int;
        assert(core =~= head + (utf8(before) + quote + utf8(name)));
        assert forall|k: int| 0 <= k < m implies #[trigger] f[k] == core[k] by {}
        assert(f[q] == 0x22);
        assert forall|k: int| 0 <= k < q implies #[trigger] f[k] != 0x22 by {
            assert(f[k] == core[k]);
            if k < 7 {
                assert(core[k] == head[k]);
            } else {
                assert(core[k] == utf8(before)[k - 7]);
            }
        }
        lemma_between_quotes(f, 0, q);
        assert(lex(f, 0, q + 1).quoted);
        assert(exists|k: int| 0 <= k < utf8(name).len() && utf8(name)[k] == 0x22) by {
            if forall|k: int| 0 <= k < utf8(name).len() ==> utf8(name)[k] != 0x22 {
                assert forall|k: int| q + 1 <= k < m implies #[trigger] f[k] != 0x22 by {
                    assert(f[k] == core[k]);
                    assert(core[k] == utf8(name)[k - q - 1]);
                }
                lemma_between_quotes(f, q + 1, m);
            }
        }
        let k = choose|k: int| 0 <= k < utf8(name).len() && utf8(name)[k] == 0x22;
        lemma_first_quote(utf8(name), utf8(y), k);
        let end = first_at(utf8(name), quote, 0)->0;
        assert((utf8(name) + utf8(y)).subrange(0, end) =~= utf8(name).subrange(0, end));
    }
}

/// A definition that can be read is one block with blanks behind it, which
/// reads as the block does and has its name.
proof fn lemma_definition(text: Seq<char>)
    requires
        parsed(utf8(text)) is Some,
        symbol_name(utf8(text)) is Some,
    ensures
        lone_block(utf8(text)),
        symbol_name(block_of(utf8(text))) == symbol_name(utf8(text)),
        parsed(block_of(utf8(text))) == parsed(utf8(text)),
{
    let f = utf8(text);
    reveal_strlit("(symbol");
    vstd::utf8::is_ascii_chars_encode_utf8("(symbol"@);
    assert(f.subrange(0, 7)[0] == f[0]);
    assert(f[0] == 0x28);
    assert(past_blanks(f, 0) == 0);
    lemma_list_end(f, 0);
    let m = block_end(f, 0)->0;
    lemma_blanks(f, m);
    lemma_block_end(f, 0);
    lemma_block_name(text);
    let core = block_of(f);
    assert(core[0] == f[0]);
    assert(past_blanks(core, 0) == 0);
    assert(window(f, 0, core, 0, m)) by {
        assert forall|k: int| 0 <= k < m implies f[0 + k] == #[trigger] core[0 + k] by {}
    }
    lemma_window_node(f, 0, core, 0, m);
    assert(past_blanks(core, m) == m);
}

/// The same, of a definition as it replaces an embedded copy.
proof fn lemma_fresh_copy(def: Seq<u8>, lib_id: Seq<char>)
    requires
        defines(fresh_copy(def), lib_id),
    ensures
        lone_block(fresh_copy(def)),
        symbol_name(block_of(fresh_copy(def))) == symbol_name(fresh_copy(def)),
        parsed(block_of(fresh_copy(def))) == parsed(fresh_copy(def)),
{
    let text = chars(indented(def));
    lemma_definition(text.subrange(past_spaces(text, 0), text.len() as int));
}

// ── Blocks that are exchanged ────────────────────────────────────────────────

/// The text of the `j`th block directly inside the first `tag` list.
pub open spec fn kid(s: Seq<u8>, tag: Seq<u8>, j: int) -> Seq<u8> {
    let b = direct_children(s, tag)[j];
    s.subrange(b.0, b.1)
}

/// An edit puts a block in the place of one directly inside the first `tag` list.
pub open spec fn exchanges_kid(s: Seq<u8>, tag: Seq<u8>, e: Edit) -> bool {
    &&& lone_block(e.text)
    &&& exists|k: int|
        0 <= k < direct_children(s, tag).len() && #[trigger] direct_children(s, tag)[k] == (
            e.start,
            e.end,
        )
}

/// Exchanging blocks directly inside a list gives it those, and keeps the others.
pub proof fn lemma_kids(s: Seq<u8>, tag: Seq<u8>, sorted: Seq<Edit>)
    requires
        lined_up(sorted),
        forall|i: int| 0 <= i < sorted.len() ==> exchanges_kid(s, tag, #[trigger] sorted[i]),
        forall|i: int| 0 <= i < tag.len() ==> #[trigger] tag[i] != 0x28,
    ensures
        direct_children(rewritten(s, sorted, 0), tag).len() == direct_children(s, tag).len(),
        forall|i: int, j: int|
            0 <= i < sorted.len() && 0 <= j < direct_children(s, tag).len() && (
            #[trigger] sorted[i]).start == (#[trigger] direct_children(s, tag)[j]).0 ==> kid(
                rewritten(s, sorted, 0),
                tag,
                j,
            ) == block_of(sorted[i].text),
        forall|j: int|
            0 <= j < direct_children(s, tag).len() && (forall|i: int|
                0 <= i < sorted.len() ==> (#[trigger] sorted[i]).start != direct_children(s, tag)[j].0)
                ==> #[trigger] kid(rewritten(s, sorted, 0), tag, j) == kid(s, tag, j),
    decreases sorted.len(),
{
    let all = direct_children(s, tag);
    lemma_direct_children(s, tag);
    lemma_direct_children_apart(s, tag);
    if sorted.len() == 0 {
        assert(s.subrange(0, s.len() as int) =~= s);
    } else {
        let l = sorted.last();
        let rest = sorted.drop_last();
        assert(exchanges_kid(s, tag, sorted[sorted.len() - 1]));
        let k = choose|k: int| 0 <= k < all.len() && #[trigger] all[k] == (l.start, l.end);
        let t = spliced(s, l.start, l.end, l.text);
        let by = l.text.len() - (l.end - l.start);
        lemma_block_end(s, all[k].0);
        assert(exchanges_kid(s, tag, sorted[0]));
        let k0 = choose|k0: int| 0 <= k0 < all.len() && #[trigger] all[k0] == (
            sorted[0].start,
            sorted[0].end,
        );
        lemma_block_end(s, all[k0].0);
        lemma_last_first(s, sorted, 0);
        lemma_blocks_exchanged(s, tag, k, l.text);
        let now = direct_children(t, tag);
        assert forall|i: int| 0 <= i < rest.len() implies exchanges_kid(t, tag, #[trigger] rest[i]) by {
            assert(rest[i] == sorted[i]);
            let m = choose|m: int| 0 <= m < all.len() && #[trigger] all[m] == (
                sorted[i].start,
                sorted[i].end,
            );
            assert(sorted[i].end <= sorted[sorted.len() - 1].start);
            if m > k {
                assert(all[k].1 <= all[m].0);
            }
            assert(now[m] == all[m]);
        }
        assert(lined_up(rest)) by {
            assert forall|i: int, j: int| 0 <= i < j < rest.len() implies (#[trigger] rest[i]).end
                <= (#[trigger] rest[j]).start by {
                assert(rest[i] == sorted[i] && rest[j] == sorted[j]);
            }
        }
        lemma_kids(t, tag, rest);
        let out = rewritten(s, sorted, 0);
        // What the first edit leaves of each block.
        assert forall|j: int| 0 <= j < all.len() implies #[trigger] kid(t, tag, j) == if j == k {
            block_of(l.text)
        } else {
            kid(s, tag, j)
        } by {
            lemma_block_end(s, all[j].0);
            if j < k {
                assert(all[j].1 <= all[k].0);
                assert(now[j] == all[j]);
                assert(t.subrange(all[j].0, all[j].1) =~= s.subrange(all[j].0, all[j].1));
            } else if j == k {
                lemma_block_end(l.text, 0);
                let m = block_end(l.text, 0)->0;
                assert(t.subrange(l.start, l.start + m) =~= block_of(l.text));
            } else {
                assert(all[k].1 <= all[j].0);
                assert(now[j] == shifted(all[j], by));
                assert(t.subrange(all[j].0 + by, all[j].1 + by) =~= s.subrange(
                    all[j].0,
                    all[j].1,
                ));
            }
        }
        // No other edit is about the last block or one behind it.
        assert forall|i: int, j: int|
            0 <= i < rest.len() && k <= j < all.len() implies (#[trigger] rest[i]).start < (
        #[trigger] now[j]).0 by {
            assert(rest[i] == sorted[i]);
            assert(sorted[i].end <= sorted[sorted.len() - 1].start);
            if j > k {
                assert(all[k].1 <= all[j].0);
                assert(now[j] == shifted(all[j], by));
            }
            lemma_block_end(l.text, 0);
        }
        assert forall|i: int, j: int|
            0 <= i < sorted.len() && 0 <= j < all.len() && (#[trigger] sorted[i]).start == (
            #[trigger] all[j]).0 implies kid(out, tag, j) == block_of(sorted[i].text) by {
            if i == sorted.len() - 1 {
                if j < k {
                    lemma_block_end(s, all[j].0);
                    assert(all[j].1 <= all[k].0);
                } else if j > k {
                    assert(all[k].1 <= all[j].0);
                }
                assert(j == k);
                assert(forall|m: int| 0 <= m < rest.len() ==> (#[trigger] rest[m]).start != now[j].0);
                assert(kid(out, tag, j) == kid(t, tag, j));
            } else {
                assert(rest[i] == sorted[i]);
                assert(sorted[i].end <= sorted[sorted.len() - 1].start);
                if j > k {
                    assert(all[k].1 <= all[j].0);
                }
                assert(now[j] == all[j]);
                assert(rest[i].start == now[j].0);
            }
        }
        assert forall|j: int|
            0 <= j < all.len() && (forall|i: int|
                0 <= i < sorted.len() ==> (#[trigger] sorted[i]).start != all[j].0) implies (
        #[trigger] kid(out, tag, j)) == kid(s, tag, j) by {
            assert(sorted[sorted.len() - 1].start != all[j].0);
            assert(j != k);
            assert forall|i: int| 0 <= i < rest.len() implies (#[trigger] rest[i]).start != now[j].0 by {
                assert(rest[i] == sorted[i]);
                if j < k {
                    assert(now[j] == all[j]);
                }
            }
            assert(kid(out, tag, j) == kid(t, tag, j));
        }
    }
}

/// Blocks with the same names, one for one: the first of a name is at the same
/// place among both, or among neither.
proof fn lemma_named_alike(
    s: Seq<u8>,
    t: Seq<u8>,
    old: Seq<(int, int)>,
    now: Seq<(int, int)>,
    name: Seq<u8>,
    i: int,
) -> (k: int)
    requires
        0 <= i,
        old.len() == now.len(),
        forall|j: int|
            0 <= j < old.len() ==> symbol_name(t.subrange((#[trigger] now[j]).0, now[j].1))
                == symbol_name(s.subrange(old[j].0, old[j].1)),
    ensures
        match defined_at(s, old, name, i) {
            Some(b) => {
                &&& i <= k < old.len()
                &&& b == old[k]
                &&& defined_at(t, now, name, i) == Some(now[k])
            },
            None => defined_at(t, now, name, i) is None,
        },
    decreases old.len() - i,
{
    if i >= old.len() {
        i
    } else {
        assert(symbol_name(t.subrange(now[i].0, now[i].1)) == symbol_name(
            s.subrange(old[i].0, old[i].1),
        ));
        if symbol_name(s.subrange(old[i].0, old[i].1)) == Some(name) {
            i
        } else {
            lemma_named_alike(s, t, old, now, name, i + 1)
        }
    }
}

/// The edits of a refresh stand apart, and each exchanges an embedded copy.
proof fn lemma_refresh_apart(
    s: Seq<u8>,
    lib_ids: Seq<Seq<char>>,
    copies: Seq<LibraryCopy>,
    allow: bool,
    n: int,
)
    requires
        n <= lib_ids.len(),
        forall|i: int, j: int|
            0 <= i < j < lib_ids.len() ==> #[trigger] lib_ids[i] != #[trigger] lib_ids[j],
    ensures
        all_apart(refresh_edits(s, lib_ids, copies, allow, n)),
    decreases n,
{
    let tag = utf8("lib_symbols"@);
    let all = direct_children(s, tag);
    lemma_direct_children(s, tag);
    lemma_direct_children_apart(s, tag);
    if n > 0 {
        lemma_refresh_apart(s, lib_ids, copies, allow, n - 1);
        lemma_refresh_edits(s, lib_ids, copies, allow, n - 1);
        let before = refresh_edits(s, lib_ids, copies, allow, n - 1);
        let now = refresh_edits(s, lib_ids, copies, allow, n);
        if refreshed(s, lib_ids[n - 1], copies[n - 1], allow) is Updated {
            let e = refresh_edit(s, lib_ids[n - 1], copies[n - 1]);
            let k = lemma_defined_index(s, all, utf8(lib_ids[n - 1]), 0);
            lemma_defined_name(s, all, utf8(lib_ids[n - 1]), 0);
            lemma_block_end(s, all[k].0);
            assert forall|i: int| 0 <= i < before.len() implies apart(#[trigger] before[i], e) by {
                assert(refreshes(s, lib_ids, copies, allow, n - 1, before[i]));
                let m = choose|m: int|
                    #![trigger lib_ids[m]]
                    0 <= m < n - 1 && refreshed(s, lib_ids[m], copies[m], allow) is Updated
                        && before[i] == refresh_edit(s, lib_ids[m], copies[m]);
                let q = lemma_defined_index(s, all, utf8(lib_ids[m]), 0);
                lemma_defined_name(s, all, utf8(lib_ids[m]), 0);
                lemma_block_end(s, all[q].0);
                if q == k {
                    lemma_utf8_injective(lib_ids[m], lib_ids[n - 1]);
                } else if q < k {
                    assert(all[q].1 <= all[k].0);
                } else {
                    assert(all[k].1 <= all[q].0);
                }
            }
            assert forall|i: int, j: int| 0 <= i < j < now.len() implies apart(
                #[trigger] now[i],
                #[trigger] now[j],
            ) by {
                assert(now[i] == before[i]);
                if j < before.len() {
                    assert(now[j] == before[j]);
                }
            }
        }
    }
}

/// Symbols that are named once each, with definitions that bear their names
/// where one is put in.
spec fn well_named(
    s: Seq<u8>,
    lib_ids: Seq<Seq<char>>,
    copies: Seq<LibraryCopy>,
    allow: bool,
) -> bool {
    &&& copies.len() == lib_ids.len()
    &&& forall|i: int, j: int|
        0 <= i < j < lib_ids.len() ==> #[trigger] lib_ids[i] != #[trigger] lib_ids[j]
    &&& forall|i: int|
        0 <= i < lib_ids.len() && refreshed(s, lib_ids[i], #[trigger] copies[i], allow) is Updated
            ==> defines(fresh_copy(utf8((copies[i].definition->0)@)), lib_ids[i])
}

/// The edits of a refresh in order.
spec fn ordered_edits(
    s: Seq<u8>,
    lib_ids: Seq<Seq<char>>,
    copies: Seq<LibraryCopy>,
    allow: bool,
) -> Seq<Edit> {
    in_order(refresh_edits(s, lib_ids, copies, allow, lib_ids.len() as int))
}

/// The text that a refresh leaves.
spec fn renewed(
    s: Seq<u8>,
    lib_ids: Seq<Seq<char>>,
    copies: Seq<LibraryCopy>,
    allow: bool,
) -> Seq<u8> {
    rewritten(s, ordered_edits(s, lib_ids, copies, allow), 0)
}

proof fn lemma_ordered_edits(
    s: Seq<u8>,
    lib_ids: Seq<Seq<char>>,
    copies: Seq<LibraryCopy>,
    allow: bool,
)
    requires
        well_named(s, lib_ids, copies, allow),
    ensures
        lined_up(ordered_edits(s, lib_ids, copies, allow)),
        forall|i: int|
            0 <= i < ordered_edits(s, lib_ids, copies, allow).len() ==> refreshes(
                s,
                lib_ids,
                copies,
                allow,
                lib_ids.len() as int,
                #[trigger] ordered_edits(s, lib_ids, copies, allow)[i],
            ) && exchanges_kid(
                s,
                utf8("lib_symbols"@),
                ordered_edits(s, lib_ids, copies, allow)[i],
            ),
        forall|i: int| 0 <= i < utf8("lib_symbols"@).len() ==> #[trigger] utf8("lib_symbols"@)[i] != 0x28,
{
    let n = lib_ids.len() as int;
    let es = refresh_edits(s, lib_ids, copies, allow, n);
    let sorted = in_order(es);
    lemma_refresh_apart(s, lib_ids, copies, allow, n);
    lemma_refresh_edits(s, lib_ids, copies, allow, n);
    lemma_in_order(es);
    lemma_in_order_lined_up(es);
    assert forall|i: int| 0 <= i < sorted.len() implies refreshes(
        s,
        lib_ids,
        copies,
        allow,
        n,
        #[trigger] sorted[i],
    ) && exchanges_kid(s, utf8("lib_symbols"@), sorted[i]) by {
        assert(sorted.contains(sorted[i]));
        let k = choose|k: int| 0 <= k < es.len() && es[k] == sorted[i];
        assert(refreshes(s, lib_ids, copies, allow, n, es[k]));
        lemma_symbol_edit(s, lib_ids, copies, allow, sorted[i]);
    }
    reveal_strlit("lib_symbols");
    vstd::utf8::is_ascii_chars_encode_utf8("lib_symbols"@);
}

/// Every embedded copy keeps its name.
proof fn lemma_names_stay(
    s: Seq<u8>,
    lib_ids: Seq<Seq<char>>,
    copies: Seq<LibraryCopy>,
    allow: bool,
    j: int,
)
    requires
        well_named(s, lib_ids, copies, allow),
        0 <= j < direct_children(s, utf8("lib_symbols"@)).len(),
    ensures
        symbol_name(kid(renewed(s, lib_ids, copies, allow), utf8("lib_symbols"@), j))
            == symbol_name(kid(s, utf8("lib_symbols"@), j)),
{
    let tag = utf8("lib_symbols"@);
    let all = direct_children(s, tag);
    let sorted = ordered_edits(s, lib_ids, copies, allow);
    lemma_ordered_edits(s, lib_ids, copies, allow);
    lemma_kids(s, tag, sorted);
    if exists|i: int| 0 <= i < sorted.len() && (#[trigger] sorted[i]).start == all[j].0 {
        let i = choose|i: int| 0 <= i < sorted.len() && (#[trigger] sorted[i]).start == all[j].0;
        lemma_symbol_edit(s, lib_ids, copies, allow, sorted[i]);
        lemma_same_block(s, tag, sorted[i], j);
    }
}

/// What becomes of the embedded copy of a symbol: it is the definition of the
/// library where it is updated, and stays as it is where it is not.
proof fn lemma_renewed_copy(
    s: Seq<u8>,
    lib_ids: Seq<Seq<char>>,
    copies: Seq<LibraryCopy>,
    allow: bool,
    i: int,
    j: int,
)
    requires
        well_named(s, lib_ids, copies, allow),
        0 <= i < lib_ids.len(),
        0 <= j < direct_children(s, utf8("lib_symbols"@)).len(),
        embedded_at(s, lib_ids[i]) == Some(direct_children(s, utf8("lib_symbols"@))[j]),
    ensures
        kid(renewed(s, lib_ids, copies, allow), utf8("lib_symbols"@), j) == if refreshed(
            s,
            lib_ids[i],
            copies[i],
            allow,
        ) is Updated {
            block_of(fresh_copy(utf8((copies[i].definition->0)@)))
        } else {
            kid(s, utf8("lib_symbols"@), j)
        },
{
    let tag = utf8("lib_symbols"@);
    let n = lib_ids.len() as int;
    let all = direct_children(s, tag);
    let es = refresh_edits(s, lib_ids, copies, allow, n);
    let sorted = ordered_edits(s, lib_ids, copies, allow);
    lemma_ordered_edits(s, lib_ids, copies, allow);
    lemma_kids(s, tag, sorted);
    if refreshed(s, lib_ids[i], copies[i], allow) is Updated {
        let e = refresh_edit(s, lib_ids[i], copies[i]);
        lemma_edit_listed(s, lib_ids, copies, allow, n, i);
        lemma_in_order(es);
        assert(sorted.contains(e));
        let m = choose|m: int| 0 <= m < sorted.len() && sorted[m] == e;
        assert(sorted[m].start == all[j].0);
    } else {
        assert forall|m: int| 0 <= m < sorted.len() implies (#[trigger] sorted[m]).start
            != all[j].0 by {
            if sorted[m].start == all[j].0 {
                let q = choose|q: int|
                    #![trigger lib_ids[q]]
                    0 <= q < n && refreshed(s, lib_ids[q], copies[q], allow) is Updated && sorted[m]
                        == refresh_edit(s, lib_ids[q], copies[q]);
                lemma_same_block(s, tag, sorted[m], j);
                lemma_defined_name(s, all, utf8(lib_ids[q]), 0);
                lemma_defined_name(s, all, utf8(lib_ids[i]), 0);
                lemma_utf8_injective(lib_ids[q], lib_ids[i]);
            }
        }
    }
}

/// A refresh that is run again from the same libraries finds nothing left to
/// do: what it updated is up to date, what it left alone it leaves alone for
/// the same reason, and the schematic stays as it is. What it put in must be a
/// definition of the name that it stands for.
pub proof fn law_updated_then_unchanged(
    s: Seq<u8>,
    lib_ids: Seq<Seq<char>>,
    copies: Seq<LibraryCopy>,
    again: Seq<LibraryCopy>,
    allow: bool,
)
    requires
        copies.len() == lib_ids.len(),
        again.len() == lib_ids.len(),
        forall|i: int, j: int|
            0 <= i < j < lib_ids.len() ==> #[trigger] lib_ids[i] != #[trigger] lib_ids[j],
        forall|i: int|
            0 <= i < lib_ids.len() && refreshed(s, lib_ids[i], #[trigger] copies[i], allow) is Updated
                ==> defines(fresh_copy(utf8((copies[i].definition->0)@)), lib_ids[i]),
        forall|i: int|
            0 <= i < lib_ids.len() ==> (#[trigger] again[i]).definition == copies[i].definition,
        forall|i: int|
            0 <= i < lib_ids.len() && !(outcomes(s, lib_ids, copies, allow)[i] is Updated)
                ==> #[trigger] again[i] == copies[i],
    ensures
        ({
            let t = edited(s, refresh_edits(s, lib_ids, copies, allow, lib_ids.len() as int));
            forall|i: int|
                0 <= i < lib_ids.len() ==> #[trigger] outcomes(t, lib_ids, again, allow)[i] == (
                if outcomes(s, lib_ids, copies, allow)[i] is Updated {
                    Outcome::Unchanged
                } else {
                    outcomes(s, lib_ids, copies, allow)[i]
                })
        }),
        ({
            let t = edited(s, refresh_edits(s, lib_ids, copies, allow, lib_ids.len() as int));
            edited(t, refresh_edits(t, lib_ids, again, allow, lib_ids.len() as int)) == t
        }),
{
    let tag = utf8("lib_symbols"@);
    let t = renewed(s, lib_ids, copies, allow);
    let all = direct_children(s, tag);
    let now = direct_children(t, tag);
    assert(well_named(s, lib_ids, copies, allow));
    assert(t == edited(s, refresh_edits(s, lib_ids, copies, allow, lib_ids.len() as int)));
    lemma_ordered_edits(s, lib_ids, copies, allow);
    lemma_kids(s, tag, ordered_edits(s, lib_ids, copies, allow));
    assert forall|j: int| 0 <= j < all.len() implies symbol_name(
        t.subrange((#[trigger] now[j]).0, now[j].1),
    ) == symbol_name(s.subrange(all[j].0, all[j].1)) by {
        lemma_names_stay(s, lib_ids, copies, allow, j);
    }
    assert forall|i: int| 0 <= i < lib_ids.len() implies #[trigger] outcomes(
        t,
        lib_ids,
        again,
        allow,
    )[i] == (if outcomes(s, lib_ids, copies, allow)[i] is Updated {
        Outcome::Unchanged
    } else {
        outcomes(s, lib_ids, copies, allow)[i]
    }) by {
        let k = lemma_named_alike(s, t, all, now, utf8(lib_ids[i]), 0);
        assert(again[i].definition == copies[i].definition);
        if embedded_at(s, lib_ids[i]) is Some {
            lemma_renewed_copy(s, lib_ids, copies, allow, i, k);
            if refreshed(s, lib_ids[i], copies[i], allow) is Updated {
                lemma_fresh_copy(utf8((copies[i].definition->0)@), lib_ids[i]);
            }
        }
    }
    lemma_nothing_updated(t, lib_ids, again, allow, lib_ids.len() as int);
    lemma_no_edit(t);
}

/// Where no symbol is updated, nothing is edited.
proof fn lemma_nothing_updated(
    s: Seq<u8>,
    lib_ids: Seq<Seq<char>>,
    copies: Seq<LibraryCopy>,
    allow: bool,
    n: int,
)
    requires
        0 <= n <= lib_ids.len(),
        forall|i: int|
            0 <= i < lib_ids.len() ==> !(#[trigger] outcomes(s, lib_ids, copies, allow)[i] is Updated),
    ensures
        refresh_edits(s, lib_ids, copies, allow, n) == Seq::<Edit>::empty(),
    decreases n,
{
    if n > 0 {
        lemma_nothing_updated(s, lib_ids, copies, allow, n - 1);
        assert(!(outcomes(s, lib_ids, copies, allow)[n - 1] is Updated));
    }
}

/// The edit of a symbol that is updated puts a definition of its name in the
/// place of one of its name.
proof fn lemma_symbol_edit(
    s: Seq<u8>,
    lib_ids: Seq<Seq<char>>,
    copies: Seq<LibraryCopy>,
    allow: bool,
    e: Edit,
)
    requires
        copies.len() == lib_ids.len(),
        forall|i: int|
            0 <= i < lib_ids.len() && refreshed(s, lib_ids[i], #[trigger] copies[i], allow) is Updated
                ==> defines(fresh_copy(utf8((copies[i].definition->0)@)), lib_ids[i]),
        refreshes(s, lib_ids, copies, allow, lib_ids.len() as int, e),
    ensures
        exchanges_kid(s, utf8("lib_symbols"@), e),
        symbol_name(block_of(e.text)) == symbol_name(s.subrange(e.start, e.end)),
        e.start < e.end,
{
    let tag = utf8("lib_symbols"@);
    let all = direct_children(s, tag);
    let q = choose|q: int|
        #![trigger lib_ids[q]]
        0 <= q < lib_ids.len() && refreshed(s, lib_ids[q], copies[q], allow) is Updated && e
            == refresh_edit(s, lib_ids[q], copies[q]);
    let k = lemma_defined_index(s, all, utf8(lib_ids[q]), 0);
    lemma_defined_name(s, all, utf8(lib_ids[q]), 0);
    lemma_direct_children(s, tag);
    lemma_block_end(s, all[k].0);
    assert(copies[q].definition is Some);
    lemma_fresh_copy(utf8((copies[q].definition->0)@), lib_ids[q]);
    assert(all[k] == (e.start, e.end));
}

/// An edit that starts where a block starts is about that block.
proof fn lemma_same_block(s: Seq<u8>, tag: Seq<u8>, e: Edit, j: int)
    requires
        exchanges_kid(s, tag, e),
        0 <= j < direct_children(s, tag).len(),
        e.start == direct_children(s, tag)[j].0,
    ensures
        direct_children(s, tag)[j] == (e.start, e.end),
{
    let all = direct_children(s, tag);
    lemma_direct_children(s, tag);
    let k = choose|k: int| 0 <= k < all.len() && #[trigger] all[k] == (e.start, e.end);
    assert(block_end(s, all[j].0) == Some(all[j].1));
    assert(block_end(s, all[k].0) == Some(all[k].1));
}

/// The edit of a symbol that is updated is among those of the refresh.
proof fn lemma_edit_listed(
    s: Seq<u8>,
    lib_ids: Seq<Seq<char>>,
    copies: Seq<LibraryCopy>,
    allow: bool,
    n: int,
    i: int,
)
    requires
        0 <= i < n <= lib_ids.len(),
        refreshed(s, lib_ids[i], copies[i], allow) is Updated,
    ensures
        refresh_edits(s, lib_ids, copies, allow, n).contains(
            refresh_edit(s, lib_ids[i], copies[i]),
        ),
    decreases n,
{
    let e = refresh_edit(s, lib_ids[i], copies[i]);
    let now = refresh_edits(s, lib_ids, copies, allow, n);
    if i < n - 1 {
        lemma_edit_listed(s, lib_ids, copies, allow, n - 1, i);
        let before = refresh_edits(s, lib_ids, copies, allow, n - 1);
        let k = choose|k: int| 0 <= k < before.len() && before[k] == e;
        assert(now[k] == e);
    } else {
        assert(now.last() == e);
        assert(now[now.len() - 1] == e);
    }
}

} // verus!
