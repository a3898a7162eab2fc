//! What is left of a designator after it was renamed.

use vstd::prelude::*;
use crate::components::Editing;
use crate::edit::{
    edited, in_line, lemma_in_line_ordered, lemma_last_first, lemma_widened, rewritten, widens,
    Edit,
};
use crate::graft::{
    clean, follows, free, graftable, lemma_all_hits, lemma_graft_around, lemma_graft_bytes,
    lemma_graft_end, lemma_graft_end_behind, lemma_graft_inside, lemma_graft_occurs,
    lemma_graft_placed, lemma_graft_start, lemma_graft_whole, lemma_head_texts, lemma_low,
    lemma_quiet, lemma_run_first, lemma_run_lex, lemma_same_ascending, lemma_stands,
    lemma_start_text, lib_head, low, moved, moved_block, run, solo, stands_in, symbol_head,
    unmarked,
};
use crate::properties::{
    entry_edits, field_edits, hit_edit, holds, inside, lemma_first_fault, path_reference,
    path_renamed, property_start, rename_edits, unit_fault, value_edit, value_end, value_replaced,
    value_start, within, Reach,
};
use crate::scan::{
    block_end, enclosing_block, is_block_start, lemma_block_end, lemma_blocks_nest,
    lemma_starts_prefix, lemma_unquoted, lex, starts_below, Lex,
};
use crate::symbols::{
    instance_blocks, is_placed, law_instance_blocks_in_order, law_instance_blocks_sound,
    lemma_enclosing, lemma_placed_around_complete, reference_property, unnested,
};
use crate::text::{
    first_at, hits, lemma_byte_absent, lemma_first_at, lemma_hits, lemma_occurs, lemma_one_byte,
    lemma_utf8_add, lemma_utf8_injective, occurs, occurs_at, spliced, utf8,
};

verus! {

// ── Symbols by number ────────────────────────────────────────────────────────

/// How many symbols open before `a`.
pub open spec fn number(s: Seq<u8>, a: int) -> int {
    starts_below(s, utf8("symbol"@), a).len() as int
}

/// A symbol that is placed around the byte at `i`; or, where `placed` does not
/// ask for that, any symbol around it.
pub open spec fn stands_around(s: Seq<u8>, i: int, b: (int, int), placed: bool) -> bool {
    if placed {
        enclosing_block(s, utf8("symbol"@), i) == Some(b) && is_placed(s, b)
    } else {
        is_block_start(s, utf8("symbol"@), b.0) && block_end(s, b.0) == Some(b.1) && b.0 <= i < b.1
    }
}

/// The symbol with that number stands around the byte at `i`.
pub open spec fn within_number(s: Seq<u8>, i: int, o: int, placed: bool) -> bool {
    exists|b: (int, int)| #[trigger] stands_around(s, i, b, placed) && number(s, b.0) == o
}

/// The symbol with that number holds a search text.
pub open spec fn has(s: Seq<u8>, p: Seq<u8>, o: int, placed: bool) -> bool {
    exists|i: int| #[trigger] occurs_at(s, p, i) && within_number(s, i, o, placed)
}

proof fn lemma_number_before(s: Seq<u8>, h: int, e: int, n: Seq<u8>, a: int)
    requires
        graftable(s, h, e, n),
        a <= h,
    ensures
        number(spliced(s, h, e, n), a) == number(s, a),
    decreases a,
{
    if a > 0 {
        lemma_number_before(s, h, e, n, a - 1);
        lemma_graft_start(s, h, e, n, a - 1);
    }
}

proof fn lemma_number_over(s: Seq<u8>, i: int, m: int)
    requires
        0 <= i <= m,
        forall|k: int| i <= k < m ==> !is_block_start(s, utf8("symbol"@), k),
    ensures
        number(s, m) == number(s, i),
    decreases m - i,
{
    if i < m {
        lemma_number_over(s, i, m - 1);
    }
}

proof fn lemma_number_behind(s: Seq<u8>, h: int, e: int, n: Seq<u8>, a: int)
    requires
        graftable(s, h, e, n),
        free(spliced(s, h, e, n), symbol_head(), h, h + n.len()),
        e <= a,
    ensures
        number(spliced(s, h, e, n), a + n.len() - (e - h)) == number(s, a),
    decreases a,
{
    let t = spliced(s, h, e, n);
    let by = n.len() - (e - h);
    if a > e {
        lemma_number_behind(s, h, e, n, a - 1);
        lemma_graft_start(s, h, e, n, a - 1);
        assert((a - 1) + by == (a + by) - 1);
    } else {
        lemma_graft_inside(s, h, e, n);
        lemma_number_over(s, h, e);
        assert forall|k: int| h <= k < h + n.len() implies !is_block_start(
            t,
            utf8("symbol"@),
            k,
        ) by {
            lemma_start_text(t, k);
            assert(!occurs_at(t, symbol_head(), k));
        }
        lemma_number_over(t, h, h + n.len());
        lemma_number_before(s, h, e, n, h);
    }
}

proof fn lemma_number_moved(s: Seq<u8>, h: int, e: int, n: Seq<u8>, a: int)
    requires
        graftable(s, h, e, n),
        free(spliced(s, h, e, n), symbol_head(), h, h + n.len()),
        a < h || e <= a,
    ensures
        number(spliced(s, h, e, n), moved(a, h, n.len() - (e - h))) == number(s, a),
{
    if a < h {
        lemma_number_before(s, h, e, n, a);
    } else {
        lemma_number_behind(s, h, e, n, a);
    }
}

/// A symbol further on has a greater number.
proof fn lemma_number_grows(s: Seq<u8>, a: int, c: int)
    requires
        0 <= a < c,
        is_block_start(s, utf8("symbol"@), a),
    ensures
        number(s, a) < number(s, c),
{
    lemma_starts_prefix(s, utf8("symbol"@), a + 1, c);
}

/// A symbol around a place stays around it, with its number.
proof fn lemma_graft_within(s: Seq<u8>, h: int, e: int, n: Seq<u8>, i: int, j: int, placed: bool)
    requires
        graftable(s, h, e, n),
        free(spliced(s, h, e, n), symbol_head(), h, h + n.len()),
        i < s.len(),
        follows(i, j, h, e, n.len() - (e - h)),
    ensures
        forall|o: int|
            #![trigger within_number(s, i, o, placed)]
            #![trigger within_number(spliced(s, h, e, n), j, o, placed)]
            within_number(s, i, o, placed) == within_number(spliced(s, h, e, n), j, o, placed),
{
    let t = spliced(s, h, e, n);
    let by = n.len() - (e - h);
    lemma_graft_bytes(s, h, e, n);
    lemma_graft_around(s, h, e, n, i, j);
    lemma_graft_inside(s, h, e, n);
    assert forall|o: int|
        #![trigger within_number(s, i, o, placed)]
        #![trigger within_number(t, j, o, placed)]
        within_number(s, i, o, placed) == within_number(t, j, o, placed) by {
        if within_number(s, i, o, placed) {
            let b = choose|b: (int, int)| #[trigger]
                stands_around(s, i, b, placed) && number(s, b.0) == o;
            lemma_enclosing(s, utf8("symbol"@), i);
            lemma_graft_whole(s, h, e, n, b);
            lemma_block_end(s, b.0);
            lemma_graft_placed(s, h, e, n, b);
            lemma_number_moved(s, h, e, n, b.0);
            lemma_graft_start(s, h, e, n, b.0);
            if b.0 < h {
                lemma_graft_end(s, h, e, n, b.0);
            } else {
                lemma_graft_end_behind(s, h, e, n, b.0);
            }
            assert(stands_around(t, j, moved_block(b, h, by), placed));
        }
        if within_number(t, j, o, placed) {
            let c = choose|c: (int, int)| #[trigger]
                stands_around(t, j, c, placed) && number(t, c.0) == o;
            if placed {
                let b = enclosing_block(s, utf8("symbol"@), i)->0;
                lemma_enclosing(s, utf8("symbol"@), i);
                lemma_block_end(s, b.0);
                lemma_graft_placed(s, h, e, n, b);
                lemma_number_moved(s, h, e, n, b.0);
                assert(stands_around(s, i, b, placed));
            } else {
                lemma_block_end(t, c.0);
                let a = if c.0 < h {
                    c.0
                } else {
                    c.0 - by
                };
                lemma_graft_start(s, h, e, n, a);
                lemma_number_moved(s, h, e, n, a);
                if a < h {
                    lemma_graft_end(s, h, e, n, a);
                } else {
                    lemma_graft_end_behind(s, h, e, n, a);
                }
                let b = (a, block_end(s, a)->0);
                lemma_graft_whole(s, h, e, n, b);
                assert(c == moved_block(b, h, by));
                assert(stands_around(s, i, b, placed));
            }
        }
    }
}

// ── Entries that are exchanged ───────────────────────────────────────────────

/// Two texts cannot stand at the same place.
pub open spec fn differ(p: Seq<u8>, q: Seq<u8>) -> bool {
    exists|k: int| 0 <= k < p.len() && k < q.len() && #[trigger] p[k] != q[k]
}

/// A search text that says where a designator stands: it may be exchanged for
/// another, wherever it stands.
pub open spec fn exchangeable(gone: Seq<u8>, new: Seq<u8>) -> bool {
    &&& clean_entry(gone)
    &&& clean_entry(new)
    &&& forall|st: Lex|
        !(st.escaped && !st.quoted) ==> #[trigger] run(st, gone, gone.len() as int) == run(
            st,
            new,
            new.len() as int,
        )
    &&& forall|st: Lex|
        !(st.escaped && !st.quoted) ==> #[trigger] low(st, gone, gone.len() as int) >= st.depth
    &&& forall|st: Lex|
        !(st.escaped && !st.quoted) ==> #[trigger] low(st, new, new.len() as int) >= st.depth
}

/// An entry opens one list and no symbol.
pub open spec fn clean_entry(p: Seq<u8>) -> bool {
    &&& p.len() > 1
    &&& p[0] == 0x28
    &&& p[1] != 0x73
    &&& p[1] != 0x6c
    &&& forall|k: int| 0 < k < p.len() ==> #[trigger] p[k] != 0x28
}

/// Putting one entry over another is an exchange.
pub proof fn lemma_entry_graft(s: Seq<u8>, h: int, gone: Seq<u8>, new: Seq<u8>)
    requires
        exchangeable(gone, new),
        occurs_at(s, gone, h),
    ensures
        graftable(s, h, h + gone.len(), new),
{
    let e = h + gone.len();
    let t = spliced(s, h, e, new);
    let st = lex(s, 0, h);
    lemma_head_texts();
    lemma_graft_bytes(s, h, e, new);
    lemma_unquoted(s, 0, h);
    assert(s.subrange(h, e)[0] == s[h]);
    lemma_run_lex(s, 0, h, gone, gone.len() as int);
    assert(run(st, gone, gone.len() as int) == run(st, new, new.len() as int));
    assert(low(st, gone, gone.len() as int) >= st.depth);
    assert(low(st, new, new.len() as int) >= st.depth);
    assert forall|i: int| h <= i <= e implies (#[trigger] lex(s, 0, i)).depth >= st.depth by {
        lemma_run_lex(s, 0, h, gone, i - h);
        lemma_low(st, gone, gone.len() as int, i - h);
    }
    assert(crate::graft::opens_at(new, 0));
    lemma_no_head(s, h, gone, symbol_head());
    lemma_no_head(s, h, gone, lib_head());
    lemma_no_head(t, h, new, symbol_head());
    lemma_no_head(t, h, new, lib_head());
}

/// An entry holds no head that differs from it in its second byte.
proof fn lemma_no_head(s: Seq<u8>, h: int, p: Seq<u8>, q: Seq<u8>)
    requires
        clean_entry(p),
        occurs_at(s, p, h),
        q.len() > 1,
        q[0] == 0x28,
        q[1] != p[1],
    ensures
        free(s, q, h, h + p.len()),
{
    assert forall|k: int| h <= k < h + p.len() implies !occurs_at(s, q, k) by {
        if occurs_at(s, q, k) {
            assert(s.subrange(k, k + q.len())[0] == s[k]);
            assert(s.subrange(h, h + p.len())[k - h] == s[k]);
            if k == h {
                assert(s.subrange(k, k + q.len())[1] == s[k + 1]);
                assert(s.subrange(h, h + p.len())[1] == s[h + 1]);
            }
        }
    }
}

/// The edits that put one entry over another at some places.
pub open spec fn entries(at: Seq<int>, gone: Seq<u8>, new: Seq<u8>) -> Seq<Edit> {
    at.map_values(|i: int| hit_edit(i, gone.len() as int, new))
}

/// Places at which an entry stands, one behind the other.
pub open spec fn listed(s: Seq<u8>, at: Seq<int>, gone: Seq<u8>) -> bool {
    &&& forall|k: int| 0 <= k < at.len() ==> occurs_at(s, gone, #[trigger] at[k])
    &&& forall|j: int, k: int|
        0 <= j < k < at.len() ==> #[trigger] at[j] + gone.len() <= #[trigger] at[k]
}

/// What a symbol holds of a search text after entries were exchanged.
proof fn lemma_one_entry(
    s: Seq<u8>,
    h: int,
    gone: Seq<u8>,
    new: Seq<u8>,
    p: Seq<u8>,
    placed: bool,
    i: int,
)
    requires
        exchangeable(gone, new),
        occurs_at(s, gone, h),
        solo(p),
        p == new || differ(p, new),
        0 <= i < s.len(),
        i <= h || h + gone.len() <= i,
    ensures
        ({
            let t = spliced(s, h, h + gone.len(), new);
            let j = if i <= h {
                i
            } else {
                i + new.len() - gone.len()
            };
            &&& i != h ==> occurs_at(t, p, j) == occurs_at(s, p, i)
            &&& i == h ==> occurs_at(t, p, j) == (p == new)
            &&& forall|o: int|
                #![trigger within_number(s, i, o, placed)]
                #![trigger within_number(t, j, o, placed)]
                within_number(s, i, o, placed) == within_number(t, j, o, placed)
        }),
{
    let e = h + gone.len();
    let t = spliced(s, h, e, new);
    lemma_entry_graft(s, h, gone, new);
    lemma_graft_bytes(s, h, e, new);
    let j = if i <= h {
        i
    } else {
        i + new.len() - gone.len()
    };
    assert(follows(i, j, h, e, new.len() - (e - h)));
    lemma_graft_within(s, h, e, new, i, j, placed);
    if i != h {
        lemma_graft_occurs(s, h, e, new, p, i);
    } else if p != new && occurs_at(t, p, h) {
        let k = choose|k: int| 0 <= k < p.len() && k < new.len() && #[trigger] p[k] != new[k];
        assert(t.subrange(h, h + p.len())[k] == t[h + k]);
    }
}

/// Which symbols hold a search text after entries were exchanged at some
/// places: those that held it elsewhere, and, where it is the new entry, those
/// in which an entry was exchanged.
proof fn lemma_entries(
    s: Seq<u8>,
    at: Seq<int>,
    gone: Seq<u8>,
    new: Seq<u8>,
    p: Seq<u8>,
    placed: bool,
)
    requires
        exchangeable(gone, new),
        listed(s, at, gone),
        solo(p),
        p == new || differ(p, new),
    ensures
        forall|o: int| #[trigger]
            has(rewritten(s, entries(at, gone, new), 0), p, o, placed) <==> left(
                s,
                at,
                p,
                o,
                placed,
            ) || (p == new && given(s, at, o, placed)),
    decreases at.len(),
{
    let es = entries(at, gone, new);
    let t = rewritten(s, es, 0);
    if at.len() == 0 {
        assert(es =~= Seq::<Edit>::empty());
        assert(t =~= s);
        assert forall|o: int| #[trigger] has(t, p, o, placed) <==> left(s, at, p, o, placed) || (p
            == new && given(s, at, o, placed)) by {
            if has(t, p, o, placed) {
                let i = choose|i: int| #[trigger]
                    occurs_at(s, p, i) && within_number(s, i, o, placed);
                assert(!at.contains(i));
                assert(occurs_at(s, p, i));
            }
        }
    } else {
        let h = at.last();
        let e = h + gone.len();
        let s1 = spliced(s, h, e, new);
        let before = at.drop_last();
        assert(occurs_at(s, gone, at[at.len() - 1]));
        lemma_entry_graft(s, h, gone, new);
        lemma_graft_bytes(s, h, e, new);
        // The other places are where they were.
        assert forall|k: int| 0 <= k < before.len() implies occurs_at(
            s1,
            gone,
            #[trigger] before[k],
        ) && before[k] + gone.len() <= h by {
            assert(occurs_at(s, gone, at[k]));
            assert(at[k] + gone.len() <= at[at.len() - 1]);
            assert(s1.subrange(at[k], at[k] + gone.len()) =~= s.subrange(
                at[k],
                at[k] + gone.len(),
            ));
        }
        assert forall|j: int, k: int| 0 <= j < k < before.len() implies #[trigger] before[j]
            + gone.len() <= #[trigger] before[k] by {
            assert(at[j] + gone.len() <= at[k]);
        }
        assert(in_line(es)) by {
            assert forall|i: int| 0 <= i < es.len() implies 0 <= (#[trigger] es[i]).start
                <= es[i].end by {
                assert(occurs_at(s, gone, at[i]));
            }
            assert forall|i: int, j: int| 0 <= i < j < es.len() implies (#[trigger] es[i]).end <= (
            #[trigger] es[j]).start by {
                assert(at[i] + gone.len() <= at[j]);
            }
        }
        assert(es.last() == hit_edit(h, gone.len() as int, new));
        assert(0 <= es[0].start);
        lemma_last_first(s, es, 0);
        assert(es.drop_last() =~= entries(before, gone, new));
        assert(t == rewritten(s1, entries(before, gone, new), 0));
        lemma_entries(s1, before, gone, new, p, placed);
        assert forall|o: int| #[trigger] has(t, p, o, placed) <==> left(s, at, p, o, placed) || (p
            == new && given(s, at, o, placed)) by {
            lemma_entries_step(s, at, gone, new, p, placed, o);
        }
    }
}

/// A symbol holds a search text at none of some places.
pub open spec fn left(s: Seq<u8>, at: Seq<int>, p: Seq<u8>, o: int, placed: bool) -> bool {
    exists|i: int| #[trigger]
        occurs_at(s, p, i) && !at.contains(i) && within_number(s, i, o, placed)
}

/// A symbol stands around one of some places.
pub open spec fn given(s: Seq<u8>, at: Seq<int>, o: int, placed: bool) -> bool {
    exists|k: int| 0 <= k < at.len() && within_number(s, #[trigger] at[k], o, placed)
}

/// The places before the last.
proof fn lemma_places_before(s: Seq<u8>, at: Seq<int>, gone: Seq<u8>)
    requires
        at.len() > 0,
        gone.len() > 0,
        listed(s, at, gone),
    ensures
        occurs_at(s, gone, at.last()),
        forall|k: int|
            0 <= k < at.len() - 1 ==> 0 <= #[trigger] at.drop_last()[k] && at.drop_last()[k]
                + gone.len() <= at.last(),
        forall|x: int| #[trigger]
            at.contains(x) <==> at.drop_last().contains(x) || x == at.last(),
        forall|x: int| #[trigger] at.drop_last().contains(x) ==> 0 <= x && x + gone.len()
            <= at.last(),
{
    let h = at.last();
    let before = at.drop_last();
    assert(occurs_at(s, gone, at[at.len() - 1]));
    assert forall|k: int| 0 <= k < at.len() - 1 implies 0 <= #[trigger] before[k]
        && before[k] + gone.len() <= h by {
        assert(occurs_at(s, gone, at[k]));
        assert(at[k] + gone.len() <= at[at.len() - 1]);
    }
    assert forall|x: int| #[trigger] at.contains(x) <==> before.contains(x) || x == h by {
        if at.contains(x) && x != h {
            let k = choose|k: int| 0 <= k < at.len() && at[k] == x;
            assert(before[k] == x);
        }
        if before.contains(x) {
            let k = choose|k: int| 0 <= k < before.len() && before[k] == x;
            assert(at[k] == x);
        }
        assert(at[at.len() - 1] == h);
    }
}

/// What is left of a search text is left after the last exchange.
proof fn lemma_left_stays(
    s: Seq<u8>,
    at: Seq<int>,
    gone: Seq<u8>,
    new: Seq<u8>,
    p: Seq<u8>,
    placed: bool,
    o: int,
)
    requires
        at.len() > 0,
        exchangeable(gone, new),
        listed(s, at, gone),
        solo(p),
        p == new || differ(p, new),
        left(s, at, p, o, placed),
    ensures
        left(
            spliced(s, at.last(), at.last() + gone.len(), new),
            at.drop_last(),
            p,
            o,
            placed,
        ),
{
    let h = at.last();
    let e = h + gone.len();
    let s1 = spliced(s, h, e, new);
    lemma_places_before(s, at, gone);
    let i = choose|i: int| #[trigger]
        occurs_at(s, p, i) && !at.contains(i) && within_number(s, i, o, placed);
    assert(at.contains(h) && i != h);
    assert(s.subrange(i, i + p.len())[0] == s[i]);
    if h < i < e {
        assert(s.subrange(h, e)[i - h] == s[i]);
    }
    lemma_one_entry(s, h, gone, new, p, placed, i);
    let j = if i <= h {
        i
    } else {
        i + new.len() - gone.len()
    };
    assert(occurs_at(s1, p, j));
    assert(!at.drop_last().contains(j)) by {
        if at.drop_last().contains(j) {
            assert(j + gone.len() <= h);
            assert(at.contains(i));
        }
    }
    assert(within_number(s, i, o, placed));
    assert(within_number(s1, j, o, placed));
}

/// A symbol in which the last entry is exchanged has the new one.
proof fn lemma_given_stays(
    s: Seq<u8>,
    at: Seq<int>,
    gone: Seq<u8>,
    new: Seq<u8>,
    placed: bool,
    o: int,
)
    requires
        at.len() > 0,
        exchangeable(gone, new),
        solo(new),
        listed(s, at, gone),
        given(s, at, o, placed),
    ensures
        ({
            let s1 = spliced(s, at.last(), at.last() + gone.len(), new);
            left(s1, at.drop_last(), new, o, placed) || given(s1, at.drop_last(), o, placed)
        }),
{
    let h = at.last();
    let s1 = spliced(s, h, h + gone.len(), new);
    let before = at.drop_last();
    lemma_places_before(s, at, gone);
    let k = choose|k: int| 0 <= k < at.len() && within_number(s, #[trigger] at[k], o, placed);
    if k < at.len() - 1 {
        assert(before[k] == at[k]);
        lemma_one_entry(s, h, gone, new, new, placed, at[k]);
        assert(within_number(s, at[k], o, placed));
        assert(within_number(s1, before[k], o, placed));
    } else {
        lemma_one_entry(s, h, gone, new, new, placed, h);
        assert(occurs_at(s1, new, h));
        assert(!before.contains(h)) by {
            if before.contains(h) {
                assert(h + gone.len() <= h);
            }
        }
        assert(within_number(s, h, o, placed));
        assert(within_number(s1, h, o, placed));
    }
}

/// What is left of a search text after the last exchange was left before, or
/// is the new entry.
proof fn lemma_left_was(
    s: Seq<u8>,
    at: Seq<int>,
    gone: Seq<u8>,
    new: Seq<u8>,
    p: Seq<u8>,
    placed: bool,
    o: int,
)
    requires
        at.len() > 0,
        exchangeable(gone, new),
        listed(s, at, gone),
        solo(p),
        p == new || differ(p, new),
        left(
            spliced(s, at.last(), at.last() + gone.len(), new),
            at.drop_last(),
            p,
            o,
            placed,
        ),
    ensures
        left(s, at, p, o, placed) || (p == new && given(s, at, o, placed)),
{
    let h = at.last();
    let e = h + gone.len();
    let s1 = spliced(s, h, e, new);
    let by = new.len() - gone.len();
    lemma_places_before(s, at, gone);
    lemma_graft_bytes(s, h, e, new);
    let j = choose|j: int| #[trigger]
        occurs_at(s1, p, j) && !at.drop_last().contains(j) && within_number(s1, j, o, placed);
    assert(s1.subrange(j, j + p.len())[0] == s1[j]);
    if h < j < h + new.len() {
        assert(s1[h + (j - h)] == new[j - h]);
    }
    let i = if j <= h {
        j
    } else {
        j - by
    };
    lemma_one_entry(s, h, gone, new, p, placed, i);
    assert(within_number(s1, j, o, placed));
    assert(within_number(s, i, o, placed));
    if i == h {
        assert(within_number(s, at[at.len() - 1], o, placed));
    } else {
        assert(occurs_at(s, p, i));
        assert(!at.contains(i)) by {
            if at.contains(i) {
                assert(at.drop_last().contains(i));
                assert(i + gone.len() <= h);
            }
        }
    }
}

proof fn lemma_given_was(
    s: Seq<u8>,
    at: Seq<int>,
    gone: Seq<u8>,
    new: Seq<u8>,
    placed: bool,
    o: int,
)
    requires
        at.len() > 0,
        exchangeable(gone, new),
        solo(new),
        listed(s, at, gone),
        given(
            spliced(s, at.last(), at.last() + gone.len(), new),
            at.drop_last(),
            o,
            placed,
        ),
    ensures
        given(s, at, o, placed),
{
    let h = at.last();
    let s1 = spliced(s, h, h + gone.len(), new);
    let before = at.drop_last();
    lemma_places_before(s, at, gone);
    let k = choose|k: int|
        0 <= k < before.len() && within_number(s1, #[trigger] before[k], o, placed);
    assert(before[k] + gone.len() <= h);
    assert(before[k] == at[k]);
    lemma_one_entry(s, h, gone, new, new, placed, at[k]);
    assert(within_number(s, at[k], o, placed));
}

/// The step from the last place to those before it.
proof fn lemma_entries_step(
    s: Seq<u8>,
    at: Seq<int>,
    gone: Seq<u8>,
    new: Seq<u8>,
    p: Seq<u8>,
    placed: bool,
    o: int,
)
    requires
        at.len() > 0,
        exchangeable(gone, new),
        listed(s, at, gone),
        solo(p),
        p == new || differ(p, new),
    ensures
        ({
            let s1 = spliced(s, at.last(), at.last() + gone.len(), new);
            left(s1, at.drop_last(), p, o, placed) || (p == new && given(
                s1,
                at.drop_last(),
                o,
                placed,
            )) <==> left(s, at, p, o, placed) || (p == new && given(s, at, o, placed))
        }),
{
    let s1 = spliced(s, at.last(), at.last() + gone.len(), new);
    if left(s, at, p, o, placed) {
        lemma_left_stays(s, at, gone, new, p, placed, o);
    }
    if p == new && given(s, at, o, placed) {
        lemma_given_stays(s, at, gone, new, placed, o);
    }
    if left(s1, at.drop_last(), p, o, placed) {
        lemma_left_was(s, at, gone, new, p, placed, o);
    }
    if p == new && given(s1, at.drop_last(), o, placed) {
        lemma_given_was(s, at, gone, new, placed, o);
    }
}

// ── How entries are read ─────────────────────────────────────────────────────

/// A state that the reader can be in.
pub open spec fn sane(st: Lex) -> bool {
    !(st.escaped && !st.quoted)
}

pub proof fn lemma_sane(st: Lex, n: Seq<u8>, k: int)
    requires
        sane(st),
    ensures
        sane(run(st, n, k)),
    decreases k,
{
    if k > 0 {
        lemma_sane(st, n, k - 1);
    }
}

/// A text that closes no list never falls below the depth at which it began.
pub proof fn lemma_rise(st: Lex, n: Seq<u8>, k: int)
    requires
        0 <= k <= n.len(),
        forall|i: int| 0 <= i < n.len() ==> #[trigger] n[i] != 0x29,
    ensures
        low(st, n, k) >= st.depth,
        run(st, n, k).depth >= st.depth,
    decreases k,
{
    if k > 0 {
        lemma_rise(st, n, k - 1);
        assert(n[k - 1] != 0x29);
    }
}

/// Reading two texts one behind the other.
pub proof fn lemma_run_both(st: Lex, x: Seq<u8>, y: Seq<u8>)
    ensures
        run(st, x + y, (x + y).len() as int) == run(
            run(st, x, x.len() as int),
            y,
            y.len() as int,
        ),
{
    lemma_run_tail(st, x, y, y.len() as int);
}

proof fn lemma_run_tail(st: Lex, x: Seq<u8>, y: Seq<u8>, k: int)
    requires
        0 <= k <= y.len(),
    ensures
        run(st, x + y, x.len() + k) == run(run(st, x, x.len() as int), y, k),
    decreases k,
{
    if k == 0 {
        lemma_run_first(st, x, y, x.len() as int);
    } else {
        lemma_run_tail(st, x, y, k - 1);
        assert((x + y)[x.len() + k - 1] == y[k - 1]);
    }
}

/// The bytes of a designator without marks.
pub proof fn lemma_plain_bytes(reference: Seq<char>)
    requires
        unmarked(reference),
    ensures
        forall|i: int|
            0 <= i < utf8(reference).len() ==> {
                let b = #[trigger] utf8(reference)[i];
                b != 0x22 && b != 0x5c && b != 0x28 && b != 0x29
            },
{
    lemma_byte_absent(reference, '"');
    lemma_byte_absent(reference, '\\');
    lemma_byte_absent(reference, '(');
    lemma_byte_absent(reference, ')');
}

/// Behind a quote a designator without marks changes nothing for the reader.
proof fn lemma_same_reading(st: Lex, head: Seq<u8>, a: Seq<char>, b: Seq<char>, tail: Seq<u8>)
    requires
        sane(st),
        head.len() > 0,
        head.last() == 0x22,
        unmarked(a),
        unmarked(b),
    ensures
        ({
            let x = head + utf8(a) + tail;
            let y = head + utf8(b) + tail;
            run(st, x, x.len() as int) == run(st, y, y.len() as int)
        }),
{
    let mid = run(st, head, head.len() as int);
    lemma_sane(st, head, head.len() - 1);
    assert(!mid.escaped);
    lemma_plain_bytes(a);
    lemma_plain_bytes(b);
    lemma_quiet(mid, utf8(a), utf8(a).len() as int);
    lemma_quiet(mid, utf8(b), utf8(b).len() as int);
    lemma_run_both(st, head, utf8(a));
    lemma_run_both(st, head, utf8(b));
    lemma_run_both(st, head + utf8(a), tail);
    lemma_run_both(st, head + utf8(b), tail);
}

/// The parts of the property that carries a designator.
pub proof fn lemma_property_parts(reference: Seq<char>)
    ensures
        utf8(reference_property(reference)) == utf8("(property \"Reference\" \""@) + utf8(
            reference,
        ) + seq![0x22u8],
        utf8("(property \"Reference\" \""@).len() == 23,
        utf8("(property \"Reference\" \""@)[0] == 0x28,
        utf8("(property \"Reference\" \""@)[1] == 0x70,
        utf8("(property \"Reference\" \""@).last() == 0x22,
        forall|i: int|
            0 < i < 23 ==> {
                let b = #[trigger] utf8("(property \"Reference\" \""@)[i];
                b != 0x28 && b != 0x29
            },
{
    let head = "(property \"Reference\" \""@;
    reveal_strlit("(property \"Reference\" \"");
    reveal_strlit("\"");
    vstd::utf8::is_ascii_chars_encode_utf8(head);
    vstd::utf8::is_ascii_chars_encode_utf8("\""@);
    lemma_utf8_add(head, reference);
    lemma_utf8_add(head + reference, "\""@);
    assert(utf8("\""@) =~= seq![0x22u8]);
}

/// The parts of an instances entry.
proof fn lemma_path_parts(reference: Seq<char>)
    ensures
        utf8(path_reference(reference)) == utf8("(reference \""@) + utf8(reference) + seq![
            0x22u8,
            0x29,
        ],
        utf8("(reference \""@) == seq![0x28u8] + utf8("reference "@) + seq![0x22u8],
        utf8("(reference \""@).len() == 12,
        utf8("reference "@).len() == 10,
        utf8("reference "@)[0] == 0x72,
        forall|i: int|
            0 <= i < 10 ==> {
                let b = #[trigger] utf8("reference "@)[i];
                b != 0x28 && b != 0x29 && b != 0x22 && b != 0x5c
            },
{
    let head = "(reference \""@;
    reveal_strlit("(reference \"");
    reveal_strlit("reference ");
    reveal_strlit("\")");
    vstd::utf8::is_ascii_chars_encode_utf8(head);
    vstd::utf8::is_ascii_chars_encode_utf8("reference "@);
    vstd::utf8::is_ascii_chars_encode_utf8("\")"@);
    lemma_utf8_add(head, reference);
    lemma_utf8_add(head + reference, "\")"@);
    assert(utf8("\")"@) =~= seq![0x22u8, 0x29]);
    assert(utf8(head) =~= seq![0x28u8] + utf8("reference "@) + seq![0x22u8]);
}

/// The designators that are drawn may be exchanged for one another.
pub proof fn lemma_property_exchange(a: Seq<char>, b: Seq<char>)
    requires
        unmarked(a),
        unmarked(b),
    ensures
        exchangeable(utf8(reference_property(a)), utf8(reference_property(b))),
        solo(utf8(reference_property(a))),
        clean(utf8(reference_property(a))),
        forall|i: int|
            0 <= i < utf8(reference_property(a)).len() ==> #[trigger] utf8(
                reference_property(a),
            )[i] != 0x29,
{
    let head = utf8("(property \"Reference\" \""@);
    let x = utf8(reference_property(a));
    let y = utf8(reference_property(b));
    lemma_property_parts(a);
    lemma_property_parts(b);
    lemma_plain_bytes(a);
    lemma_plain_bytes(b);
    lemma_entry_bytes(head, a, seq![0x22u8]);
    lemma_entry_bytes(head, b, seq![0x22u8]);
    assert forall|i: int| 0 <= i < x.len() implies #[trigger] x[i] != 0x29 by {}
    assert forall|i: int| 0 <= i < y.len() implies #[trigger] y[i] != 0x29 by {}
    assert forall|st: Lex| !(st.escaped && !st.quoted) implies #[trigger] run(
        st,
        x,
        x.len() as int,
    ) == run(st, y, y.len() as int) by {
        lemma_same_reading(st, head, a, b, seq![0x22u8]);
    }
    assert forall|st: Lex| !(st.escaped && !st.quoted) implies #[trigger] low(
        st,
        x,
        x.len() as int,
    ) >= st.depth by {
        lemma_rise(st, x, x.len() as int);
    }
    assert forall|st: Lex| !(st.escaped && !st.quoted) implies #[trigger] low(
        st,
        y,
        y.len() as int,
    ) >= st.depth by {
        lemma_rise(st, y, y.len() as int);
    }
}

/// A head that opens one list, a designator without marks and a short tail
/// open one list.
proof fn lemma_entry_bytes(head: Seq<u8>, a: Seq<char>, tail: Seq<u8>)
    requires
        unmarked(a),
        head.len() > 1,
        head[0] == 0x28,
        forall|i: int| 0 < i < head.len() ==> #[trigger] head[i] != 0x28,
        forall|i: int| 0 <= i < tail.len() ==> #[trigger] tail[i] != 0x28,
    ensures
        solo(head + utf8(a) + tail),
        (head + utf8(a) + tail)[1] == head[1],
{
    let x = head + utf8(a) + tail;
    lemma_plain_bytes(a);
    assert forall|k: int| 0 < k < x.len() implies #[trigger] x[k] != 0x28 by {
        if k < head.len() {
            assert(x[k] == head[k]);
        } else if k < head.len() + utf8(a).len() {
            assert(x[k] == utf8(a)[k - head.len()]);
        } else {
            assert(x[k] == tail[k - head.len() - utf8(a).len()]);
        }
    }
}

/// An instances entry ends at the depth at which it began.
proof fn lemma_path_low(st: Lex, a: Seq<char>)
    requires
        sane(st),
        unmarked(a),
    ensures
        low(st, utf8(path_reference(a)), utf8(path_reference(a)).len() as int) >= st.depth,
{
    let n = utf8(path_reference(a));
    let open = seq![0x28u8];
    let word = utf8("reference "@);
    let quote = seq![0x22u8];
    let x = utf8(a);
    lemma_path_parts(a);
    lemma_plain_bytes(a);
    let body = open + word + quote + x + quote;
    assert(n =~= body + seq![0x29u8]);
    // Up to the closing parenthesis nothing is closed.
    assert forall|i: int| 0 <= i < body.len() implies #[trigger] body[i] != 0x29 by {
        if 1 <= i < 11 {
            assert(body[i] == word[i - 1]);
        } else if 12 <= i < 12 + x.len() {
            assert(body[i] == x[i - 12]);
        }
    }
    lemma_rise(st, body, body.len() as int);
    lemma_run_first(st, body, seq![0x29u8], body.len() as int);
    // There the reader is as it was behind the opening one.
    let st1 = run(st, open, 1);
    reveal_with_fuel(run, 2);
    assert(!st1.escaped);
    assert(st1.quoted == st.quoted);
    assert(!st.quoted ==> st1.depth == st.depth + 1);
    lemma_quiet(st1, word, 10);
    lemma_run_both(st, open, word);
    let st2 = run(st1, quote, 1);
    lemma_run_both(st, open + word, quote);
    assert(!st2.escaped && st2.quoted != st.quoted && st2.depth == st1.depth);
    lemma_quiet(st2, x, x.len() as int);
    lemma_run_both(st, open + word + quote, x);
    lemma_run_both(st, open + word + quote + x, quote);
    assert(run(st, body, body.len() as int).quoted == st.quoted);
    assert(n[body.len() as int] == 0x29);
    assert(run(st, n, n.len() as int).depth >= st.depth);
    assert(low(st, n, n.len() - 1) >= st.depth);
}

/// Instances entries may be exchanged for one another.
proof fn lemma_path_exchange(a: Seq<char>, b: Seq<char>)
    requires
        unmarked(a),
        unmarked(b),
    ensures
        exchangeable(utf8(path_reference(a)), utf8(path_reference(b))),
        solo(utf8(path_reference(a))),
        utf8(path_reference(a))[1] == 0x72,
        forall|i: int|
            0 <= i < utf8(path_reference(a)).len() - 1 ==> #[trigger] utf8(
                path_reference(a),
            )[i] != 0x29,
{
    let head = utf8("(reference \""@);
    let x = utf8(path_reference(a));
    let y = utf8(path_reference(b));
    let tail = seq![0x22u8, 0x29];
    lemma_path_parts(a);
    lemma_path_parts(b);
    lemma_plain_bytes(a);
    assert forall|i: int| 0 < i < head.len() implies #[trigger] head[i] != 0x28 && head[i]
        != 0x29 by {
        if i < 11 {
            assert(head[i] == utf8("reference "@)[i - 1]);
        }
    }
    assert(head[1] == utf8("reference "@)[0]);
    lemma_entry_bytes(head, a, tail);
    lemma_entry_bytes(head, b, tail);
    assert forall|i: int| 0 <= i < x.len() - 1 implies #[trigger] x[i] != 0x29 by {
        if 0 < i < 12 {
            assert(x[i] == head[i]);
        } else if 12 <= i < 12 + utf8(a).len() {
            assert(x[i] == utf8(a)[i - 12]);
        }
    }
    assert forall|st: Lex| !(st.escaped && !st.quoted) implies #[trigger] run(
        st,
        x,
        x.len() as int,
    ) == run(st, y, y.len() as int) by {
        lemma_same_reading(st, head, a, b, tail);
    }
    assert forall|st: Lex| !(st.escaped && !st.quoted) implies #[trigger] low(
        st,
        x,
        x.len() as int,
    ) >= st.depth by {
        lemma_path_low(st, a);
    }
    assert forall|st: Lex| !(st.escaped && !st.quoted) implies #[trigger] low(
        st,
        y,
        y.len() as int,
    ) >= st.depth by {
        lemma_path_low(st, b);
    }
}

/// Entries of two designators cannot stand at the same place.
pub proof fn lemma_differ(head: Seq<u8>, a: Seq<char>, b: Seq<char>, tail: Seq<u8>)
    requires
        unmarked(a),
        unmarked(b),
        a != b,
        tail.len() > 0,
        tail[0] == 0x22,
    ensures
        differ(head + utf8(a) + tail, head + utf8(b) + tail),
{
    let x = head + utf8(a) + tail;
    let y = head + utf8(b) + tail;
    let n = head.len() as int;
    lemma_plain_bytes(a);
    lemma_plain_bytes(b);
    let la = utf8(a).len() as int;
    let lb = utf8(b).len() as int;
    if la < lb {
        assert(x[n + la] == 0x22);
        assert(y[n + la] == utf8(b)[la]);
    } else if lb < la {
        assert(y[n + lb] == 0x22);
        assert(x[n + lb] == utf8(a)[lb]);
    } else {
        assert(exists|i: int| 0 <= i < la && utf8(a)[i] != utf8(b)[i]) by {
            if forall|i: int| 0 <= i < la ==> utf8(a)[i] == utf8(b)[i] {
                assert(utf8(a) =~= utf8(b));
                lemma_utf8_injective(a, b);
            }
        }
        let i = choose|i: int| 0 <= i < la && utf8(a)[i] != utf8(b)[i];
        assert(x[n + i] == utf8(a)[i]);
        assert(y[n + i] == utf8(b)[i]);
    }
}

// ── The places that are renamed ──────────────────────────────────────────────

/// The places inside the blocks.
proof fn lemma_inside(at: Seq<int>, n: int, blocks: Seq<(int, int)>, width: int)
    requires
        0 <= n <= at.len(),
        0 < width,
        forall|j: int, k: int|
            0 <= j < k < at.len() ==> #[trigger] at[j] + width <= #[trigger] at[k],
    ensures
        forall|k: int|
            0 <= k < inside(at, n, blocks, width).len() ==> exists|m: int|
                0 <= m < n && #[trigger] at[m] == #[trigger] inside(at, n, blocks, width)[k],
        forall|k: int|
            0 <= k < inside(at, n, blocks, width).len() ==> within(
                blocks,
                #[trigger] inside(at, n, blocks, width)[k],
                width,
            ),
        forall|j: int, k: int|
            0 <= j < k < inside(at, n, blocks, width).len() ==> #[trigger] inside(
                at,
                n,
                blocks,
                width,
            )[j] + width <= #[trigger] inside(at, n, blocks, width)[k],
        forall|m: int|
            0 <= m < n && within(blocks, #[trigger] at[m], width) ==> inside(
                at,
                n,
                blocks,
                width,
            ).contains(at[m]),
    decreases n,
{
    if n > 0 {
        lemma_inside(at, n - 1, blocks, width);
        let before = inside(at, n - 1, blocks, width);
        let now = inside(at, n, blocks, width);
        assert forall|k: int| 0 <= k < now.len() implies within(
            blocks,
            #[trigger] now[k],
            width,
        ) by {
            if k < before.len() {
                assert(now[k] == before[k]);
            }
        }
        assert forall|k: int| 0 <= k < now.len() implies exists|m: int|
            0 <= m < n && #[trigger] at[m] == #[trigger] now[k] by {
            if k < before.len() {
                assert(now[k] == before[k]);
                let m = choose|m: int| 0 <= m < n - 1 && #[trigger] at[m] == before[k];
                assert(at[m] == now[k]);
            } else {
                assert(at[n - 1] == now[k]);
            }
        }
        assert forall|j: int, k: int| 0 <= j < k < now.len() implies #[trigger] now[j] + width
            <= #[trigger] now[k] by {
            assert(now[j] == before[j]);
            if k < before.len() {
                assert(now[k] == before[k]);
            } else {
                let m = choose|m: int| 0 <= m < n - 1 && #[trigger] at[m] == before[j];
                assert(at[m] + width <= at[n - 1]);
            }
        }
        assert forall|m: int| 0 <= m < n && within(blocks, #[trigger] at[m], width) implies now.contains(
            at[m],
        ) by {
            if m < n - 1 {
                assert(before.contains(at[m]));
                let k = choose|k: int| 0 <= k < before.len() && before[k] == at[m];
                assert(now[k] == at[m]);
            } else {
                assert(now[now.len() - 1] == at[m]);
            }
        }
    }
}

/// The places at which a rename puts one entry over another.
spec fn renamed_at(s: Seq<u8>, blocks: Seq<(int, int)>, gone: Seq<u8>) -> Seq<int> {
    inside(hits(s, gone, 0), hits(s, gone, 0).len() as int, blocks, gone.len() as int)
}

proof fn lemma_renamed_at(s: Seq<u8>, blocks: Seq<(int, int)>, gone: Seq<u8>, new: Seq<u8>)
    requires
        solo(gone),
    ensures
        listed(s, renamed_at(s, blocks, gone), gone),
        edited(s, entry_edits(s, blocks, gone, new)) == rewritten(
            s,
            entries(renamed_at(s, blocks, gone), gone, new),
            0,
        ),
        forall|i: int| #[trigger]
            occurs_at(s, gone, i) && within(blocks, i, gone.len() as int) ==> renamed_at(
                s,
                blocks,
                gone,
            ).contains(i),
{
    let at = hits(s, gone, 0);
    let w = gone.len() as int;
    let chosen = renamed_at(s, blocks, gone);
    lemma_hits(s, gone, 0);
    lemma_inside(at, at.len() as int, blocks, w);
    assert forall|k: int| 0 <= k < chosen.len() implies occurs_at(s, gone, #[trigger] chosen[k]) by {
        let m = choose|m: int| 0 <= m < at.len() && #[trigger] at[m] == chosen[k];
        assert(occurs_at(s, gone, at[m]));
    }
    let es = entries(chosen, gone, new);
    assert(es =~= entry_edits(s, blocks, gone, new));
    assert(in_line(es)) by {
        assert forall|i: int| 0 <= i < es.len() implies 0 <= (#[trigger] es[i]).start
            <= es[i].end by {
            assert(occurs_at(s, gone, chosen[i]));
        }
        assert forall|i: int, j: int| 0 <= i < j < es.len() implies (#[trigger] es[i]).end <= (
        #[trigger] es[j]).start by {
            assert(chosen[i] + w <= chosen[j]);
        }
    }
    lemma_in_line_ordered(es);
    assert forall|i: int| #[trigger] occurs_at(s, gone, i) && within(blocks, i, w) implies chosen.contains(
        i,
    ) by {
        lemma_all_hits(s, gone, i);
        let m = choose|m: int| 0 <= m < at.len() && at[m] == i;
        assert(within(blocks, at[m], w));
    }
}

// ── Units and their numbers ──────────────────────────────────────────────────

/// Every unit stands around a property that bears its designator.
proof fn lemma_unit_around(s: Seq<u8>, at: Seq<int>, n: int)
    requires
        0 <= n <= at.len(),
    ensures
        forall|k: int|
            0 <= k < crate::symbols::placed_around(s, at, n).len() ==> exists|m: int|
                0 <= m < n && stands_around(
                    s,
                    #[trigger] at[m],
                    #[trigger] crate::symbols::placed_around(s, at, n)[k],
                    true,
                ),
    decreases n,
{
    if n > 0 {
        lemma_unit_around(s, at, n - 1);
        let before = crate::symbols::placed_around(s, at, n - 1);
        let now = crate::symbols::placed_around(s, at, n);
        assert forall|k: int| 0 <= k < now.len() implies exists|m: int|
            0 <= m < n && stands_around(s, #[trigger] at[m], #[trigger] now[k], true) by {
            if k < before.len() {
                assert(now[k] == before[k]);
                let m = choose|m: int|
                    0 <= m < n - 1 && stands_around(s, #[trigger] at[m], before[k], true);
                assert(stands_around(s, at[m], now[k], true));
            } else {
                assert(stands_around(s, at[n - 1], now[k], true));
            }
        }
    }
}

/// A unit of a component, by its number.
pub open spec fn unit_number(s: Seq<u8>, reference: Seq<char>, o: int) -> bool {
    exists|k: int|
        0 <= k < instance_blocks(s, reference).len() && number(
            s,
            (#[trigger] instance_blocks(s, reference)[k]).0,
        ) == o
}

/// The units of a component are the placed symbols that bear its designator.
proof fn lemma_unit_numbers(s: Seq<u8>, reference: Seq<char>, o: int)
    requires
        unmarked(reference),
    ensures
        unit_number(s, reference, o) <==> has(s, utf8(reference_property(reference)), o, true),
{
    let p = utf8(reference_property(reference));
    let at = hits(s, p, 0);
    let all = instance_blocks(s, reference);
    lemma_property_exchange(reference, reference);
    lemma_hits(s, p, 0);
    lemma_unit_around(s, at, at.len() as int);
    if unit_number(s, reference, o) {
        let k = choose|k: int| 0 <= k < all.len() && number(s, (#[trigger] all[k]).0) == o;
        let m = choose|m: int|
            0 <= m < at.len() && stands_around(s, #[trigger] at[m], all[k], true);
        assert(occurs_at(s, p, at[m]));
        assert(within_number(s, at[m], o, true));
    }
    if has(s, p, o, true) {
        let i = choose|i: int| #[trigger] occurs_at(s, p, i) && within_number(s, i, o, true);
        let b = choose|b: (int, int)| #[trigger]
            stands_around(s, i, b, true) && number(s, b.0) == o;
        lemma_all_hits(s, p, i);
        let m = choose|m: int| 0 <= m < at.len() && at[m] == i;
        lemma_placed_around_complete(s, at, at.len() as int, m);
        let k = choose|k: int| 0 <= k < all.len() && (#[trigger] all[k]).0 == b.0;
        assert(number(s, all[k].0) == o);
    }
}

/// The numbers of the units of a component.
spec fn numbers(s: Seq<u8>, reference: Seq<char>) -> Seq<int> {
    instance_blocks(s, reference).map_values(|b: (int, int)| number(s, b.0))
}

/// There are as many numbers as units.
proof fn lemma_numbers(s: Seq<u8>, reference: Seq<char>)
    ensures
        numbers(s, reference).no_duplicates(),
        numbers(s, reference).to_set().finite(),
        numbers(s, reference).to_set().len() == instance_blocks(s, reference).len(),
        forall|o: int| #[trigger]
            numbers(s, reference).to_set().contains(o) <==> unit_number(s, reference, o),
{
    let all = instance_blocks(s, reference);
    let ns = numbers(s, reference);
    law_instance_blocks_sound(s, reference);
    assert forall|i: int, j: int| 0 <= i < ns.len() && 0 <= j < ns.len() && i != j implies ns[i]
        != ns[j] by {
        let a = all[i].0;
        let c = all[j].0;
        assert(all[i].0 != all[j].0);
        if a < c {
            lemma_number_grows(s, a, c);
        } else {
            lemma_number_grows(s, c, a);
        }
    }
    ns.unique_seq_to_set();
    assert forall|o: int| #[trigger] ns.to_set().contains(o) <==> unit_number(s, reference, o) by {
        if ns.to_set().contains(o) {
            assert(ns.contains(o));
            let k = choose|k: int| 0 <= k < ns.len() && ns[k] == o;
            assert(number(s, all[k].0) == o);
        }
        if unit_number(s, reference, o) {
            let k = choose|k: int| 0 <= k < all.len() && number(s, (#[trigger] all[k]).0) == o;
            assert(ns[k] == o);
            assert(ns.contains(o));
        }
    }
}

/// The units with a number are one unit.
proof fn lemma_same_number(s: Seq<u8>, a: int, c: int)
    requires
        is_block_start(s, utf8("symbol"@), a),
        is_block_start(s, utf8("symbol"@), c),
        number(s, a) == number(s, c),
    ensures
        a == c,
{
    if a < c {
        lemma_number_grows(s, a, c);
    } else if c < a {
        lemma_number_grows(s, c, a);
    }
}

/// An entry that begins in a block without its last byte being the only one
/// that could close the block lies inside it.
proof fn lemma_entry_within(s: Seq<u8>, b: (int, int), p: Seq<u8>, i: int)
    requires
        block_end(s, b.0) == Some(b.1),
        b.0 <= i < b.1,
        p.len() > 0,
        occurs_at(s, p, i),
        forall|k: int| 0 <= k < p.len() - 1 ==> #[trigger] p[k] != 0x29,
    ensures
        i + p.len() <= b.1,
{
    lemma_block_end(s, b.0);
    if i + p.len() > b.1 {
        assert(s.subrange(i, i + p.len())[b.1 - 1 - i] == s[b.1 - 1]);
    }
}

// ── The designator that is drawn ─────────────────────────────────────────────

/// A text names a designator nowhere but in its first Reference property.
pub open spec fn named_first(text: Seq<u8>, reference: Seq<char>) -> bool {
    forall|i: int| #[trigger]
        occurs_at(text, utf8(reference_property(reference)), i) ==> first_at(
            text,
            utf8(property_start("Reference"@)),
            0,
        ) == Some(i)
}

/// No unit of a component names its designator twice.
pub open spec fn named_once(s: Seq<u8>, reference: Seq<char>) -> bool {
    forall|k: int|
        0 <= k < instance_blocks(s, reference).len() ==> {
            let b = #[trigger] instance_blocks(s, reference)[k];
            named_first(s.subrange(b.0, b.1), reference)
        }
}

/// Where a unit names its designator.
spec fn spot(s: Seq<u8>, reference: Seq<char>, k: int) -> int {
    let b = instance_blocks(s, reference)[k];
    b.0 + first_at(s.subrange(b.0, b.1), utf8(property_start("Reference"@)), 0)->0
}

/// The value of a Reference property that names a designator ends with it.
proof fn lemma_quoted_end(s: Seq<u8>, reference: Seq<char>, q: int)
    requires
        unmarked(reference),
        occurs_at(s, utf8(reference_property(reference)), q),
    ensures
        utf8(reference_property(reference)).len() >= 24,
        first_at(s, utf8("\""@), q + 23) == Some(q + utf8(reference_property(reference)).len() - 1),
{
    let p = utf8(reference_property(reference));
    let quote = utf8("\""@);
    let v = utf8(reference);
    let e = q + p.len() - 1;
    lemma_property_parts(reference);
    reveal_strlit("\"");
    lemma_one_byte("\""@);
    assert(quote =~= seq![0x22u8]);
    lemma_byte_absent(reference, '"');
    assert forall|i: int| 0 <= i < p.len() implies #[trigger] s[q + i] == p[i] by {
        assert(s.subrange(q, q + p.len())[i] == s[q + i]);
    }
    assert(s[q + (p.len() - 1)] == p[p.len() - 1]);
    assert(s.subrange(e, e + 1) =~= quote);
    assert(occurs_at(s, quote, e));
    lemma_first_at(s, quote, q + 23);
    let f = first_at(s, quote, q + 23)->0;
    if f < e {
        assert(s.subrange(f, f + 1)[0] == s[f]);
        assert(s[q + (f - q)] == p[f - q]);
        assert(p[f - q] == v[f - q - 23]);
    }
}

/// A unit names its designator at one place, where its value can be replaced.
proof fn lemma_spot(s: Seq<u8>, reference: Seq<char>, k: int)
    requires
        unmarked(reference),
        named_once(s, reference),
        0 <= k < instance_blocks(s, reference).len(),
    ensures
        ({
            let b = instance_blocks(s, reference)[k];
            let p = utf8(reference_property(reference));
            let q = spot(s, reference, k);
            &&& block_end(s, b.0) == Some(b.1)
            &&& b.0 <= q
            &&& q + p.len() <= b.1 <= s.len()
            &&& occurs_at(s, p, q)
            &&& holds(s, b, "Reference"@)
            &&& value_start(s, b, "Reference"@) == q + 23
            &&& value_end(s, b, "Reference"@) == Some(q + p.len() - 1)
            &&& forall|i: int| #[trigger] occurs_at(s, p, i) && b.0 <= i < b.1 ==> i == q
        }),
{
    let b = instance_blocks(s, reference)[k];
    let text = s.subrange(b.0, b.1);
    let p = utf8(reference_property(reference));
    let head = utf8(property_start("Reference"@));
    law_instance_blocks_sound(s, reference);
    lemma_block_end(s, b.0);
    lemma_property_exchange(reference, reference);
    lemma_property_parts(reference);
    reveal_strlit("(property \"");
    reveal_strlit("\" \"");
    reveal_strlit("Reference");
    reveal_strlit("(property \"Reference\" \"");
    assert(property_start("Reference"@) =~= "(property \"Reference\" \""@);
    lemma_stands(s, b, p);
    assert(named_first(text, reference));
    assert forall|i: int| #[trigger] occurs_at(s, p, i) && b.0 <= i < b.1 implies i == spot(
        s,
        reference,
        k,
    ) && i + p.len() <= b.1 by {
        lemma_entry_within(s, b, p, i);
        assert(stands_in(s, b, p, i));
        assert(occurs_at(text, p, i - b.0));
    }
    let q = choose|i: int| b.0 <= i < b.1 && #[trigger] occurs_at(s, p, i);
    assert(q == spot(s, reference, k));
    assert(stands_in(s, b, p, q));
    assert(occurs_at(text, p, q - b.0));
    lemma_first_at(text, head, 0);
    lemma_occurs(text, head);
    lemma_quoted_end(s, reference, q);
}

/// Units that name their designator once do not nest.
proof fn lemma_once_unnested(s: Seq<u8>, reference: Seq<char>)
    requires
        unmarked(reference),
        named_once(s, reference),
    ensures
        unnested(instance_blocks(s, reference)),
{
    let all = instance_blocks(s, reference);
    let p = utf8(reference_property(reference));
    let at = hits(s, p, 0);
    law_instance_blocks_sound(s, reference);
    lemma_hits(s, p, 0);
    lemma_unit_around(s, at, at.len() as int);
    assert forall|i: int, j: int| 0 <= i < all.len() && 0 <= j < all.len() implies !((
    #[trigger] all[i]).0 < (#[trigger] all[j]).0 < all[i].1) by {
        if all[i].0 < all[j].0 < all[i].1 {
            lemma_spot(s, reference, i);
            lemma_blocks_nest(s, all[i].0, all[j].0);
            let m = choose|m: int|
                0 <= m < at.len() && stands_around(s, #[trigger] at[m], all[i], true);
            let x = choose|x: int|
                0 <= x < at.len() && stands_around(s, #[trigger] at[x], all[j], true);
            lemma_enclosing(s, utf8("symbol"@), at[m]);
            lemma_enclosing(s, utf8("symbol"@), at[x]);
            assert(occurs_at(s, p, at[m]) && occurs_at(s, p, at[x]));
            assert(at[m] == at[x]);
        }
    }
}

/// Where every unit carries a property, it is replaced on every unit.
proof fn lemma_all_set(
    s: Seq<u8>,
    blocks: Seq<(int, int)>,
    n: int,
    name: Seq<char>,
    value: Seq<char>,
)
    requires
        0 <= n <= blocks.len(),
        forall|k: int| 0 <= k < blocks.len() ==> holds(s, #[trigger] blocks[k], name),
    ensures
        field_edits(
            s,
            blocks,
            n,
            name,
            value,
            Seq::empty(),
            (Reach { set: true, add: false }),
        ) == Seq::new(n as nat, |k: int| value_edit(s, blocks[k], name, value)),
    decreases n,
{
    let f = |k: int| value_edit(s, blocks[k], name, value);
    if n > 0 {
        lemma_all_set(s, blocks, n - 1, name, value);
        assert(holds(s, blocks[n - 1], name));
        assert(Seq::new((n - 1) as nat, f).push(f(n - 1)) =~= Seq::new(n as nat, f));
    } else {
        assert(Seq::new(0nat, f) =~= Seq::<Edit>::empty());
    }
}

/// The places at which a rename puts one property over another are those at
/// which the units name their designator.
proof fn lemma_spots(s: Seq<u8>, reference: Seq<char>)
    requires
        unmarked(reference),
        named_once(s, reference),
    ensures
        renamed_at(
            s,
            instance_blocks(s, reference),
            utf8(reference_property(reference)),
        ) == Seq::new(
            instance_blocks(s, reference).len(),
            |k: int| spot(s, reference, k),
        ),
{
    let blocks = instance_blocks(s, reference);
    let p = utf8(reference_property(reference));
    let at = renamed_at(s, blocks, p);
    let qs = Seq::new(blocks.len(), |k: int| spot(s, reference, k));
    let hs = hits(s, p, 0);
    lemma_property_exchange(reference, reference);
    lemma_renamed_at(s, blocks, p, p);
    lemma_once_unnested(s, reference);
    law_instance_blocks_in_order(s, reference);
    lemma_hits(s, p, 0);
    lemma_inside(hs, hs.len() as int, blocks, p.len() as int);
    assert forall|i: int, j: int| 0 <= i < j < at.len() implies #[trigger] at[i] < #[trigger] at[j] by {
        assert(at[i] + p.len() <= at[j]);
    }
    assert forall|i: int, j: int| 0 <= i < j < qs.len() implies #[trigger] qs[i] < #[trigger] qs[j] by {
        lemma_spot(s, reference, i);
        lemma_spot(s, reference, j);
        assert(blocks[i].1 <= blocks[j].0);
    }
    assert forall|x: int| #[trigger] at.contains(x) <==> qs.contains(x) by {
        if at.contains(x) {
            let m = choose|m: int| 0 <= m < at.len() && at[m] == x;
            assert(occurs_at(s, p, at[m]));
            assert(within(blocks, at[m], p.len() as int));
            let k = choose|k: int|
                0 <= k < blocks.len() && (#[trigger] blocks[k]).0 <= x && x + p.len()
                    <= blocks[k].1;
            lemma_spot(s, reference, k);
            assert(qs[k] == x);
        }
        if qs.contains(x) {
            let k = choose|k: int| 0 <= k < qs.len() && qs[k] == x;
            lemma_spot(s, reference, k);
            assert(blocks[k].0 <= x && x + p.len() <= blocks[k].1);
            assert(within(blocks, x, p.len() as int));
        }
    }
    lemma_same_ascending(at, qs);
}

/// Replacing the value of the Reference property on every unit is putting one
/// property over the other wherever a unit names its designator.
proof fn lemma_designator_entries(s: Seq<u8>, old_ref: Seq<char>, new_ref: Seq<char>)
    requires
        unmarked(old_ref),
        unmarked(new_ref),
        named_once(s, old_ref),
        instance_blocks(s, old_ref).len() > 0,
    ensures
        designator_renamed(s, old_ref, new_ref) == Ok::<Seq<u8>, Seq<char>>(
            edited(
                s,
                entry_edits(
                    s,
                    instance_blocks(s, old_ref),
                    utf8(reference_property(old_ref)),
                    utf8(reference_property(new_ref)),
                ),
            ),
        ),
{
    let blocks = instance_blocks(s, old_ref);
    let n = blocks.len() as int;
    let name = "Reference"@;
    let reach = Reach { set: true, add: false };
    let gone = utf8(reference_property(old_ref));
    let new = utf8(reference_property(new_ref));
    let at = renamed_at(s, blocks, gone);
    let ws = entries(at, gone, new);
    let es = Seq::new(blocks.len(), |k: int| value_edit(s, blocks[k], name, new_ref));
    lemma_property_exchange(old_ref, new_ref);
    lemma_property_parts(old_ref);
    lemma_property_parts(new_ref);
    lemma_renamed_at(s, blocks, gone, new);
    lemma_spots(s, old_ref);
    assert forall|k: int| 0 <= k < blocks.len() implies holds(s, #[trigger] blocks[k], name)
        && unit_fault(s, blocks[k], old_ref, name, reach) is None by {
        lemma_spot(s, old_ref, k);
    }
    assert(holds(s, blocks[0], name));
    lemma_all_set(s, blocks, n, name, new_ref);
    lemma_first_fault(s, blocks, 0, n, old_ref, name, reach);
    assert forall|k: int| 0 <= k < ws.len() implies widens(s, #[trigger] ws[k], es[k]) by {
        lemma_spot(s, old_ref, k);
        let q = spot(s, old_ref, k);
        assert(at[k] == q);
        assert(s.subrange(q, q + gone.len()) == gone);
        assert(s.subrange(q, q + 23) =~= gone.subrange(0, 23)) by {
            assert forall|i: int| 0 <= i < 23 implies s[q + i] == #[trigger] gone[i] by {
                assert(s.subrange(q, q + gone.len())[i] == s[q + i]);
            }
        }
        let e = q + gone.len() - 1;
        assert(s.subrange(q, q + gone.len())[e - q] == s[e]);
        assert(s.subrange(e, e + 1) =~= seq![0x22u8]);
        assert(gone.subrange(0, 23) =~= utf8("(property \"Reference\" \""@));
        assert(new =~= s.subrange(q, q + 23) + utf8(new_ref) + s.subrange(e, e + 1));
    }
    assert(in_line(ws)) by {
        assert forall|i: int| 0 <= i < ws.len() implies 0 <= (#[trigger] ws[i]).start
            <= ws[i].end by {
            assert(occurs_at(s, gone, at[i]));
        }
        assert forall|i: int, j: int| 0 <= i < j < ws.len() implies (#[trigger] ws[i]).end <= (
        #[trigger] ws[j]).start by {
            assert(at[i] + gone.len() <= at[j]);
        }
    }
    assert(in_line(es)) by {
        assert forall|i: int| 0 <= i < es.len() implies 0 <= (#[trigger] es[i]).start
            <= es[i].end by {
            assert(widens(s, ws[i], es[i]));
        }
        assert forall|i: int, j: int| 0 <= i < j < es.len() implies (#[trigger] es[i]).end <= (
        #[trigger] es[j]).start by {
            assert(widens(s, ws[i], es[i]));
            assert(widens(s, ws[j], es[j]));
            assert(ws[i].end <= ws[j].start);
        }
    }
    assert(0 <= ws[0].start);
    lemma_widened(s, ws, es, 0);
    lemma_in_line_ordered(es);
}

// ── The laws ─────────────────────────────────────────────────────────────────

/// The schematic with the designator that is drawn changed on every unit of a
/// component, or why it cannot be.
pub open spec fn designator_renamed(s: Seq<u8>, old_ref: Seq<char>, new_ref: Seq<char>) -> Result<
    Seq<u8>,
    Seq<char>,
> {
    value_replaced(s, old_ref, "Reference"@, new_ref)
}

/// The schematic once the designator of a component was changed on every unit,
/// in the property that is drawn and in the instances path.
pub open spec fn renamed(s: Seq<u8>, old_ref: Seq<char>, new_ref: Seq<char>) -> Option<Seq<u8>> {
    match designator_renamed(s, old_ref, new_ref) {
        Ok(shown) => match path_renamed(shown, old_ref, new_ref) {
            Ok((t, count)) => Some(t),
            Err(_) => None,
        },
        Err(_) => None,
    }
}

/// An edit that renames a component leaves the renamed schematic.
pub proof fn law_edit_renames(now: Editing, old_ref: Seq<char>, new_ref: Seq<char>)
    requires
        renamed(now.content, old_ref, new_ref) is Some,
    ensures
        now.rename(old_ref, new_ref).content == renamed(now.content, old_ref, new_ref)->0,
        now.rename(old_ref, new_ref).errors == now.errors,
        now.rename(old_ref, new_ref).changed.len() == now.changed.len() + 2,
{
}

/// Which units bear a designator once it was changed where it is drawn.
proof fn lemma_shown(s: Seq<u8>, old_ref: Seq<char>, new_ref: Seq<char>, o: int)
    requires
        unmarked(old_ref),
        unmarked(new_ref),
        old_ref != new_ref,
        designator_renamed(s, old_ref, new_ref) is Ok,
        named_once(s, old_ref),
    ensures
        ({
            let shown = designator_renamed(s, old_ref, new_ref)->Ok_0;
            &&& !unit_number(shown, old_ref, o)
            &&& unit_number(shown, new_ref, o) <==> unit_number(s, old_ref, o) || unit_number(
                s,
                new_ref,
                o,
            )
        }),
{
    let blocks = instance_blocks(s, old_ref);
    let gone = utf8(reference_property(old_ref));
    let new = utf8(reference_property(new_ref));
    let at = renamed_at(s, blocks, gone);
    let shown = designator_renamed(s, old_ref, new_ref)->Ok_0;
    lemma_designator_entries(s, old_ref, new_ref);
    lemma_property_exchange(old_ref, new_ref);
    lemma_property_exchange(new_ref, old_ref);
    lemma_renamed_at(s, blocks, gone, new);
    lemma_property_parts(old_ref);
    lemma_property_parts(new_ref);
    lemma_differ(utf8("(property \"Reference\" \""@), old_ref, new_ref, seq![0x22u8]);
    lemma_entries(s, at, gone, new, gone, true);
    lemma_entries(s, at, gone, new, new, true);
    lemma_unit_numbers(shown, old_ref, o);
    lemma_unit_numbers(shown, new_ref, o);
    lemma_unit_numbers(s, old_ref, o);
    lemma_unit_numbers(s, new_ref, o);
    // Every place at which a unit bears the old designator is renamed.
    assert forall|i: int| #[trigger]
        occurs_at(s, gone, i) && within_number(s, i, o, true) implies at.contains(i) by {
        let b = choose|b: (int, int)| #[trigger]
            stands_around(s, i, b, true) && number(s, b.0) == o;
        lemma_enclosing(s, utf8("symbol"@), i);
        lemma_entry_within(s, b, gone, i);
        let hs = hits(s, gone, 0);
        lemma_all_hits(s, gone, i);
        let m = choose|m: int| 0 <= m < hs.len() && hs[m] == i;
        lemma_placed_around_complete(s, hs, hs.len() as int, m);
        let k = choose|k: int| 0 <= k < blocks.len() && (#[trigger] blocks[k]).0 == b.0;
        law_instance_blocks_sound(s, old_ref);
        assert(blocks[k] == b);
        assert(within(blocks, i, gone.len() as int));
    }
    assert(has(shown, gone, o, true) <==> left(s, at, gone, o, true));
    assert(has(shown, new, o, true) <==> left(s, at, new, o, true) || given(s, at, o, true));
    if left(s, at, gone, o, true) {
        let i = choose|i: int| #[trigger]
            occurs_at(s, gone, i) && !at.contains(i) && within_number(s, i, o, true);
        assert(at.contains(i));
    }
    if given(s, at, o, true) {
        let k = choose|k: int| 0 <= k < at.len() && within_number(s, #[trigger] at[k], o, true);
        assert(occurs_at(s, gone, at[k]));
        assert(has(s, gone, o, true));
    }
    if left(s, at, new, o, true) {
        let i = choose|i: int| #[trigger]
            occurs_at(s, new, i) && !at.contains(i) && within_number(s, i, o, true);
        assert(has(s, new, o, true));
    }
    if has(s, new, o, true) {
        let i = choose|i: int| #[trigger] occurs_at(s, new, i) && within_number(s, i, o, true);
        if at.contains(i) {
            let k = choose|k: int| 0 <= k < at.len() && at[k] == i;
            assert(within_number(s, at[k], o, true));
        }
    }
    if has(s, gone, o, true) {
        let i = choose|i: int| #[trigger] occurs_at(s, gone, i) && within_number(s, i, o, true);
        let k = choose|k: int| 0 <= k < at.len() && at[k] == i;
        assert(within_number(s, at[k], o, true));
    }
}

/// Renaming the instances path changes the designator of no unit.
proof fn lemma_path_keeps_units(s: Seq<u8>, old_ref: Seq<char>, new_ref: Seq<char>, r: Seq<char>, o: int)
    requires
        unmarked(old_ref),
        unmarked(new_ref),
        unmarked(r),
    ensures
        unit_number(edited(s, rename_edits(s, old_ref, new_ref)), r, o) <==> unit_number(s, r, o),
{
    let blocks = instance_blocks(s, new_ref);
    let gone = utf8(path_reference(old_ref));
    let new = utf8(path_reference(new_ref));
    let at = renamed_at(s, blocks, gone);
    let p = utf8(reference_property(r));
    let t = edited(s, rename_edits(s, old_ref, new_ref));
    lemma_path_exchange(old_ref, new_ref);
    lemma_path_exchange(new_ref, old_ref);
    lemma_property_exchange(r, r);
    lemma_property_parts(r);
    lemma_renamed_at(s, blocks, gone, new);
    assert(p[1] == 0x70);
    assert(differ(p, new));
    lemma_entries(s, at, gone, new, p, true);
    lemma_unit_numbers(t, r, o);
    lemma_unit_numbers(s, r, o);
    assert(has(t, p, o, true) <==> left(s, at, p, o, true));
    if has(s, p, o, true) {
        let i = choose|i: int| #[trigger] occurs_at(s, p, i) && within_number(s, i, o, true);
        assert(!at.contains(i)) by {
            if at.contains(i) {
                let k = choose|k: int| 0 <= k < at.len() && at[k] == i;
                assert(occurs_at(s, gone, at[k]));
                assert(s.subrange(i, i + p.len())[1] == s[i + 1]);
                assert(s.subrange(i, i + gone.len())[1] == s[i + 1]);
            }
        }
        assert(left(s, at, p, o, true));
    }
}

/// After a rename no unit bears the old designator.
pub proof fn law_rename_leaves_no_unit(s: Seq<u8>, old_ref: Seq<char>, new_ref: Seq<char>)
    requires
        unmarked(old_ref),
        unmarked(new_ref),
        old_ref != new_ref,
        renamed(s, old_ref, new_ref) is Some,
        named_once(s, old_ref),
    ensures
        instance_blocks(renamed(s, old_ref, new_ref)->0, old_ref).len() == 0,
{
    let shown = designator_renamed(s, old_ref, new_ref)->Ok_0;
    let t = renamed(s, old_ref, new_ref)->0;
    lemma_numbers(t, old_ref);
    if instance_blocks(t, old_ref).len() > 0 {
        let o = number(t, instance_blocks(t, old_ref)[0].0);
        assert(unit_number(t, old_ref, o));
        lemma_shown(s, old_ref, new_ref, o);
        lemma_path_keeps_units(shown, old_ref, new_ref, old_ref, o);
    }
}

/// After a rename every unit that bore the old designator bears the new one,
/// beside those that bore the new one before, provided that none bore both.
pub proof fn law_rename_reaches_every_unit(s: Seq<u8>, old_ref: Seq<char>, new_ref: Seq<char>)
    requires
        unmarked(old_ref),
        unmarked(new_ref),
        old_ref != new_ref,
        renamed(s, old_ref, new_ref) is Some,
        named_once(s, old_ref),
        forall|i: int, j: int|
            0 <= i < instance_blocks(s, old_ref).len() && 0 <= j < instance_blocks(
                s,
                new_ref,
            ).len() ==> #[trigger] instance_blocks(s, old_ref)[i]
                != #[trigger] instance_blocks(s, new_ref)[j],
    ensures
        ({
            let t = renamed(s, old_ref, new_ref)->0;
            &&& instance_blocks(t, old_ref).len() == 0
            &&& instance_blocks(t, new_ref).len() == instance_blocks(s, old_ref).len()
                + instance_blocks(s, new_ref).len()
        }),
{
    let shown = designator_renamed(s, old_ref, new_ref)->Ok_0;
    let t = renamed(s, old_ref, new_ref)->0;
    let olds = numbers(s, old_ref).to_set();
    let news = numbers(s, new_ref).to_set();
    lemma_numbers(s, old_ref);
    lemma_numbers(s, new_ref);
    lemma_numbers(t, old_ref);
    lemma_numbers(t, new_ref);
    assert forall|o: int| !unit_number(t, old_ref, o) && (#[trigger] unit_number(t, new_ref, o)
        <==> olds.contains(o) || news.contains(o)) by {
        lemma_shown(s, old_ref, new_ref, o);
        lemma_path_keeps_units(shown, old_ref, new_ref, old_ref, o);
        lemma_path_keeps_units(shown, old_ref, new_ref, new_ref, o);
    }
    law_rename_leaves_no_unit(s, old_ref, new_ref);
    assert(numbers(t, new_ref).to_set() =~= olds + news) by {
        assert forall|o: int| numbers(t, new_ref).to_set().contains(o) <==> (olds + news).contains(
            o,
        ) by {
            assert(unit_number(t, new_ref, o) <==> olds.contains(o) || news.contains(o));
        }
    }
    assert(olds.disjoint(news)) by {
        assert forall|o: int| olds.contains(o) && news.contains(o) implies false by {
            law_instance_blocks_sound(s, old_ref);
            law_instance_blocks_sound(s, new_ref);
            let i = choose|i: int|
                0 <= i < instance_blocks(s, old_ref).len() && number(
                    s,
                    (#[trigger] instance_blocks(s, old_ref)[i]).0,
                ) == o;
            let j = choose|j: int|
                0 <= j < instance_blocks(s, new_ref).len() && number(
                    s,
                    (#[trigger] instance_blocks(s, new_ref)[j]).0,
                ) == o;
            let a = instance_blocks(s, old_ref)[i];
            let c = instance_blocks(s, new_ref)[j];
            lemma_same_number(s, a.0, c.0);
            assert(a == c);
        }
    }
    vstd::set_lib::lemma_set_disjoint_lens(olds, news);
}

/// Changing the designators that are drawn makes no difference to the units of
/// a third component.
proof fn lemma_shown_others(
    s: Seq<u8>,
    old_ref: Seq<char>,
    new_ref: Seq<char>,
    r: Seq<char>,
    o: int,
)
    requires
        unmarked(old_ref),
        unmarked(new_ref),
        unmarked(r),
        r != old_ref,
        r != new_ref,
        designator_renamed(s, old_ref, new_ref) is Ok,
        named_once(s, old_ref),
    ensures
        unit_number(designator_renamed(s, old_ref, new_ref)->Ok_0, r, o) <==> unit_number(s, r, o),
{
    let blocks = instance_blocks(s, old_ref);
    let head = utf8("(property \"Reference\" \""@);
    let gone = utf8(reference_property(old_ref));
    let new = utf8(reference_property(new_ref));
    let p = utf8(reference_property(r));
    let at = renamed_at(s, blocks, gone);
    let shown = designator_renamed(s, old_ref, new_ref)->Ok_0;
    lemma_designator_entries(s, old_ref, new_ref);
    lemma_property_exchange(old_ref, new_ref);
    lemma_property_exchange(new_ref, old_ref);
    lemma_property_exchange(r, r);
    lemma_renamed_at(s, blocks, gone, new);
    lemma_property_parts(old_ref);
    lemma_property_parts(new_ref);
    lemma_property_parts(r);
    lemma_differ(head, r, new_ref, seq![0x22u8]);
    lemma_differ(head, r, old_ref, seq![0x22u8]);
    lemma_entries(s, at, gone, new, p, true);
    lemma_unit_numbers(shown, r, o);
    lemma_unit_numbers(s, r, o);
    assert(has(shown, p, o, true) <==> left(s, at, p, o, true));
    if has(s, p, o, true) {
        let i = choose|i: int| #[trigger] occurs_at(s, p, i) && within_number(s, i, o, true);
        assert(!at.contains(i)) by {
            if at.contains(i) {
                let k = choose|k: int| 0 <= k < at.len() && at[k] == i;
                assert(occurs_at(s, gone, at[k]));
                let d = choose|d: int|
                    0 <= d < p.len() && d < gone.len() && #[trigger] p[d] != gone[d];
                assert(s.subrange(i, i + p.len())[d] == s[i + d]);
                assert(s.subrange(i, i + gone.len())[d] == s[i + d]);
            }
        }
        assert(left(s, at, p, o, true));
    }
    if left(s, at, p, o, true) {
        let i = choose|i: int| #[trigger]
            occurs_at(s, p, i) && !at.contains(i) && within_number(s, i, o, true);
        assert(has(s, p, o, true));
    }
}

/// A rename gives a third component no unit and takes none from it.
pub proof fn law_rename_leaves_the_others(
    s: Seq<u8>,
    old_ref: Seq<char>,
    new_ref: Seq<char>,
    r: Seq<char>,
)
    requires
        unmarked(old_ref),
        unmarked(new_ref),
        unmarked(r),
        r != old_ref,
        r != new_ref,
        renamed(s, old_ref, new_ref) is Some,
        named_once(s, old_ref),
    ensures
        instance_blocks(renamed(s, old_ref, new_ref)->0, r).len() == instance_blocks(s, r).len(),
{
    let shown = designator_renamed(s, old_ref, new_ref)->Ok_0;
    let t = renamed(s, old_ref, new_ref)->0;
    lemma_numbers(s, r);
    lemma_numbers(t, r);
    assert forall|o: int| #[trigger] unit_number(t, r, o) <==> unit_number(s, r, o) by {
        lemma_shown_others(s, old_ref, new_ref, r, o);
        lemma_path_keeps_units(shown, old_ref, new_ref, r, o);
    }
    assert(numbers(t, r).to_set() =~= numbers(s, r).to_set()) by {
        assert forall|o: int| numbers(t, r).to_set().contains(o) <==> numbers(
            s,
            r,
        ).to_set().contains(o) by {
            assert(unit_number(t, r, o) <==> unit_number(s, r, o));
        }
    }
}

/// After a rename no unit of the component keeps the old designator in its
/// instances path.
pub proof fn law_rename_reaches_every_path(
    s: Seq<u8>,
    old_ref: Seq<char>,
    new_ref: Seq<char>,
    k: int,
)
    requires
        unmarked(old_ref),
        unmarked(new_ref),
        old_ref != new_ref,
        renamed(s, old_ref, new_ref) is Some,
        named_once(s, old_ref),
        0 <= k < instance_blocks(renamed(s, old_ref, new_ref)->0, new_ref).len(),
    ensures
        ({
            let t = renamed(s, old_ref, new_ref)->0;
            let b = instance_blocks(t, new_ref)[k];
            !occurs(t.subrange(b.0, b.1), utf8(path_reference(old_ref)))
        }),
{
    let shown = designator_renamed(s, old_ref, new_ref)->Ok_0;
    let t = renamed(s, old_ref, new_ref)->0;
    let c = instance_blocks(t, new_ref)[k];
    let o = number(t, c.0);
    let blocks = instance_blocks(shown, new_ref);
    let gone = utf8(path_reference(old_ref));
    let new = utf8(path_reference(new_ref));
    let at = renamed_at(shown, blocks, gone);
    law_instance_blocks_sound(t, new_ref);
    law_instance_blocks_sound(shown, new_ref);
    lemma_block_end(t, c.0);
    lemma_stands(t, c, gone);
    lemma_path_exchange(old_ref, new_ref);
    lemma_path_exchange(new_ref, old_ref);
    lemma_path_parts(old_ref);
    lemma_path_parts(new_ref);
    lemma_differ(utf8("(reference \""@), old_ref, new_ref, seq![0x22u8, 0x29]);
    lemma_renamed_at(shown, blocks, gone, new);
    lemma_entries(shown, at, gone, new, gone, false);
    if occurs(t.subrange(c.0, c.1), gone) {
        let j = choose|j: int| stands_in(t, c, gone, j);
        assert(stands_around(t, j, c, false));
        assert(within_number(t, j, o, false));
        assert(occurs_at(t, gone, j));
        assert(has(t, gone, o, false));
        assert(left(shown, at, gone, o, false));
        let i = choose|i: int| #[trigger]
            occurs_at(shown, gone, i) && !at.contains(i) && within_number(shown, i, o, false);
        let b = choose|b: (int, int)| #[trigger]
            stands_around(shown, i, b, false) && number(shown, b.0) == o;
        assert(unit_number(t, new_ref, o));
        lemma_path_keeps_units(shown, old_ref, new_ref, new_ref, o);
        let m = choose|m: int| 0 <= m < blocks.len() && number(shown, (#[trigger] blocks[m]).0)
            == o;
        lemma_same_number(shown, blocks[m].0, b.0);
        assert(blocks[m] == b);
        lemma_entry_within(shown, b, gone, i);
        assert(within(blocks, i, gone.len() as int));
    }
}

/// What a unit holds, its number holds, and the other way round.
proof fn lemma_unit_has(s: Seq<u8>, reference: Seq<char>, k: int, p: Seq<u8>)
    requires
        0 <= k < instance_blocks(s, reference).len(),
        p.len() > 0,
        forall|m: int| 0 <= m < p.len() - 1 ==> #[trigger] p[m] != 0x29,
    ensures
        ({
            let b = instance_blocks(s, reference)[k];
            occurs(s.subrange(b.0, b.1), p) <==> has(s, p, number(s, b.0), false)
        }),
{
    let b = instance_blocks(s, reference)[k];
    let o = number(s, b.0);
    law_instance_blocks_sound(s, reference);
    lemma_block_end(s, b.0);
    lemma_stands(s, b, p);
    if occurs(s.subrange(b.0, b.1), p) {
        let i = choose|i: int| stands_in(s, b, p, i);
        assert(stands_around(s, i, b, false));
        assert(within_number(s, i, o, false));
        assert(occurs_at(s, p, i));
    }
    if has(s, p, o, false) {
        let i = choose|i: int| #[trigger] occurs_at(s, p, i) && within_number(s, i, o, false);
        let c = choose|c: (int, int)| #[trigger]
            stands_around(s, i, c, false) && number(s, c.0) == o;
        lemma_same_number(s, b.0, c.0);
        lemma_entry_within(s, b, p, i);
        assert(stands_in(s, b, p, i));
    }
}

/// Changing the designators that are drawn keeps the instances path.
proof fn lemma_shown_path(s: Seq<u8>, old_ref: Seq<char>, new_ref: Seq<char>, r: Seq<char>, o: int)
    requires
        unmarked(old_ref),
        unmarked(new_ref),
        unmarked(r),
        designator_renamed(s, old_ref, new_ref) is Ok,
        named_once(s, old_ref),
        has(s, utf8(path_reference(r)), o, false),
    ensures
        has(designator_renamed(s, old_ref, new_ref)->Ok_0, utf8(path_reference(r)), o, false),
{
    let blocks = instance_blocks(s, old_ref);
    let gone = utf8(reference_property(old_ref));
    let new = utf8(reference_property(new_ref));
    let at = renamed_at(s, blocks, gone);
    let p = utf8(path_reference(r));
    lemma_designator_entries(s, old_ref, new_ref);
    lemma_property_exchange(old_ref, new_ref);
    lemma_property_exchange(new_ref, old_ref);
    lemma_property_parts(old_ref);
    lemma_property_parts(new_ref);
    lemma_path_exchange(r, r);
    lemma_renamed_at(s, blocks, gone, new);
    assert(new[1] == 0x70);
    assert(gone[1] == 0x70);
    assert(differ(p, new)) by {
        assert(p[1] != new[1]);
    }
    lemma_entries(s, at, gone, new, p, false);
    let i = choose|i: int| #[trigger] occurs_at(s, p, i) && within_number(s, i, o, false);
    assert(!at.contains(i)) by {
        if at.contains(i) {
            let k = choose|k: int| 0 <= k < at.len() && at[k] == i;
            assert(occurs_at(s, gone, at[k]));
            assert(s.subrange(i, i + p.len())[1] == s[i + 1]);
            assert(s.subrange(i, i + gone.len())[1] == s[i + 1]);
        }
    }
    assert(left(s, at, p, o, false));
}

/// Where every unit had its designator in its instances path, every unit has
/// it there after a rename.
pub proof fn law_rename_keeps_every_path(
    s: Seq<u8>,
    old_ref: Seq<char>,
    new_ref: Seq<char>,
    k: int,
)
    requires
        unmarked(old_ref),
        unmarked(new_ref),
        old_ref != new_ref,
        renamed(s, old_ref, new_ref) is Some,
        named_once(s, old_ref),
        forall|i: int|
            0 <= i < instance_blocks(s, old_ref).len() ==> {
                let b = #[trigger] instance_blocks(s, old_ref)[i];
                occurs(s.subrange(b.0, b.1), utf8(path_reference(old_ref)))
            },
        forall|i: int|
            0 <= i < instance_blocks(s, new_ref).len() ==> {
                let b = #[trigger] instance_blocks(s, new_ref)[i];
                occurs(s.subrange(b.0, b.1), utf8(path_reference(new_ref)))
            },
        0 <= k < instance_blocks(renamed(s, old_ref, new_ref)->0, new_ref).len(),
    ensures
        ({
            let t = renamed(s, old_ref, new_ref)->0;
            let b = instance_blocks(t, new_ref)[k];
            occurs(t.subrange(b.0, b.1), utf8(path_reference(new_ref)))
        }),
{
    let shown = designator_renamed(s, old_ref, new_ref)->Ok_0;
    let t = renamed(s, old_ref, new_ref)->0;
    let c = instance_blocks(t, new_ref)[k];
    let o = number(t, c.0);
    let blocks = instance_blocks(shown, new_ref);
    let gone = utf8(path_reference(old_ref));
    let new = utf8(path_reference(new_ref));
    let at = renamed_at(shown, blocks, gone);
    lemma_path_exchange(old_ref, new_ref);
    lemma_path_exchange(new_ref, old_ref);
    lemma_path_parts(old_ref);
    lemma_path_parts(new_ref);
    lemma_differ(utf8("(reference \""@), new_ref, old_ref, seq![0x22u8, 0x29]);
    lemma_renamed_at(shown, blocks, gone, new);
    lemma_entries(shown, at, gone, new, new, false);
    assert(unit_number(t, new_ref, o));
    lemma_path_keeps_units(shown, old_ref, new_ref, new_ref, o);
    lemma_shown(s, old_ref, new_ref, o);
    assert(has(t, new, o, false)) by {
        if unit_number(s, old_ref, o) {
            let i = choose|i: int|
                0 <= i < instance_blocks(s, old_ref).len() && number(
                    s,
                    (#[trigger] instance_blocks(s, old_ref)[i]).0,
                ) == o;
            lemma_unit_has(s, old_ref, i, gone);
            lemma_shown_path(s, old_ref, new_ref, old_ref, o);
            let j = choose|j: int| #[trigger]
                occurs_at(shown, gone, j) && within_number(shown, j, o, false);
            let b = choose|b: (int, int)| #[trigger]
                stands_around(shown, j, b, false) && number(shown, b.0) == o;
            let m = choose|m: int| 0 <= m < blocks.len() && number(shown, (#[trigger] blocks[m]).0)
                == o;
            law_instance_blocks_sound(shown, new_ref);
            lemma_same_number(shown, blocks[m].0, b.0);
            lemma_entry_within(shown, b, gone, j);
            assert(within(blocks, j, gone.len() as int));
            let x = choose|x: int| 0 <= x < at.len() && at[x] == j;
            assert(within_number(shown, at[x], o, false));
            assert(given(shown, at, o, false));
        } else {
            let i = choose|i: int|
                0 <= i < instance_blocks(s, new_ref).len() && number(
                    s,
                    (#[trigger] instance_blocks(s, new_ref)[i]).0,
                ) == o;
            lemma_unit_has(s, new_ref, i, new);
            lemma_shown_path(s, old_ref, new_ref, new_ref, o);
            let j = choose|j: int| #[trigger]
                occurs_at(shown, new, j) && within_number(shown, j, o, false);
            assert(!at.contains(j)) by {
                if at.contains(j) {
                    let x = choose|x: int| 0 <= x < at.len() && at[x] == j;
                    assert(occurs_at(shown, gone, at[x]));
                    let d = choose|d: int|
                        0 <= d < new.len() && d < gone.len() && #[trigger] new[d] != gone[d];
                    assert(shown.subrange(j, j + new.len())[d] == shown[j + d]);
                    assert(shown.subrange(j, j + gone.len())[d] == shown[j + d]);
                }
            }
            assert(left(shown, at, new, o, false));
        }
    }
    lemma_unit_has(t, new_ref, k, new);
}

/// A rename succeeds where every unit names its designator in its instances
/// path.
pub proof fn law_rename_succeeds(s: Seq<u8>, old_ref: Seq<char>, new_ref: Seq<char>)
    requires
        unmarked(old_ref),
        unmarked(new_ref),
        old_ref != new_ref,
        named_once(s, old_ref),
        instance_blocks(s, old_ref).len() > 0,
        forall|i: int|
            0 <= i < instance_blocks(s, old_ref).len() ==> {
                let b = #[trigger] instance_blocks(s, old_ref)[i];
                occurs(s.subrange(b.0, b.1), utf8(path_reference(old_ref)))
            },
    ensures
        renamed(s, old_ref, new_ref) is Some,
{
    let first = instance_blocks(s, old_ref)[0];
    let o = number(s, first.0);
    let gone = utf8(path_reference(old_ref));
    let new = utf8(path_reference(new_ref));
    lemma_designator_entries(s, old_ref, new_ref);
    let shown = designator_renamed(s, old_ref, new_ref)->Ok_0;
    let blocks = instance_blocks(shown, new_ref);
    let at = renamed_at(shown, blocks, gone);
    lemma_path_exchange(old_ref, new_ref);
    lemma_path_exchange(new_ref, old_ref);
    lemma_path_parts(old_ref);
    assert(unit_number(s, old_ref, o));
    lemma_shown(s, old_ref, new_ref, o);
    lemma_unit_has(s, old_ref, 0, gone);
    lemma_shown_path(s, old_ref, new_ref, old_ref, o);
    let j = choose|j: int| #[trigger]
        occurs_at(shown, gone, j) && within_number(shown, j, o, false);
    let b = choose|b: (int, int)| #[trigger]
        stands_around(shown, j, b, false) && number(shown, b.0) == o;
    let m = choose|m: int| 0 <= m < blocks.len() && number(shown, (#[trigger] blocks[m]).0) == o;
    law_instance_blocks_sound(shown, new_ref);
    lemma_same_number(shown, blocks[m].0, b.0);
    lemma_entry_within(shown, b, gone, j);
    assert(within(blocks, j, gone.len() as int));
    lemma_renamed_at(shown, blocks, gone, new);
    assert(at.contains(j));
    assert(rename_edits(shown, old_ref, new_ref).len() > 0);
}

} // verus!
