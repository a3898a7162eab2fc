//! One part of a text exchanged for another that is read alike, and what that
//! keeps of the symbols around it.

use vstd::prelude::*;
use crate::alike::{lemma_blanks, lemma_block_reads, lemma_root};
use crate::node::{is_blank, parsed, past_blanks};
use crate::quote::{escaped, escaped_char};
use crate::scan::{
    block_end, enclosing_below, enclosing_block, is_block_start, is_delimiter, lemma_block_end,
    lemma_close_shift, lemma_closed_by, lemma_lex_compose, lemma_lex_same, lemma_unquoted, lex,
    lex_step, Lex,
};
use crate::symbols::{
    has_start, instance_blocks, is_placed, lemma_enclosing, placed_around, reference_property,
};
use crate::text::{
    hits, lemma_byte_absent, lemma_char_bytes, lemma_hits, lemma_hits_complete, lemma_occurs,
    lemma_one_byte, lemma_utf8_add, occurs, occurs_at, spliced, utf8,
};

verus! {

// ── Reading a text that is put in ────────────────────────────────────────────

/// The reader's state after the first `k` bytes of `n`, from `st` on.
pub open spec fn run(st: Lex, n: Seq<u8>, k: int) -> Lex
    decreases k,
{
    if k <= 0 {
        st
    } else {
        lex_step(run(st, n, k - 1), n[k - 1])
    }
}

/// The least depth over the first `k` bytes of `n`, from `st` on.
pub open spec fn low(st: Lex, n: Seq<u8>, k: int) -> int
    decreases k,
{
    if k <= 0 {
        st.depth
    } else if run(st, n, k).depth < low(st, n, k - 1) {
        run(st, n, k).depth
    } else {
        low(st, n, k - 1)
    }
}

/// Reading `n` leads from one state to another, and never below a depth.
pub open spec fn leads(st: Lex, n: Seq<u8>, to: Lex, floor: int) -> bool {
    &&& run(st, n, n.len() as int) == to
    &&& low(st, n, n.len() as int) >= floor
}

/// The state outside strings at a depth.
pub open spec fn outside(depth: int) -> Lex {
    Lex { depth, quoted: false, escaped: false }
}

/// The state inside a string at a depth.
pub open spec fn inside(depth: int) -> Lex {
    Lex { depth, quoted: true, escaped: false }
}

pub proof fn lemma_low(st: Lex, n: Seq<u8>, k: int, j: int)
    requires
        0 <= j <= k,
    ensures
        run(st, n, j).depth >= low(st, n, k),
    decreases k,
{
    if j < k {
        lemma_low(st, n, k - 1, j);
    }
}

pub proof fn lemma_run_lex(t: Seq<u8>, a: int, i: int, n: Seq<u8>, k: int)
    requires
        a <= i,
        occurs_at(t, n, i),
        0 <= k <= n.len(),
    ensures
        lex(t, a, i + k) == run(lex(t, a, i), n, k),
    decreases k,
{
    if k > 0 {
        lemma_run_lex(t, a, i, n, k - 1);
        assert(t.subrange(i, i + n.len())[k - 1] == t[i + k - 1]);
    }
}

pub proof fn lemma_run_first(st: Lex, x: Seq<u8>, y: Seq<u8>, k: int)
    requires
        k <= x.len(),
    ensures
        run(st, x + y, k) == run(st, x, k),
        low(st, x + y, k) == low(st, x, k),
    decreases k,
{
    if k > 0 {
        lemma_run_first(st, x, y, k - 1);
        assert((x + y)[k - 1] == x[k - 1]);
    }
}

pub proof fn lemma_run_second(st: Lex, mid: Lex, x: Seq<u8>, y: Seq<u8>, floor: int, k: int)
    requires
        leads(st, x, mid, floor),
        0 <= k <= y.len(),
        low(mid, y, k) >= floor,
    ensures
        run(st, x + y, x.len() + k) == run(mid, y, k),
        low(st, x + y, x.len() + k) >= floor,
    decreases k,
{
    if k == 0 {
        lemma_run_first(st, x, y, x.len() as int);
    } else {
        lemma_low(mid, y, k, k);
        assert(low(mid, y, k - 1) >= low(mid, y, k));
        lemma_run_second(st, mid, x, y, floor, k - 1);
        assert((x + y)[x.len() + k - 1] == y[k - 1]);
    }
}

/// Two texts, read one behind the other.
pub proof fn lemma_joined(st: Lex, mid: Lex, to: Lex, a: Seq<char>, b: Seq<char>, floor: int)
    requires
        leads(st, utf8(a), mid, floor),
        leads(mid, utf8(b), to, floor),
    ensures
        leads(st, utf8(a + b), to, floor),
{
    lemma_utf8_add(a, b);
    lemma_run_second(st, mid, utf8(a), utf8(b), floor, utf8(b).len() as int);
}

/// A text without marks: no quote, no backslash, no parenthesis.
pub open spec fn unmarked(s: Seq<char>) -> bool {
    !s.contains('"') && !s.contains('\\') && !s.contains('(') && !s.contains(')')
}

pub proof fn lemma_quiet(st: Lex, n: Seq<u8>, k: int)
    requires
        !st.escaped,
        0 <= k <= n.len(),
        forall|i: int| 0 <= i < n.len() ==> #[trigger] n[i] != 0x22 && n[i] != 0x5c,
        st.quoted || forall|i: int| 0 <= i < n.len() ==> #[trigger] n[i] != 0x28 && n[i] != 0x29,
    ensures
        run(st, n, k) == st,
        low(st, n, k) == st.depth,
    decreases k,
{
    if k > 0 {
        lemma_quiet(st, n, k - 1);
        assert(n[k - 1] != 0x22);
    }
}

pub proof fn lemma_unmarked(depth: int, s: Seq<char>)
    requires
        unmarked(s),
    ensures
        leads(outside(depth), utf8(s), outside(depth), depth),
{
    lemma_byte_absent(s, '"');
    lemma_byte_absent(s, '\\');
    lemma_byte_absent(s, '(');
    lemma_byte_absent(s, ')');
    lemma_quiet(outside(depth), utf8(s), utf8(s).len() as int);
}

pub proof fn lemma_named(depth: int, s: Seq<char>)
    requires
        !s.contains('"'),
        !s.contains('\\'),
    ensures
        leads(inside(depth), utf8(s), inside(depth), depth),
{
    lemma_byte_absent(s, '"');
    lemma_byte_absent(s, '\\');
    lemma_quiet(inside(depth), utf8(s), utf8(s).len() as int);
}

/// An escaped value stays inside its string.
pub proof fn lemma_escaped(depth: int, value: Seq<char>)
    ensures
        leads(inside(depth), utf8(escaped(value, false)), inside(depth), depth),
    decreases value.len(),
{
    if value.len() == 0 {
        assert(escaped(value, false) =~= Seq::<char>::empty());
        assert(utf8(escaped(value, false)) =~= Seq::<u8>::empty());
    } else {
        let c = value.last();
        let e = escaped_char(c, false);
        lemma_escaped(depth, value.drop_last());
        lemma_char_bytes(c);
        lemma_one_byte(seq!['\\']);
        lemma_one_byte(seq!['"']);
        reveal_with_fuel(run, 3);
        reveal_with_fuel(low, 3);
        if c == '\\' {
            lemma_utf8_add(seq!['\\'], seq!['\\']);
            assert(e =~= seq!['\\'] + seq!['\\']);
            assert(utf8(e) =~= seq![0x5cu8, 0x5c]);
        } else if c == '"' {
            lemma_utf8_add(seq!['\\'], seq!['"']);
            assert(e =~= seq!['\\'] + seq!['"']);
            assert(utf8(e) =~= seq![0x5cu8, 0x22]);
        } else {
            assert(!seq![c].contains('"'));
            assert(!seq![c].contains('\\'));
            lemma_named(depth, seq![c]);
        }
        assert(leads(inside(depth), utf8(e), inside(depth), depth));
        lemma_joined(
            inside(depth),
            inside(depth),
            inside(depth),
            escaped(value.drop_last(), false),
            e,
            depth,
        );
    }
}


// ── The exchange ─────────────────────────────────────────────────────────────

/// A byte with which a part of a text may begin that is exchanged.
pub open spec fn edge(b: u8) -> bool {
    b == 0x28 || b == 0x29 || b == 0x0a || b == 0x20
}

/// A search text: it opens a list and holds no parenthesis behind that. It is
/// all on one line, or ends in a quote.
pub open spec fn clean(p: Seq<u8>) -> bool {
    &&& p.len() > 1
    &&& p[0] == 0x28
    &&& forall|k: int| 0 < k < p.len() ==> #[trigger] p[k] != 0x28 && p[k] != 0x29
    &&& p.last() == 0x22 || forall|k: int| 0 < k < p.len() ==> #[trigger] p[k] != 0x0a
}

/// A text comes to a parenthesis before it comes to a quote.
pub open spec fn steps_in(n: Seq<u8>) -> bool {
    exists|q: int| #[trigger] opens_at(n, q)
}

/// The parenthesis at `q` has no quote before it.
pub open spec fn opens_at(n: Seq<u8>, q: int) -> bool {
    &&& 0 <= q < n.len()
    &&& n[q] == 0x28 || n[q] == 0x29
    &&& forall|k: int| 0 <= k < q ==> #[trigger] n[k] != 0x22
}

/// A text that opens one list.
pub open spec fn solo(p: Seq<u8>) -> bool {
    &&& p.len() > 1
    &&& p[0] == 0x28
    &&& forall|k: int| 0 < k < p.len() ==> #[trigger] p[k] != 0x28
}

/// A search text does not go on over the byte `b`, nor over the beginning of `n`.
pub open spec fn stops(p: Seq<u8>, b: u8, n: Seq<u8>) -> bool {
    &&& forall|k: int| 0 < k < p.len() ==> #[trigger] p[k] != b
    &&& (clean(p) && p.last() == 0x22 && steps_in(n)) || forall|k: int|
        0 < k < p.len() ==> #[trigger] p[k] != n[0]
}

/// A search text stops at what may be exchanged.
pub proof fn lemma_stops(p: Seq<u8>, b: u8, n: Seq<u8>)
    requires
        clean(p),
        b == 0x28 || b == 0x29,
        edge(n[0]),
        n[0] != 0x20 || p.last() == 0x22 || p == symbol_head(),
        n.len() > 0,
        steps_in(n),
    ensures
        stops(p, b, n),
{
    if p == symbol_head() {
        lemma_head_texts();
    }
}

/// The offset stands behind a line that a list closes.
pub open spec fn behind_close(s: Seq<u8>, h: int) -> bool {
    h >= 2 && s[h - 2] == 0x29 && s[h - 1] == 0x0a
}

/// A text that begins with `n` may be put in at `h`: no search text goes on
/// over the place, as it was and as it is.
pub open spec fn seam(s: Seq<u8>, h: int, n: Seq<u8>) -> bool {
    ||| behind_close(s, h)
    ||| {
        &&& s[h] == 0x28 || s[h] == 0x29
        &&& edge(n[0])
        &&& steps_in(n)
        &&& n[0] == 0x20 ==> !occurs_at(s, utf8("(lib_id"@), h - 7)
    }
}

/// A search text that begins before `h` ends there at the latest.
pub open spec fn parted(s: Seq<u8>, h: int, n: Seq<u8>, p: Seq<u8>) -> bool {
    ||| stops(p, s[h], n)
    ||| behind_close(s, h) && clean(p)
    ||| {
        &&& p == lib_head()
        &&& s[h] == 0x28 || s[h] == 0x29
        &&& n[0] == 0x20
        &&& !occurs_at(s, utf8("(lib_id"@), h - 7)
    }
}

pub proof fn lemma_parted(s: Seq<u8>, h: int, n: Seq<u8>, p: Seq<u8>)
    requires
        seam(s, h, n),
        clean(p),
        n.len() > 0,
        n[0] != 0x20 || p.last() == 0x22 || p == symbol_head() || p == lib_head(),
    ensures
        parted(s, h, n, p),
{
    if !behind_close(s, h) && (n[0] != 0x20 || p != lib_head()) {
        lemma_stops(p, s[h], n);
    }
}

/// The head of a symbol.
pub open spec fn symbol_head() -> Seq<u8> {
    utf8("(symbol"@)
}

/// The head of the list by which a placed symbol names its definition.
pub open spec fn lib_head() -> Seq<u8> {
    utf8("(lib_id "@)
}

pub proof fn lemma_head_texts()
    ensures
        symbol_head() == seq![0x28u8, 0x73, 0x79, 0x6d, 0x62, 0x6f, 0x6c],
        utf8("symbol"@) == seq![0x73u8, 0x79, 0x6d, 0x62, 0x6f, 0x6c],
        lib_head() == seq![0x28u8, 0x6c, 0x69, 0x62, 0x5f, 0x69, 0x64, 0x20],
        clean(symbol_head()),
        clean(lib_head()),
{
    reveal_strlit("(symbol");
    reveal_strlit("symbol");
    reveal_strlit("(lib_id ");
    vstd::utf8::is_ascii_chars_encode_utf8("(symbol"@);
    vstd::utf8::is_ascii_chars_encode_utf8("symbol"@);
    vstd::utf8::is_ascii_chars_encode_utf8("(lib_id "@);
    assert(symbol_head() =~= seq![0x28u8, 0x73, 0x79, 0x6d, 0x62, 0x6f, 0x6c]);
    assert(utf8("symbol"@) =~= seq![0x73u8, 0x79, 0x6d, 0x62, 0x6f, 0x6c]);
    assert(lib_head() =~= seq![0x28u8, 0x6c, 0x69, 0x62, 0x5f, 0x69, 0x64, 0x20]);
}

/// No occurrence of a search text begins from `i` up to `j`.
pub open spec fn free(s: Seq<u8>, p: Seq<u8>, i: int, j: int) -> bool {
    forall|k: int| i <= k < j ==> !occurs_at(s, p, k)
}

/// Every symbol that opens from `i` up to `z` is closed there.
pub open spec fn closed_starts(t: Seq<u8>, i: int, z: int) -> bool {
    forall|k: int|
        i <= k < z && #[trigger] is_block_start(t, utf8("symbol"@), k) ==> closed_to(t, k, z)
}

/// The list at `k` does not go on behind `z`.
pub open spec fn closed_to(t: Seq<u8>, k: int, z: int) -> bool {
    block_end(t, k) matches Some(x) ==> x <= z
}

/// The bytes from `h` to `e` may be exchanged for `n`: both are read alike,
/// and neither closes what was open before. Neither holds the head of a
/// symbol, but for whole symbols that are put in, nor the head of a library's
/// name, unless both begin with it.
pub open spec fn graftable(s: Seq<u8>, h: int, e: int, n: Seq<u8>) -> bool {
    &&& 0 <= h <= e <= s.len()
    &&& h < s.len()
    &&& n.len() > 0
    &&& seam(s, h, n)
    &&& run(lex(s, 0, h), n, n.len() as int) == lex(s, 0, e)
    &&& low(lex(s, 0, h), n, n.len() as int) >= lex(s, 0, h).depth
    &&& forall|i: int| h <= i <= e ==> (#[trigger] lex(s, 0, i)).depth >= lex(s, 0, h).depth
    &&& free(s, symbol_head(), h, e)
    &&& free(spliced(s, h, e, n), symbol_head(), h, h + n.len()) || (h == e && closed_starts(
        spliced(s, h, e, n),
        h,
        h + n.len(),
    ))
    &&& (free(s, lib_head(), h, e) && free(spliced(s, h, e, n), lib_head(), h, h + n.len())) || (
    occurs_at(s, lib_head(), h) && h + 8 <= e && occurs_at(spliced(s, h, e, n), lib_head(), h) && 8
        <= n.len())
}

/// Where what began at `i` begins once the text has grown by `by` at `h`.
pub open spec fn moved(i: int, h: int, by: int) -> int {
    if i < h {
        i
    } else {
        i + by
    }
}

/// A block as it stands once the text has grown by `by` at `h`.
pub open spec fn moved_block(b: (int, int), h: int, by: int) -> (int, int) {
    (
        moved(b.0, h, by),
        if b.1 <= h {
            b.1
        } else {
            b.1 + by
        },
    )
}

pub proof fn lemma_graft_bytes(s: Seq<u8>, h: int, e: int, n: Seq<u8>)
    requires
        0 <= h <= e <= s.len(),
    ensures
        ({
            let t = spliced(s, h, e, n);
            let by = n.len() - (e - h);
            &&& t.len() == s.len() + by
            &&& forall|i: int| 0 <= i < h ==> s[i] == #[trigger] t[i]
            &&& forall|i: int| e <= i < s.len() ==> s[i] == #[trigger] t[i + by]
            &&& forall|i: int| 0 <= i < n.len() ==> n[i] == #[trigger] t[h + i]
            &&& occurs_at(t, n, h)
        }),
{
    let t = spliced(s, h, e, n);
    assert(t.subrange(h, h + n.len()) =~= n);
}

/// What the reader makes of the two texts.
pub proof fn lemma_graft_lex(s: Seq<u8>, h: int, e: int, n: Seq<u8>, i: int)
    requires
        graftable(s, h, e, n),
        0 <= i <= s.len(),
    ensures
        ({
            let t = spliced(s, h, e, n);
            let by = n.len() - (e - h);
            &&& i <= h ==> lex(t, 0, i) == lex(s, 0, i)
            &&& i >= e ==> lex(t, 0, i + by) == lex(s, 0, i)
        }),
    decreases i,
{
    let t = spliced(s, h, e, n);
    let by = n.len() - (e - h);
    lemma_graft_bytes(s, h, e, n);
    if i <= h {
        lemma_lex_same(s, t, 0, i);
    }
    if i >= e {
        if i == e {
            lemma_lex_same(s, t, 0, h);
            lemma_run_lex(t, 0, h, n, n.len() as int);
        } else {
            lemma_graft_lex(s, h, e, n, i - 1);
            assert(s[i - 1] == t[i - 1 + by]);
        }
    }
}

/// The depth over what was put in.
pub proof fn lemma_graft_depth(s: Seq<u8>, h: int, e: int, n: Seq<u8>, i: int)
    requires
        graftable(s, h, e, n),
        h <= i <= h + n.len(),
    ensures
        lex(spliced(s, h, e, n), 0, i).depth >= lex(s, 0, h).depth,
{
    let t = spliced(s, h, e, n);
    lemma_graft_bytes(s, h, e, n);
    lemma_graft_lex(s, h, e, n, h);
    lemma_run_lex(t, 0, h, n, i - h);
    lemma_low(lex(s, 0, h), n, n.len() as int, i - h);
}

/// Reading from a place outside strings on, by the reading of the whole text.
pub proof fn lemma_lex_from(s: Seq<u8>, a: int, i: int)
    requires
        0 <= a <= i,
        !lex(s, 0, a).quoted,
    ensures
        lex(s, a, i).depth == lex(s, 0, i).depth - lex(s, 0, a).depth,
{
    lemma_unquoted(s, 0, a);
    lemma_lex_compose(s, 0, a, i);
}

/// A block that opens before the exchange ends where it did, or that much later.
pub proof fn lemma_graft_end(s: Seq<u8>, h: int, e: int, n: Seq<u8>, a: int)
    requires
        graftable(s, h, e, n),
        0 <= a < h,
        !lex(s, 0, a).quoted,
    ensures
        ({
            let t = spliced(s, h, e, n);
            let by = n.len() - (e - h);
            &&& block_end(t, a) == match block_end(s, a) {
                Some(x) => Some(
                    if x <= h {
                        x
                    } else {
                        x + by
                    },
                ),
                None => None,
            }
            &&& block_end(s, a) matches Some(x) ==> x <= h || x > e
        }),
{
    let t = spliced(s, h, e, n);
    let by = n.len() - (e - h);
    lemma_graft_bytes(s, h, e, n);
    lemma_graft_lex(s, h, e, n, a);
    assert(t[a] == s[a]);
    lemma_block_end(s, a);
    lemma_block_end(t, a);
    if s[a] == 0x28 {
        if let Some(x) = block_end(s, a) {
            if h < x {
                assert(lex(s, a, h).depth > 0);
                lemma_lex_from(s, a, h);
                lemma_lex_from(s, a, x);
                if x <= e {
                    assert(lex(s, 0, x).depth >= lex(s, 0, h).depth);
                }
            }
            let y = if x <= h {
                x
            } else {
                x + by
            };
            lemma_graft_lex(s, h, e, n, x);
            lemma_lex_from(t, a, y);
            lemma_lex_from(s, a, x);
            lemma_closed_by(t, a, a + 1, y);
            let c = block_end(t, a)->0;
            if c < y {
                lemma_lex_from(t, a, c);
                if c <= h {
                    lemma_graft_lex(s, h, e, n, c);
                    lemma_lex_from(s, a, c);
                    assert(lex(s, a, c).depth > 0);
                } else if c <= h + n.len() {
                    lemma_graft_depth(s, h, e, n, c);
                } else {
                    lemma_graft_lex(s, h, e, n, c - by);
                    lemma_lex_from(s, a, c - by);
                    assert(lex(s, a, c - by).depth > 0);
                }
            }
        } else if let Some(c) = block_end(t, a) {
            lemma_lex_from(t, a, c);
            if c <= h {
                lemma_graft_lex(s, h, e, n, c);
                lemma_lex_from(s, a, c);
                lemma_closed_by(s, a, a + 1, c);
            } else {
                lemma_graft_lex(s, h, e, n, h);
                lemma_lex_from(t, a, h);
                assert(lex(t, a, h).depth > 0);
                if c <= h + n.len() {
                    lemma_graft_depth(s, h, e, n, c);
                } else {
                    lemma_graft_lex(s, h, e, n, c - by);
                    lemma_lex_from(s, a, c - by);
                    lemma_closed_by(s, a, a + 1, c - by);
                }
            }
        }
    }
}

/// A block that opens behind the exchange moves with its text.
pub proof fn lemma_graft_end_behind(s: Seq<u8>, h: int, e: int, n: Seq<u8>, a: int)
    requires
        graftable(s, h, e, n),
        e <= a,
    ensures
        ({
            let t = spliced(s, h, e, n);
            let by = n.len() - (e - h);
            block_end(t, a + by) == match block_end(s, a) {
                Some(x) => Some(x + by),
                None => None,
            }
        }),
{
    let t = spliced(s, h, e, n);
    let by = n.len() - (e - h);
    lemma_graft_bytes(s, h, e, n);
    if a < s.len() {
        assert(s[a] == t[a + by]);
        lemma_close_shift(s, t, a, a + 1, by);
    }
}

/// No search text reaches over the end of a line that a list closes.
proof fn lemma_reaches_over(s: Seq<u8>, t: Seq<u8>, h: int, p: Seq<u8>, i: int)
    requires
        0 <= i < h < i + p.len(),
        h <= s.len(),
        forall|k: int| 0 <= k < h ==> #[trigger] t[k] == s[k],
        occurs_at(t, p, i),
        clean(p),
    ensures
        !behind_close(s, h),
{
    if behind_close(s, h) {
        assert(t[h - 1] == s[h - 1] && t[h - 2] == s[h - 2]);
        if i <= h - 2 {
            assert(t.subrange(i, i + p.len())[h - 2 - i] == t[h - 2]);
        } else {
            assert(t.subrange(i, i + p.len())[0] == t[i]);
        }
    }
}

/// A search text stands outside the exchange where it stood.
pub proof fn lemma_graft_occurs(s: Seq<u8>, h: int, e: int, n: Seq<u8>, p: Seq<u8>, i: int)
    requires
        0 <= h <= e <= s.len(),
        h < s.len(),
        n.len() > 0,
        p.len() > 0,
        parted(s, h, n, p),
        0 <= i,
        i < h || e <= i,
    ensures
        ({
            let t = spliced(s, h, e, n);
            let by = n.len() - (e - h);
            &&& occurs_at(s, p, i) == occurs_at(t, p, moved(i, h, by))
            &&& i < h && occurs_at(s, p, i) ==> i + p.len() <= h
        }),
{
    let t = spliced(s, h, e, n);
    let by = n.len() - (e - h);
    lemma_graft_bytes(s, h, e, n);
    if i < h {
        if i + p.len() <= h {
            assert(s.subrange(i, i + p.len()) =~= t.subrange(i, i + p.len()));
        } else if !stops(p, s[h], n) {
            lemma_head_texts();
            if occurs_at(s, p, i) {
                lemma_reaches_over(s, s, h, p, i);
                assert(s.subrange(i, i + p.len())[h - i] == s[h]);
            }
            if occurs_at(t, p, i) {
                lemma_reaches_over(s, t, h, p, i);
                assert(t.subrange(i, i + p.len())[h - i] == t[h + 0]);
                if p == lib_head() && n[0] == 0x20 && h - i == 7 {
                    reveal_strlit("(lib_id");
                    vstd::utf8::is_ascii_chars_encode_utf8("(lib_id"@);
                    assert(s.subrange(i, h) =~= t.subrange(i, i + 8).subrange(0, 7));
                    assert(s.subrange(i, h) =~= utf8("(lib_id"@));
                    assert(occurs_at(s, utf8("(lib_id"@), h - 7));
                }
            }
        } else {
            if occurs_at(s, p, i) {
                assert(s.subrange(i, i + p.len())[h - i] == s[h]);
            }
            if occurs_at(t, p, i) {
                assert(t.subrange(i, i + p.len())[h - i] == t[h + 0]);
                if clean(p) && steps_in(n) && p.last() == 0x22 {
                    let q = choose|q: int| #[trigger] opens_at(n, q);
                    if h + q < i + p.len() {
                        assert(t.subrange(i, i + p.len())[h + q - i] == t[h + q]);
                    } else {
                        let z = i + p.len() - 1;
                        assert(t.subrange(i, i + p.len())[z - i] == t[h + (z - h)]);
                    }
                }
            }
        }
    } else if i + p.len() <= s.len() {
        assert(s.subrange(i, i + p.len()) =~= t.subrange(i + by, i + by + p.len())) by {
            assert forall|k: int| 0 <= k < p.len() implies s[i + k] == #[trigger] t[i + by + k] by {
                assert(s[i + k] == t[(i + k) + by]);
            }
        }
    }
}

/// A symbol opens where one opened, and nowhere else.
pub proof fn lemma_graft_start(s: Seq<u8>, h: int, e: int, n: Seq<u8>, i: int)
    requires
        graftable(s, h, e, n),
        0 <= i,
        i < h || e <= i,
    ensures
        is_block_start(s, utf8("symbol"@), i) == is_block_start(
            spliced(s, h, e, n),
            utf8("symbol"@),
            moved(i, h, n.len() - (e - h)),
        ),
{
    let t = spliced(s, h, e, n);
    let by = n.len() - (e - h);
    let j = moved(i, h, by);
    lemma_head_texts();
    lemma_graft_bytes(s, h, e, n);
    lemma_parted(s, h, n, symbol_head());
    lemma_graft_occurs(s, h, e, n, symbol_head(), i);
    lemma_start_text(s, i);
    lemma_start_text(t, j);
    if i <= s.len() {
        lemma_graft_lex(s, h, e, n, i);
    }
    if occurs_at(s, symbol_head(), i) {
        if i < h {
            if i + 7 < h {
                assert(s[i + 7] == t[i + 7]);
            } else {
                assert(s.subrange(i, i + 7)[5] == s[h - 2]);
                assert(t[h + 0] == n[0]);
            }
        } else if i + 7 < s.len() {
            assert(s[i + 7] == t[(i + 7) + by]);
        }
    }
}

/// Where a symbol opens, by the text of its head.
pub proof fn lemma_start_text(s: Seq<u8>, i: int)
    ensures
        is_block_start(s, utf8("symbol"@), i) == {
            &&& occurs_at(s, symbol_head(), i)
            &&& !lex(s, 0, i).quoted
            &&& i + 7 == s.len() || is_delimiter(s[i + 7])
        },
{
    let tag = utf8("symbol"@);
    lemma_head_texts();
    if occurs_at(s, symbol_head(), i) {
        assert(s.subrange(i, i + 7)[0] == s[i]);
        assert(s.subrange(i + 1, i + 7) =~= s.subrange(i, i + 7).subrange(1, 7));
        assert(symbol_head().subrange(1, 7) =~= tag);
    }
    if is_block_start(s, tag, i) {
        assert(s.subrange(i, i + 7) =~= seq![0x28u8] + s.subrange(i + 1, i + 7));
        assert(symbol_head() =~= seq![0x28u8] + tag);
    }
}

/// No symbol opens inside the exchange; one that is put in is closed in it.
pub proof fn lemma_graft_inside(s: Seq<u8>, h: int, e: int, n: Seq<u8>)
    requires
        graftable(s, h, e, n),
    ensures
        forall|i: int| h <= i < e ==> !is_block_start(s, utf8("symbol"@), i),
        forall|i: int|
            h <= i < h + n.len() && #[trigger] is_block_start(
                spliced(s, h, e, n),
                utf8("symbol"@),
                i,
            ) ==> h == e && closed_to(spliced(s, h, e, n), i, h + n.len()),
{
    let t = spliced(s, h, e, n);
    assert forall|i: int| h <= i < e implies !is_block_start(s, utf8("symbol"@), i) by {
        lemma_start_text(s, i);
        assert(!occurs_at(s, symbol_head(), i));
    }
    assert forall|i: int|
        h <= i < h + n.len() && #[trigger] is_block_start(t, utf8("symbol"@), i) implies h == e
        && closed_to(t, i, h + n.len()) by {
        lemma_start_text(t, i);
        if free(t, symbol_head(), h, h + n.len()) {
            assert(!occurs_at(t, symbol_head(), i));
        }
    }
}

/// The symbol around a place before the exchange.
pub proof fn lemma_graft_around_before(s: Seq<u8>, h: int, e: int, n: Seq<u8>, pos: int, m: int)
    requires
        graftable(s, h, e, n),
        m <= h,
        pos <= h,
    ensures
        enclosing_below(spliced(s, h, e, n), utf8("symbol"@), pos, m) == match enclosing_below(
            s,
            utf8("symbol"@),
            pos,
            m,
        ) {
            Some(b) => Some(moved_block(b, h, n.len() - (e - h))),
            None => None,
        },
    decreases m,
{
    if m > 0 {
        lemma_graft_around_before(s, h, e, n, pos, m - 1);
        lemma_graft_start(s, h, e, n, m - 1);
        if is_block_start(s, utf8("symbol"@), m - 1) {
            lemma_graft_end(s, h, e, n, m - 1);
        }
    }
}

/// The symbol around a place behind the exchange, as far as it opens before it.
pub proof fn lemma_graft_around_over(s: Seq<u8>, h: int, e: int, n: Seq<u8>, pos: int, m: int)
    requires
        graftable(s, h, e, n),
        m <= h,
        e <= pos,
    ensures
        enclosing_below(
            spliced(s, h, e, n),
            utf8("symbol"@),
            pos + n.len() - (e - h),
            m,
        ) == match enclosing_below(s, utf8("symbol"@), pos, m) {
            Some(b) => Some(moved_block(b, h, n.len() - (e - h))),
            None => None,
        },
    decreases m,
{
    if m > 0 {
        lemma_graft_around_over(s, h, e, n, pos, m - 1);
        lemma_graft_start(s, h, e, n, m - 1);
        if is_block_start(s, utf8("symbol"@), m - 1) {
            lemma_graft_end(s, h, e, n, m - 1);
        }
    }
}

/// Where no symbol opens that is still open, the search goes on below.
pub proof fn lemma_around_skips(s: Seq<u8>, pos: int, i: int, m: int)
    requires
        0 <= i <= m,
        forall|k: int|
            i <= k < m && #[trigger] is_block_start(s, utf8("symbol"@), k) ==> closed_to(s, k, pos),
    ensures
        enclosing_below(s, utf8("symbol"@), pos, m) == enclosing_below(
            s,
            utf8("symbol"@),
            pos,
            i,
        ),
    decreases m - i,
{
    if i < m {
        lemma_around_skips(s, pos, i, m - 1);
    }
}

pub proof fn lemma_graft_around_behind(s: Seq<u8>, h: int, e: int, n: Seq<u8>, pos: int, m: int)
    requires
        graftable(s, h, e, n),
        e <= m,
        e <= pos,
    ensures
        enclosing_below(
            spliced(s, h, e, n),
            utf8("symbol"@),
            pos + n.len() - (e - h),
            m + n.len() - (e - h),
        ) == match enclosing_below(s, utf8("symbol"@), pos, m) {
            Some(b) => Some(moved_block(b, h, n.len() - (e - h))),
            None => None,
        },
    decreases m,
{
    let t = spliced(s, h, e, n);
    let by = n.len() - (e - h);
    if m > e {
        lemma_graft_around_behind(s, h, e, n, pos, m - 1);
        lemma_graft_start(s, h, e, n, m - 1);
        lemma_graft_end_behind(s, h, e, n, m - 1);
        if is_block_start(s, utf8("symbol"@), m - 1) {
            lemma_block_end(s, m - 1);
        }
        assert((m - 1) + by == (m + by) - 1);
    } else {
        lemma_graft_inside(s, h, e, n);
        lemma_around_skips(s, pos, h, e);
        lemma_around_skips(t, pos + by, h, h + n.len());
        lemma_graft_around_over(s, h, e, n, pos, h);
    }
}

/// A place and the same place once a text was exchanged.
pub open spec fn follows(i: int, j: int, h: int, e: int, by: int) -> bool {
    ||| 0 <= i < h && j == i
    ||| i == h && h < e && j == h
    ||| e <= i && j == i + by
}

/// The symbol around a place stays around it.
pub proof fn lemma_graft_around(s: Seq<u8>, h: int, e: int, n: Seq<u8>, i: int, j: int)
    requires
        graftable(s, h, e, n),
        i < s.len(),
        follows(i, j, h, e, n.len() - (e - h)),
    ensures
        enclosing_block(spliced(s, h, e, n), utf8("symbol"@), j) == match enclosing_block(
            s,
            utf8("symbol"@),
            i,
        ) {
            Some(b) => Some(moved_block(b, h, n.len() - (e - h))),
            None => None,
        },
        enclosing_block(s, utf8("symbol"@), i) matches Some(b) ==> whole(b, h, e),
{
    let t = spliced(s, h, e, n);
    lemma_graft_bytes(s, h, e, n);
    lemma_graft_inside(s, h, e, n);
    lemma_enclosing(s, utf8("symbol"@), i);
    if let Some(b) = enclosing_block(s, utf8("symbol"@), i) {
        lemma_graft_whole(s, h, e, n, b);
    }
    if i < h && j == i {
        lemma_graft_around_before(s, h, e, n, i, i + 1);
    } else if i == h && h < e && j == h {
        lemma_around_skips(s, i, h, h + 1);
        lemma_around_skips(t, i, h, h + 1);
        lemma_graft_around_before(s, h, e, n, i, h);
    } else {
        lemma_graft_around_behind(s, h, e, n, i, i + 1);
    }
}

/// A block begins and ends outside the exchange.
pub open spec fn whole(b: (int, int), h: int, e: int) -> bool {
    &&& b.0 < h || e <= b.0
    &&& b.0 < b.1
    &&& b.0 < h ==> b.1 <= h || e < b.1
}

pub proof fn lemma_graft_whole(s: Seq<u8>, h: int, e: int, n: Seq<u8>, b: (int, int))
    requires
        graftable(s, h, e, n),
        is_block_start(s, utf8("symbol"@), b.0),
        block_end(s, b.0) == Some(b.1),
    ensures
        whole(b, h, e),
{
    lemma_graft_inside(s, h, e, n);
    lemma_block_end(s, b.0);
    if b.0 < h {
        lemma_graft_end(s, h, e, n, b.0);
    }
}

// ── What a block holds ───────────────────────────────────────────────────────

/// A search text stands in a block at `i`.
pub open spec fn stands_in(s: Seq<u8>, b: (int, int), p: Seq<u8>, i: int) -> bool {
    b.0 <= i && i + p.len() <= b.1 && occurs_at(s, p, i)
}

/// What occurs in the text of a block stands in the block.
#[verifier::spinoff_prover]
pub proof fn lemma_stands(s: Seq<u8>, b: (int, int), p: Seq<u8>)
    requires
        0 <= b.0 <= b.1 <= s.len(),
    ensures
        occurs(s.subrange(b.0, b.1), p) <==> exists|i: int| stands_in(s, b, p, i),
        forall|i: int| #![trigger stands_in(s, b, p, i)]
            stands_in(s, b, p, i) ==> occurs_at(s.subrange(b.0, b.1), p, i - b.0),
        forall|k: int| #![trigger occurs_at(s.subrange(b.0, b.1), p, k)]
            occurs_at(s.subrange(b.0, b.1), p, k) ==> stands_in(s, b, p, b.0 + k),
{
    let inner = s.subrange(b.0, b.1);
    lemma_occurs(inner, p);
    assert forall|i: int| #![trigger stands_in(s, b, p, i)] stands_in(
        s,
        b,
        p,
        i,
    ) implies occurs_at(inner, p, i - b.0) by {
        assert(inner.subrange(i - b.0, i - b.0 + p.len()) =~= s.subrange(i, i + p.len()));
    }
    assert forall|k: int| #![trigger occurs_at(inner, p, k)] occurs_at(
        inner,
        p,
        k,
    ) implies stands_in(s, b, p, b.0 + k) by {
        assert(inner.subrange(k, k + p.len()) =~= s.subrange(b.0 + k, b.0 + k + p.len()));
    }
    if occurs(inner, p) {
        let k = choose|k: int| occurs_at(inner, p, k);
        assert(stands_in(s, b, p, b.0 + k));
    }
    if exists|i: int| stands_in(s, b, p, i) {
        let i = choose|i: int| stands_in(s, b, p, i);
        assert(occurs_at(inner, p, i - b.0));
    }
}

/// A block holds the same search texts once a text was exchanged that holds
/// none of them.
pub proof fn lemma_graft_held(s: Seq<u8>, h: int, e: int, n: Seq<u8>, b: (int, int), p: Seq<u8>)
    requires
        graftable(s, h, e, n),
        0 <= b.0,
        b.1 <= s.len(),
        whole(b, h, e),
        clean(p),
        n[0] != 0x20 || p.last() == 0x22 || p == lib_head(),
        free(s, p, h, e),
        free(spliced(s, h, e, n), p, h, h + n.len()),
    ensures
        ({
            let t = spliced(s, h, e, n);
            let c = moved_block(b, h, n.len() - (e - h));
            &&& 0 <= c.0 <= c.1 <= t.len()
            &&& occurs(t.subrange(c.0, c.1), p) == occurs(s.subrange(b.0, b.1), p)
        }),
{
    let t = spliced(s, h, e, n);
    let by = n.len() - (e - h);
    let c = moved_block(b, h, by);
    lemma_graft_bytes(s, h, e, n);
    lemma_stands(s, b, p);
    lemma_stands(t, c, p);
    lemma_parted(s, h, n, p);
    if exists|i: int| stands_in(s, b, p, i) {
        let i = choose|i: int| stands_in(s, b, p, i);
        if h <= i < e {
            assert(!occurs_at(s, p, i));
        }
        lemma_graft_occurs(s, h, e, n, p, i);
        assert(stands_in(t, c, p, moved(i, h, by)));
    }
    if exists|j: int| stands_in(t, c, p, j) {
        let j = choose|j: int| stands_in(t, c, p, j);
        if h <= j < h + n.len() {
            assert(!occurs_at(t, p, j));
        }
        let i = if j < h {
            j
        } else {
            j - by
        };
        lemma_graft_occurs(s, h, e, n, p, i);
        assert(stands_in(s, b, p, i));
    }
}

pub proof fn lemma_graft_placed(s: Seq<u8>, h: int, e: int, n: Seq<u8>, b: (int, int))
    requires
        graftable(s, h, e, n),
        0 <= b.0,
        b.1 <= s.len(),
        whole(b, h, e),
    ensures
        is_placed(spliced(s, h, e, n), moved_block(b, h, n.len() - (e - h))) == is_placed(s, b),
{
    let t = spliced(s, h, e, n);
    lemma_head_texts();
    if free(s, lib_head(), h, e) && free(t, lib_head(), h, h + n.len()) {
        lemma_graft_held(s, h, e, n, b, lib_head());
    } else {
        lemma_graft_named(s, h, e, n, b);
    }
}

/// A block that names a library's symbol names one once the name was exchanged.
#[verifier::spinoff_prover]
proof fn lemma_graft_named(s: Seq<u8>, h: int, e: int, n: Seq<u8>, b: (int, int))
    requires
        0 <= h <= e <= s.len(),
        0 <= b.0,
        b.1 <= s.len(),
        whole(b, h, e),
        occurs_at(s, lib_head(), h),
        h + 8 <= e,
        occurs_at(spliced(s, h, e, n), lib_head(), h),
        8 <= n.len(),
    ensures
        is_placed(spliced(s, h, e, n), moved_block(b, h, n.len() - (e - h))) == is_placed(s, b),
{
    let t = spliced(s, h, e, n);
    let by = n.len() - (e - h);
    let c = moved_block(b, h, by);
    lemma_graft_bytes(s, h, e, n);
    lemma_head_texts();
    if b.0 < h && e < b.1 {
        assert(c == (b.0, b.1 + by));
        lemma_stands(s, b, lib_head());
        lemma_stands(t, c, lib_head());
        assert(stands_in(s, b, lib_head(), h));
        assert(stands_in(t, c, lib_head(), h));
    } else {
        assert(t.subrange(c.0, c.1) =~= s.subrange(b.0, b.1));
    }
}

// ── The units of a component ─────────────────────────────────────────────────

/// Every occurrence of a search text is a hit.
pub proof fn lemma_all_hits(s: Seq<u8>, p: Seq<u8>, x: int)
    requires
        solo(p),
        occurs_at(s, p, x),
    ensures
        hits(s, p, 0).contains(x),
{
    let at = hits(s, p, 0);
    lemma_hits_complete(s, p, 0, x);
    lemma_hits(s, p, 0);
    let k = choose|k: int| 0 <= k < at.len() && #[trigger] at[k] <= x < at[k] + p.len();
    if at[k] < x {
        assert(occurs_at(s, p, at[k]));
        assert(s.subrange(at[k], at[k] + p.len())[x - at[k]] == s[x]);
        assert(s.subrange(x, x + p.len())[0] == s[x]);
        assert(p[x - at[k]] != 0x28);
    }
    assert(at[k] == x);
}

/// Two ascending lists with the same members are the same.
pub proof fn lemma_same_ascending(a: Seq<int>, b: Seq<int>)
    requires
        forall|i: int, j: int| 0 <= i < j < a.len() ==> #[trigger] a[i] < #[trigger] a[j],
        forall|i: int, j: int| 0 <= i < j < b.len() ==> #[trigger] b[i] < #[trigger] b[j],
        forall|x: int| #[trigger] a.contains(x) <==> b.contains(x),
    ensures
        a == b,
    decreases a.len(),
{
    if a.len() == 0 {
        if b.len() > 0 {
            assert(b.contains(b[0]));
            assert(a.contains(b[0]));
        }
        assert(a =~= b);
    } else {
        assert(a.contains(a.last()));
        assert(b.contains(a.last()));
        let i = choose|i: int| 0 <= i < b.len() && b[i] == a.last();
        assert(b.contains(b.last()));
        assert(a.contains(b.last()));
        let j = choose|j: int| 0 <= j < a.len() && a[j] == b.last();
        assert(a.last() == b.last()) by {
            if i < b.len() - 1 {
                assert(b[i] < b[b.len() - 1]);
                if j < a.len() - 1 {
                    assert(a[j] < a[a.len() - 1]);
                }
            }
        }
        let x = a.drop_last();
        let y = b.drop_last();
        assert forall|v: int| #[trigger] x.contains(v) <==> y.contains(v) by {
            lemma_without_last(a, v);
            lemma_without_last(b, v);
            assert(a.contains(v) <==> b.contains(v));
        }
        lemma_same_ascending(x, y);
        assert(a =~= x.push(a.last()));
        assert(b =~= y.push(b.last()));
    }
}

pub proof fn lemma_without_last(a: Seq<int>, v: int)
    requires
        a.len() > 0,
        forall|i: int, j: int| 0 <= i < j < a.len() ==> #[trigger] a[i] < #[trigger] a[j],
    ensures
        a.drop_last().contains(v) <==> a.contains(v) && v != a.last(),
{
    if a.drop_last().contains(v) {
        let i = choose|i: int| 0 <= i < a.drop_last().len() && a.drop_last()[i] == v;
        assert(a[i] == v);
        assert(a[i] < a[a.len() - 1]);
    }
    if a.contains(v) && v != a.last() {
        let i = choose|i: int| 0 <= i < a.len() && a[i] == v;
        assert(a.drop_last()[i] == v);
    }
}

/// A search text that the exchange does not touch is hit where it was.
pub proof fn lemma_graft_hits(s: Seq<u8>, h: int, e: int, n: Seq<u8>, p: Seq<u8>)
    requires
        graftable(s, h, e, n),
        clean(p),
        n[0] != 0x20 || p.last() == 0x22,
        free(s, p, h, e),
        free(spliced(s, h, e, n), p, h, h + n.len()),
    ensures
        hits(spliced(s, h, e, n), p, 0) == hits(s, p, 0).map_values(
            |i: int| moved(i, h, n.len() - (e - h)),
        ),
        forall|k: int|
            0 <= k < hits(s, p, 0).len() ==> {
                let i = #[trigger] hits(s, p, 0)[k];
                &&& 0 <= i < s.len()
                &&& i < h || e <= i
            },
{
    let t = spliced(s, h, e, n);
    let by = n.len() - (e - h);
    let at = hits(s, p, 0);
    let now = hits(t, p, 0);
    let f = |i: int| moved(i, h, by);
    let wanted = at.map_values(f);
    lemma_graft_bytes(s, h, e, n);
    lemma_parted(s, h, n, p);
    lemma_hits(s, p, 0);
    lemma_hits(t, p, 0);
    assert forall|k: int| 0 <= k < at.len() implies {
        let i = #[trigger] at[k];
        &&& 0 <= i < s.len()
        &&& i < h || e <= i
    } by {
        assert(occurs_at(s, p, at[k]));
    }
    assert forall|i: int, j: int| 0 <= i < j < wanted.len() implies #[trigger] wanted[i]
        < #[trigger] wanted[j] by {
        assert(at[i] + p.len() <= at[j]);
        assert(occurs_at(s, p, at[i]));
        lemma_graft_occurs(s, h, e, n, p, at[i]);
    }
    assert forall|i: int, j: int| 0 <= i < j < now.len() implies #[trigger] now[i]
        < #[trigger] now[j] by {
        assert(now[i] + p.len() <= now[j]);
    }
    assert forall|x: int| #[trigger] now.contains(x) <==> wanted.contains(x) by {
        if now.contains(x) {
            let k = choose|k: int| 0 <= k < now.len() && now[k] == x;
            assert(occurs_at(t, p, now[k]));
            let i = if x < h {
                x
            } else {
                x - by
            };
            lemma_graft_occurs(s, h, e, n, p, i);
            lemma_all_hits(s, p, i);
            let m = choose|m: int| 0 <= m < at.len() && at[m] == i;
            assert(wanted[m] == x);
        }
        if wanted.contains(x) {
            let m = choose|m: int| 0 <= m < wanted.len() && wanted[m] == x;
            assert(occurs_at(s, p, at[m]));
            lemma_graft_occurs(s, h, e, n, p, at[m]);
            lemma_all_hits(t, p, x);
        }
    }
    lemma_same_ascending(now, wanted);
}

/// The placed symbols around moved offsets are those around the offsets, moved.
pub proof fn lemma_graft_placed_around(s: Seq<u8>, h: int, e: int, n: Seq<u8>, at: Seq<int>, k: int)
    requires
        graftable(s, h, e, n),
        0 <= k <= at.len(),
        forall|j: int|
            0 <= j < at.len() ==> {
                let i = #[trigger] at[j];
                &&& 0 <= i < s.len()
                &&& i < h || e <= i
            },
    ensures
        placed_around(
            spliced(s, h, e, n),
            at.map_values(|i: int| moved(i, h, n.len() - (e - h))),
            k,
        ) == placed_around(s, at, k).map_values(
            |b: (int, int)| moved_block(b, h, n.len() - (e - h)),
        ),
        forall|j: int|
            0 <= j < placed_around(s, at, k).len() ==> whole(
                #[trigger] placed_around(s, at, k)[j],
                h,
                e,
            ),
    decreases k,
{
    let t = spliced(s, h, e, n);
    let by = n.len() - (e - h);
    let f = |i: int| moved(i, h, by);
    let g = |b: (int, int)| moved_block(b, h, by);
    let new_at = at.map_values(f);
    if k > 0 {
        lemma_graft_placed_around(s, h, e, n, at, k - 1);
        let before = placed_around(s, at, k - 1);
        let now = placed_around(t, new_at, k - 1);
        let i = at[k - 1];
        assert(new_at[k - 1] == moved(i, h, by));
        lemma_graft_around(s, h, e, n, i, moved(i, h, by));
        lemma_enclosing(s, utf8("symbol"@), i);
        if let Some(b) = enclosing_block(s, utf8("symbol"@), i) {
            lemma_block_end(s, b.0);
            lemma_graft_placed(s, h, e, n, b);
            assert(has_start(now, moved(b.0, h, by)) == has_start(before, b.0)) by {
                if has_start(before, b.0) {
                    let m = choose|m: int| 0 <= m < before.len() && (#[trigger] before[m]).0 == b.0;
                    assert(now[m].0 == moved(b.0, h, by));
                }
                if has_start(now, moved(b.0, h, by)) {
                    let m = choose|m: int|
                        0 <= m < now.len() && (#[trigger] now[m]).0 == moved(b.0, h, by);
                    assert(whole(before[m], h, e));
                    assert(now[m] == moved_block(before[m], h, by));
                    assert(before[m].0 == b.0);
                }
            }
            assert(before.push(b).map_values(g) =~= before.map_values(g).push(g(b)));
        }
    } else {
        assert(placed_around(t, new_at, k) =~= placed_around(s, at, k).map_values(g));
    }
}

/// The units of a component stay its units when a text is exchanged that does
/// not hold their designator.
pub proof fn lemma_graft_units(s: Seq<u8>, h: int, e: int, n: Seq<u8>, reference: Seq<char>)
    requires
        graftable(s, h, e, n),
        clean(utf8(reference_property(reference))),
        free(s, utf8(reference_property(reference)), h, e),
        free(spliced(s, h, e, n), utf8(reference_property(reference)), h, h + n.len()),
    ensures
        instance_blocks(spliced(s, h, e, n), reference) == instance_blocks(
            s,
            reference,
        ).map_values(|b: (int, int)| moved_block(b, h, n.len() - (e - h))),
        forall|j: int|
            0 <= j < instance_blocks(s, reference).len() ==> whole(
                #[trigger] instance_blocks(s, reference)[j],
                h,
                e,
            ),
{
    let p = utf8(reference_property(reference));
    let at = hits(s, p, 0);
    reveal_strlit("\"");
    lemma_one_byte("\""@);
    lemma_utf8_add("(property \"Reference\" \""@ + reference, "\""@);
    assert(p.last() == 0x22);
    lemma_graft_hits(s, h, e, n, p);
    lemma_graft_placed_around(s, h, e, n, at, at.len() as int);
}

/// A text that can be read can be read once part of it was exchanged.
pub proof fn lemma_graft_reads(s: Seq<u8>, h: int, e: int, n: Seq<u8>, a: int)
    requires
        graftable(s, h, e, n),
        parsed(s) is Some,
        0 <= a < h,
        s[a] == 0x28,
        !lex(s, 0, a).quoted,
        !is_blank(s[h]),
    ensures
        parsed(spliced(s, h, e, n)) is Some,
{
    let t = spliced(s, h, e, n);
    let by = n.len() - (e - h);
    let p = past_blanks(s, 0);
    lemma_root(s, a, h);
    lemma_graft_bytes(s, h, e, n);
    lemma_graft_end(s, h, e, n, p);
    let j = block_end(s, p)->0;
    lemma_blanks(s, 0);
    lemma_blanks(t, 0);
    let q = past_blanks(t, 0);
    assert(s[p] == t[p]);
    if q < p {
        assert(is_blank(s[q]));
        assert(s[q] == t[q]);
    }
    if p < q {
        assert(is_blank(t[p]));
    }
    lemma_block_reads(t, p);
    lemma_blanks(t, j + by);
    let k = past_blanks(t, j + by);
    if k < t.len() {
        assert(s[k - by] == t[(k - by) + by]);
        assert(is_blank(s[k - by]));
    }
}

} // verus!
