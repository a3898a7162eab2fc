//! Texts that read alike: what an edit of coordinate lists leaves of a tree.

use vstd::prelude::*;
use crate::edit::{edited, in_order, placed, rewritten, Edit};
use crate::node::{
    closing_quote, first_headed, found, found_text, head, is_blank, items_at, node_at, parsed,
    past_blanks, text_of, word_end, Sexp,
};
use crate::coord::{coord_list, Site};
use crate::numeral::coordinate;
use crate::scan::{
    block_end, is_block_start, is_delimiter, lemma_lex_compose, lemma_starts_below, lex, lex_step,
    Lex,
};
use crate::text::{spliced, utf8};

verus! {

// ── Trees that are alike ─────────────────────────────────────────────────────

/// The head of a coordinate list.
pub open spec fn coord_head(tag: Seq<u8>) -> bool {
    tag == utf8("at"@) || tag == utf8("start"@) || tag == utf8("end"@) || tag == utf8("xy"@)
}

/// Two trees are the same but for what coordinate lists hold.
pub open spec fn alike(t: Sexp, u: Sexp) -> bool
    decreases t, 0int,
{
    if head(t) matches Some(tag) && coord_head(tag) {
        head(u) == head(t)
    } else {
        match (t, u) {
            (Sexp::List(a), Sexp::List(b)) => a.len() == b.len() && all_alike(
                a,
                b,
                a.len() as int,
            ),
            _ => t == u,
        }
    }
}

/// The first `n` trees of two runs are alike.
pub open spec fn all_alike(a: Seq<Sexp>, b: Seq<Sexp>, n: int) -> bool
    decreases a, n,
{
    if n <= 0 || n > a.len() {
        n <= 0
    } else {
        alike(a[n - 1], b[n - 1]) && all_alike(a, b, n - 1)
    }
}

proof fn lemma_all_alike(a: Seq<Sexp>, b: Seq<Sexp>, n: int)
    requires
        n <= a.len(),
    ensures
        all_alike(a, b, n) <==> forall|i: int| 0 <= i < n ==> alike(#[trigger] a[i], b[i]),
    decreases n,
{
    if n > 0 {
        lemma_all_alike(a, b, n - 1);
        assert(all_alike(a, b, n) ==> alike(a[n - 1], b[n - 1]));
    }
}

/// A tree is like itself.
pub proof fn lemma_alike_self(t: Sexp)
    ensures
        alike(t, t),
    decreases t,
{
    if let Sexp::List(a) = t {
        assert forall|i: int| 0 <= i < a.len() implies alike(#[trigger] a[i], a[i]) by {
            lemma_alike_self(a[i]);
        }
        lemma_all_alike(a, a, a.len() as int);
    }
}

/// Trees that are alike have the same head.
pub proof fn lemma_alike_head(t: Sexp, u: Sexp)
    requires
        alike(t, u),
    ensures
        head(t) == head(u),
{
    if !(head(t) matches Some(tag) && coord_head(tag)) {
        if let (Sexp::List(a), Sexp::List(b)) = (t, u) {
            lemma_all_alike(a, b, a.len() as int);
            if a.len() > 0 {
                assert(alike(a[0], b[0]));
                assert(head(a[0]) is Some ==> a[0] is List);
            }
        }
    }
}

/// Being alike carries over a third tree.
pub proof fn lemma_alike_transitive(t: Sexp, u: Sexp, v: Sexp)
    requires
        alike(t, u),
        alike(u, v),
    ensures
        alike(t, v),
    decreases t,
{
    lemma_alike_head(t, u);
    lemma_alike_head(u, v);
    if !(head(t) matches Some(tag) && coord_head(tag)) {
        if let (Sexp::List(a), Sexp::List(b)) = (t, u) {
            if let Sexp::List(c) = v {
                lemma_all_alike(a, b, a.len() as int);
                lemma_all_alike(b, c, b.len() as int);
                assert forall|i: int| 0 <= i < a.len() implies alike(#[trigger] a[i], c[i]) by {
                    assert(alike(b[i], c[i]));
                    lemma_alike_transitive(a[i], b[i], c[i]);
                }
                lemma_all_alike(a, c, a.len() as int);
            }
        }
    }
}

// ── The reader and its state ─────────────────────────────────────────────────

/// Blanks do not change the state of the reader.
pub proof fn lemma_blanks(s: Seq<u8>, i: int)
    ensures
        i <= past_blanks(s, i),
        past_blanks(s, i) <= s.len() || past_blanks(s, i) == i,
        past_blanks(s, i) < s.len() ==> !is_blank(s[past_blanks(s, i)]),
        forall|m: int| i <= m < past_blanks(s, i) ==> is_blank(#[trigger] s[m]),
    decreases s.len() - i,
{
    if i < s.len() && is_blank(s[i]) {
        lemma_blanks(s, i + 1);
    }
}

proof fn lemma_lex_plain(s: Seq<u8>, i: int, k: int)
    requires
        i <= k,
        forall|m: int| i <= m < k ==> (#[trigger] s[m]) != 0x22 && s[m] != 0x28 && s[m] != 0x29,
    ensures
        lex(s, i, k) == (Lex { depth: 0, quoted: false, escaped: false }),
    decreases k - i,
{
    if i < k {
        lemma_lex_plain(s, i, k - 1);
    }
}

pub proof fn lemma_word(s: Seq<u8>, i: int)
    ensures
        i <= word_end(s, i),
        word_end(s, i) <= s.len() || word_end(s, i) == i,
        word_end(s, i) < s.len() ==> is_delimiter(s[word_end(s, i)]),
        forall|m: int| i <= m < word_end(s, i) ==> !is_delimiter(#[trigger] s[m]),
    decreases s.len() - i,
{
    if i < s.len() && !is_delimiter(s[i]) {
        lemma_word(s, i + 1);
    }
}

/// The reader is inside the string up to the quote that closes it.
proof fn lemma_string(s: Seq<u8>, b: int, i: int)
    requires
        b <= i,
        lex(s, b, i).quoted,
        !lex(s, b, i).escaped,
    ensures
        closing_quote(s, i) matches Some(q) ==> {
            &&& i <= q < s.len()
            &&& s[q] == 0x22
            &&& lex(s, b, q) == lex(s, b, i)
            &&& forall|m: int|
                i <= m <= q ==> (#[trigger] lex(s, b, m)).quoted && lex(s, b, m).depth == lex(
                    s,
                    b,
                    i,
                ).depth
        },
    decreases s.len() - i + 1,
{
    if i < s.len() && s[i] != 0x22 {
        if s[i] == 0x5c {
            assert(lex(s, b, i + 1) == lex_step(lex(s, b, i), s[i]));
            if i + 1 < s.len() {
                assert(lex(s, b, i + 2) == lex_step(lex(s, b, i + 1), s[i + 1]));
                assert(lex(s, b, i + 2) == lex(s, b, i));
                lemma_string(s, b, i + 2);
            }
        } else {
            assert(lex(s, b, i + 1) == lex_step(lex(s, b, i), s[i]));
            lemma_string(s, b, i + 1);
        }
    }
}

/// A node leaves the reader as it was; the rest of a list closes one list.
proof fn lemma_node_neutral(s: Seq<u8>, i: int)
    ensures
        node_at(s, i) matches Some((t, j)) ==> {
            &&& 0 <= i < j <= s.len()
            &&& lex(s, i, j) == (Lex { depth: 0, quoted: false, escaped: false })
        },
    decreases s.len() - i, 0int,
{
    if let Some((t, j)) = node_at(s, i) {
        if s[i] == 0x28 {
            lemma_items_neutral(s, i + 1, Seq::empty());
            assert(lex(s, i, i + 1) == lex_step(lex(s, i, i), s[i]));
            lemma_lex_compose(s, i, i + 1, j);
        } else if s[i] == 0x22 {
            assert(lex(s, i, i + 1) == lex_step(lex(s, i, i), s[i]));
            lemma_string(s, i, i + 1);
            assert(lex(s, i, j) == lex_step(lex(s, i, j - 1), s[j - 1]));
        } else {
            lemma_word(s, i);
            assert forall|m: int| i <= m < j implies (#[trigger] s[m]) != 0x22 && s[m] != 0x28 && s[m]
                != 0x29 by {
                assert(!is_delimiter(s[m]));
            }
            lemma_lex_plain(s, i, j);
        }
    }
}

proof fn lemma_items_neutral(s: Seq<u8>, i: int, before: Seq<Sexp>)
    requires
        0 <= i,
    ensures
        items_at(s, i, before) matches Some((items, j)) ==> {
            &&& i < j <= s.len()
            &&& lex(s, i, j) == (Lex { depth: -1, quoted: false, escaped: false })
        },
    decreases s.len() - i, 1int,
{
    if let Some((items, j)) = items_at(s, i, before) {
        let k = past_blanks(s, i);
        lemma_blanks(s, i);
        assert forall|m: int| i <= m < k implies (#[trigger] s[m]) != 0x22 && s[m] != 0x28 && s[m]
            != 0x29 by {
            assert(is_blank(s[m]));
        }
        lemma_lex_plain(s, i, k);
        if s[k] == 0x29 {
            assert(lex(s, i, k + 1) == lex_step(lex(s, i, k), s[k]));
        } else {
            let (n, m) = node_at(s, k)->0;
            lemma_node_neutral(s, k);
            lemma_items_neutral(s, m, before.push(n));
            lemma_lex_compose(s, i, k, m);
            lemma_lex_compose(s, i, m, j);
        }
    }
}

// ── The same window of two texts ─────────────────────────────────────────────

/// `w` bytes of `s` from `i` on are those of `r` from `k` on.
pub open spec fn window(s: Seq<u8>, i: int, r: Seq<u8>, k: int, w: int) -> bool {
    &&& 0 <= i
    &&& 0 <= k
    &&& i + w <= s.len()
    &&& k + w <= r.len()
    &&& forall|m: int| 0 <= m < w ==> s[i + m] == #[trigger] r[k + m]
}

proof fn lemma_window_part(s: Seq<u8>, i: int, r: Seq<u8>, k: int, w: int, from: int, width: int)
    requires
        window(s, i, r, k, w),
        0 <= from,
        from + width <= w,
    ensures
        window(s, i + from, r, k + from, width),
{
    assert forall|m: int| 0 <= m < width implies s[i + from + m] == #[trigger] r[k + from + m] by {
        assert(s[i + (from + m)] == r[k + (from + m)]);
    }
}

proof fn lemma_window_text(s: Seq<u8>, i: int, r: Seq<u8>, k: int, w: int, from: int, to: int)
    requires
        window(s, i, r, k, w),
        0 <= from <= to <= w,
    ensures
        s.subrange(i + from, i + to) == r.subrange(k + from, k + to),
{
    let a = s.subrange(i + from, i + to);
    let b = r.subrange(k + from, k + to);
    assert forall|m: int| 0 <= m < to - from implies #[trigger] a[m] == b[m] by {
        assert(s[i + (from + m)] == r[k + (from + m)]);
    }
    assert(a =~= b);
}

pub proof fn lemma_window_blanks(s: Seq<u8>, i: int, r: Seq<u8>, k: int, w: int)
    requires
        window(s, i, r, k, w),
        past_blanks(s, i) < i + w,
    ensures
        past_blanks(r, k) == k + (past_blanks(s, i) - i),
    decreases s.len() - i,
{
    lemma_blanks(s, i);
    if w > 0 {
        assert(s[i + 0] == r[k + 0]);
        if is_blank(s[i]) {
            lemma_window_part(s, i, r, k, w, 1, w - 1);
            lemma_window_blanks(s, i + 1, r, k + 1, w - 1);
        }
    }
}

proof fn lemma_window_word(s: Seq<u8>, i: int, r: Seq<u8>, k: int, w: int)
    requires
        window(s, i, r, k, w),
        word_end(s, i) < i + w,
    ensures
        word_end(r, k) == k + (word_end(s, i) - i),
    decreases s.len() - i,
{
    lemma_word(s, i);
    if w > 0 {
        assert(s[i + 0] == r[k + 0]);
        if !is_delimiter(s[i]) {
            lemma_window_part(s, i, r, k, w, 1, w - 1);
            lemma_window_word(s, i + 1, r, k + 1, w - 1);
        }
    }
}

proof fn lemma_window_quote(s: Seq<u8>, i: int, r: Seq<u8>, k: int, w: int)
    requires
        window(s, i, r, k, w),
        closing_quote(s, i) matches Some(q) && i <= q < i + w,
    ensures
        closing_quote(r, k) == Some(k + ((closing_quote(s, i)->0) - i)),
    decreases s.len() - i + 1,
{
    assert(s[i + 0] == r[k + 0]);
    if s[i] != 0x22 {
        if s[i] == 0x5c {
            lemma_quote_ahead(s, i + 2);
            lemma_window_part(s, i, r, k, w, 2, w - 2);
            lemma_window_quote(s, i + 2, r, k + 2, w - 2);
        } else {
            lemma_quote_ahead(s, i + 1);
            lemma_window_part(s, i, r, k, w, 1, w - 1);
            lemma_window_quote(s, i + 1, r, k + 1, w - 1);
        }
    }
}

pub proof fn lemma_quote_ahead(s: Seq<u8>, i: int)
    ensures
        closing_quote(s, i) matches Some(q) ==> i <= q < s.len(),
    decreases s.len() - i + 1,
{
    if i < s.len() && s[i] != 0x22 {
        if s[i] == 0x5c {
            lemma_quote_ahead(s, i + 2);
        } else {
            lemma_quote_ahead(s, i + 1);
        }
    }
}

/// A node reads the same wherever its bytes stand; for a bare word, with the
/// byte that ends it.
pub proof fn lemma_window_node(s: Seq<u8>, i: int, r: Seq<u8>, k: int, w: int)
    requires
        window(s, i, r, k, w),
        node_at(s, i) matches Some((t, j)) && j <= i + w && (t is Atom ==> j < i + w),
    ensures
        node_at(r, k) == Some(((node_at(s, i)->0).0, k + ((node_at(s, i)->0).1 - i))),
    decreases s.len() - i, 0int,
{
    let (t, j) = node_at(s, i)->0;
    lemma_node_neutral(s, i);
    assert(s[i + 0] == r[k + 0]);
    if s[i] == 0x28 {
        lemma_window_part(s, i, r, k, w, 1, w - 1);
        lemma_window_items(s, i + 1, Seq::empty(), r, k + 1, Seq::empty(), w - 1);
        let extra = (items_at(s, i + 1, Seq::empty())->0).0;
        assert(Seq::<Sexp>::empty() + extra.skip(0) =~= extra);
    } else if s[i] == 0x22 {
        lemma_window_part(s, i, r, k, w, 1, w - 1);
        lemma_quote_ahead(s, i + 1);
        lemma_window_quote(s, i + 1, r, k + 1, w - 1);
        let q = closing_quote(s, i + 1)->0;
        lemma_window_text(s, i, r, k, w, 1, q - i);
    } else {
        lemma_word(s, i);
        lemma_window_word(s, i, r, k, w);
        lemma_window_text(s, i, r, k, w, 0, j - i);
    }
}

/// The rest of a list reads the same wherever its bytes stand, whatever was read before.
pub proof fn lemma_window_items(
    s: Seq<u8>,
    i: int,
    before: Seq<Sexp>,
    r: Seq<u8>,
    k: int,
    other: Seq<Sexp>,
    w: int,
)
    requires
        window(s, i, r, k, w),
        items_at(s, i, before) matches Some((items, j)) && j <= i + w,
    ensures
        ({
            let (items, j) = items_at(s, i, before)->0;
            &&& before.len() <= items.len()
            &&& items.take(before.len() as int) == before
            &&& items_at(r, k, other) == Some(
                (other + items.skip(before.len() as int), k + (j - i)),
            )
        }),
    decreases s.len() - i, 1int,
{
    let (items, j) = items_at(s, i, before)->0;
    lemma_items_neutral(s, i, before);
    let p = past_blanks(s, i);
    lemma_blanks(s, i);
    if s[p] == 0x29 {
        lemma_window_blanks(s, i, r, k, w);
        assert(s[i + (p - i)] == r[k + (p - i)]);
        assert(items.skip(before.len() as int) =~= Seq::empty());
        assert(other + items.skip(before.len() as int) =~= other);
        assert(items.take(before.len() as int) =~= before);
    } else {
        let (n, m) = node_at(s, p)->0;
        lemma_node_neutral(s, p);
        lemma_items_neutral(s, m, before.push(n));
        lemma_window_blanks(s, i, r, k, w);
        assert(s[i + (p - i)] == r[k + (p - i)]);
        lemma_window_part(s, i, r, k, w, p - i, w - (p - i));
        lemma_window_node(s, p, r, k + (p - i), w - (p - i));
        lemma_window_part(s, i, r, k, w, m - i, w - (m - i));
        lemma_window_items(
            s,
            m,
            before.push(n),
            r,
            k + (m - i),
            other.push(n),
            w - (m - i),
        );
        lemma_node_neutral(r, k + (p - i));
        let q = before.len() as int;
        assert(items.take(q + 1) == before.push(n));
        assert(items[q] == items.take(q + 1)[q]);
        assert(items.take(q) =~= before) by {
            assert(items.take(q + 1).take(q) =~= items.take(q));
            assert(before.push(n).take(q) =~= before);
        }
        assert(other.push(n) + items.skip(q + 1) =~= other + items.skip(q));
    }
}

// ── Where nodes begin ────────────────────────────────────────────────────────

/// Reading the node at `i` comes to a node that begins at `a`.
pub open spec fn node_meets(s: Seq<u8>, i: int, a: int) -> bool
    decreases s.len() - i, 0int,
{
    i == a || (0 <= i < s.len() && s[i] == 0x28 && items_meet(s, i + 1, a))
}

/// Reading the rest of a list from `i` on comes to a node that begins at `a`.
pub open spec fn items_meet(s: Seq<u8>, i: int, a: int) -> bool
    decreases s.len() - i, 1int,
{
    let k = past_blanks(s, i);
    if k < i || k >= s.len() || s[k] == 0x29 {
        false
    } else {
        match node_at(s, k) {
            Some((n, j)) => k < j <= s.len() && (node_meets(s, k, a) || items_meet(s, j, a)),
            None => false,
        }
    }
}

/// A parenthesis that opens outside strings begins a node.
proof fn lemma_node_meets(s: Seq<u8>, i: int, a: int)
    requires
        node_at(s, i) matches Some((t, j)) && i <= a < j,
        s[a] == 0x28,
        !lex(s, i, a).quoted,
    ensures
        node_meets(s, i, a),
    decreases s.len() - i, 0int,
{
    let (t, j) = node_at(s, i)->0;
    lemma_node_neutral(s, i);
    if i < a {
        if s[i] == 0x28 {
            lemma_items_neutral(s, i + 1, Seq::empty());
            assert(lex(s, i, i + 1) == lex_step(lex(s, i, i), s[i]));
            lemma_lex_compose(s, i, i + 1, a);
            lemma_items_meet(s, i + 1, Seq::empty(), a);
        } else if s[i] == 0x22 {
            assert(lex(s, i, i + 1) == lex_step(lex(s, i, i), s[i]));
            lemma_string(s, i, i + 1);
            assert(lex(s, i, a).quoted);
        } else {
            lemma_word(s, i);
            assert(!is_delimiter(s[a]));
        }
    }
}

proof fn lemma_items_meet(s: Seq<u8>, i: int, before: Seq<Sexp>, a: int)
    requires
        0 <= i,
        items_at(s, i, before) matches Some((items, j)) && i <= a < j,
        s[a] == 0x28,
        !lex(s, i, a).quoted,
    ensures
        items_meet(s, i, a),
    decreases s.len() - i, 1int,
{
    let (items, j) = items_at(s, i, before)->0;
    let k = past_blanks(s, i);
    lemma_blanks(s, i);
    assert(a >= k) by {
        if a < k {
            assert(is_blank(s[a]));
        }
    }
    assert forall|m: int| i <= m < k implies (#[trigger] s[m]) != 0x22 && s[m] != 0x28 && s[m]
        != 0x29 by {
        assert(is_blank(s[m]));
    }
    lemma_lex_plain(s, i, k);
    if s[k] != 0x29 {
        let (n, m) = node_at(s, k)->0;
        lemma_node_neutral(s, k);
        if a < m {
            lemma_lex_compose(s, i, k, a);
            lemma_node_meets(s, k, a);
        } else {
            lemma_lex_compose(s, i, k, m);
            lemma_lex_compose(s, i, m, a);
            lemma_items_meet(s, m, before.push(n), a);
        }
    }
}

// ── One node for another ─────────────────────────────────────────────────────

/// The text `n` is one list, and so are the bytes of `s` from `a` to `e`; the
/// two lists are alike.
pub open spec fn exchanges(s: Seq<u8>, a: int, e: int, n: Seq<u8>) -> bool {
    &&& 0 <= a < e <= s.len()
    &&& s[a] == 0x28
    &&& n.len() > 0
    &&& n[0] == 0x28
    &&& node_at(s, a) matches Some((u, i)) && i == e
    &&& node_at(n, 0) matches Some((v, k)) && k == n.len()
    &&& alike((node_at(s, a)->0).0, (node_at(n, 0)->0).0)
}

proof fn lemma_splice_windows(s: Seq<u8>, a: int, e: int, n: Seq<u8>)
    requires
        exchanges(s, a, e, n),
    ensures
        ({
            let r = spliced(s, a, e, n);
            &&& r.len() == s.len() - (e - a) + n.len()
            &&& window(s, 0, r, 0, a + 1)
            &&& window(n, 0, r, a, n.len() as int)
            &&& window(s, e, r, a + n.len(), s.len() - e)
        }),
{
}

/// A node with a list in it exchanged for one alike is a node that is alike.
proof fn lemma_exchange_node(s: Seq<u8>, a: int, e: int, n: Seq<u8>, i: int) -> (t2: Sexp)
    requires
        exchanges(s, a, e, n),
        0 <= i <= a,
        node_at(s, i) is Some,
        node_meets(s, i, a),
    ensures
        ({
            let (t, j) = node_at(s, i)->0;
            &&& e <= j
            &&& alike(t, t2)
            &&& node_at(spliced(s, a, e, n), i) == Some((t2, j + n.len() - (e - a)))
        }),
    decreases s.len() - i, 0int,
{
    let r = spliced(s, a, e, n);
    let (t, j) = node_at(s, i)->0;
    lemma_splice_windows(s, a, e, n);
    lemma_node_neutral(s, i);
    if i == a {
        lemma_window_node(n, 0, r, a, n.len() as int);
        (node_at(n, 0)->0).0
    } else {
        assert(s[0 + i] == r[0 + i]);
        lemma_items_neutral(s, i + 1, Seq::empty());
        let items = (items_at(s, i + 1, Seq::empty())->0).0;
        let items2 = lemma_exchange_items(s, a, e, n, i + 1, Seq::empty(), Seq::empty());
        let t2 = Sexp::List(items2);
        lemma_all_alike(items, items2, items.len() as int);
        assert(alike(t, t2)) by {
            if items.len() > 0 {
                lemma_alike_head(items[0], items2[0]);
                assert(alike(items[0], items2[0]));
                assert(head(items[0]) is Some ==> items[0] is List);
                assert(head(t) == head(t2));
            }
        }
        t2
    }
}

proof fn lemma_exchange_items(
    s: Seq<u8>,
    a: int,
    e: int,
    n: Seq<u8>,
    i: int,
    before: Seq<Sexp>,
    before2: Seq<Sexp>,
) -> (items2: Seq<Sexp>)
    requires
        exchanges(s, a, e, n),
        0 <= i <= a,
        items_at(s, i, before) is Some,
        items_meet(s, i, a),
        before.len() == before2.len(),
        all_alike(before, before2, before.len() as int),
    ensures
        ({
            let (items, j) = items_at(s, i, before)->0;
            &&& e < j
            &&& items.len() == items2.len()
            &&& all_alike(items, items2, items.len() as int)
            &&& items_at(spliced(s, a, e, n), i, before2) == Some(
                (items2, j + n.len() - (e - a)),
            )
        }),
    decreases s.len() - i, 1int,
{
    let r = spliced(s, a, e, n);
    let (items, j) = items_at(s, i, before)->0;
    let k = past_blanks(s, i);
    lemma_blanks(s, i);
    lemma_splice_windows(s, a, e, n);
    let (nd, m) = node_at(s, k)->0;
    lemma_node_neutral(s, k);
    lemma_items_neutral(s, m, before.push(nd));
    lemma_meets_ahead(s, k, a);
    lemma_items_meet_ahead(s, m, a);
    lemma_window_part(s, 0, r, 0, a + 1, i, a + 1 - i);
    lemma_window_blanks(s, i, r, i, a + 1 - i);
    assert(s[0 + k] == r[0 + k]);
    if node_meets(s, k, a) {
        let nd2 = lemma_exchange_node(s, a, e, n, k);
        let d = n.len() - (e - a);
        lemma_window_part(s, e, r, a + n.len(), s.len() - e, m - e, s.len() - m);
        lemma_window_items(s, m, before.push(nd), r, m + d, before2.push(nd2), s.len() - m);
        lemma_node_neutral(r, k);
        let q = before.len() as int;
        let items2 = before2.push(nd2) + items.skip(q + 1);
        lemma_all_alike(before, before2, q);
        assert forall|x: int| 0 <= x < items.len() implies alike(#[trigger] items[x], items2[x]) by {
            if x < q {
                assert(items.take(q + 1)[x] == before.push(nd)[x]);
                assert(items2[x] == before2[x]);
                assert(alike(before[x], before2[x]));
            } else if x == q {
                assert(items.take(q + 1)[x] == before.push(nd)[x]);
                assert(items2[x] == nd2);
            } else {
                assert(items2[x] == items.skip(q + 1)[x - (q + 1)]);
                lemma_alike_self(items[x]);
            }
        }
        lemma_all_alike(items, items2, items.len() as int);
        items2
    } else {
        lemma_window_part(s, 0, r, 0, a + 1, k, a + 1 - k);
        lemma_window_node(s, k, r, k, a + 1 - k);
        lemma_alike_self(nd);
        lemma_all_alike(before, before2, before.len() as int);
        let b = before.push(nd);
        let b2 = before2.push(nd);
        assert forall|x: int| 0 <= x < b.len() implies alike(#[trigger] b[x], b2[x]) by {
            if x < before.len() {
                assert(alike(before[x], before2[x]));
            }
        }
        lemma_all_alike(b, b2, b.len() as int);
        lemma_exchange_items(s, a, e, n, m, b, b2)
    }
}

proof fn lemma_meets_ahead(s: Seq<u8>, i: int, a: int)
    ensures
        node_meets(s, i, a) ==> i <= a,
    decreases s.len() - i, 0int,
{
    if 0 <= i < s.len() && s[i] == 0x28 {
        lemma_items_meet_ahead(s, i + 1, a);
    }
}

proof fn lemma_items_meet_ahead(s: Seq<u8>, i: int, a: int)
    ensures
        items_meet(s, i, a) ==> i <= a,
    decreases s.len() - i, 1int,
{
    let k = past_blanks(s, i);
    lemma_blanks(s, i);
    if !(k < i || k >= s.len() || s[k] == 0x29) {
        if let Some((n, j)) = node_at(s, k) {
            if k < j <= s.len() {
                lemma_meets_ahead(s, k, a);
                lemma_items_meet_ahead(s, j, a);
            }
        }
    }
}

// ── Edits ────────────────────────────────────────────────────────────────────

/// An edit exchanges a list, outside strings, for one that is alike.
pub open spec fn exchanging(s: Seq<u8>, e: Edit) -> bool {
    exchanges(s, e.start, e.end, e.text) && !lex(s, 0, e.start).quoted
}

/// Every edit exchanges a list for one that is alike.
pub open spec fn all_exchanging(s: Seq<u8>, es: Seq<Edit>) -> bool {
    forall|i: int| 0 <= i < es.len() ==> exchanging(s, #[trigger] es[i])
}

proof fn lemma_placed_exchanging(s: Seq<u8>, sorted: Seq<Edit>, e: Edit)
    requires
        all_exchanging(s, sorted),
        exchanging(s, e),
    ensures
        all_exchanging(s, placed(sorted, e)),
    decreases sorted.len(),
{
    if sorted.len() > 0 && e.start > sorted[0].start {
        lemma_placed_exchanging(s, sorted.drop_first(), e);
    }
}

proof fn lemma_in_order_exchanging(s: Seq<u8>, es: Seq<Edit>)
    requires
        all_exchanging(s, es),
    ensures
        all_exchanging(s, in_order(es)),
    decreases es.len(),
{
    if es.len() > 0 {
        lemma_in_order_exchanging(s, es.drop_first());
        lemma_placed_exchanging(s, in_order(es.drop_first()), es[0]);
    }
}

proof fn lemma_lex_same(s: Seq<u8>, r: Seq<u8>, from: int, to: int)
    requires
        0 <= from,
        forall|m: int| from <= m < to ==> #[trigger] s[m] == r[m],
    ensures
        lex(s, from, to) == lex(r, from, to),
    decreases to - from,
{
    if from < to {
        lemma_lex_same(s, r, from, to - 1);
    }
}

/// The edits from a cursor on leave a node at `p` that is alike, and what
/// follows it.
proof fn lemma_rewritten_alike(s: Seq<u8>, sorted: Seq<Edit>, c: int, p: int) -> (r: (Sexp, int))
    requires
        all_exchanging(s, sorted),
        0 <= p <= c <= s.len(),
        node_at(s, p) matches Some((t, j)) && c <= j,
        lex(s, 0, p) == (Lex { depth: 0, quoted: false, escaped: false }),
        forall|i: int|
            0 <= i < sorted.len() ==> p <= (#[trigger] sorted[i]).start && sorted[i].end <= (node_at(
                s,
                p,
            )->0).1,
    ensures
        ({
            let (t, j) = node_at(s, p)->0;
            let full = s.take(c) + rewritten(s, sorted, c);
            &&& node_at(full, p) == Some(r)
            &&& alike(t, r.0)
            &&& c <= r.1 <= full.len()
            &&& full.skip(r.1) == s.skip(j)
        }),
    decreases sorted.len(),
{
    let (t, j) = node_at(s, p)->0;
    let full = s.take(c) + rewritten(s, sorted, c);
    lemma_node_neutral(s, p);
    if sorted.len() == 0 {
        assert(full =~= s);
        lemma_alike_self(t);
        (t, j)
    } else if sorted[0].start < c {
        lemma_rewritten_alike(s, sorted.drop_first(), c, p)
    } else {
        let e = sorted[0];
        assert(exchanging(s, e));
        let rest = sorted.drop_first();
        let (t1, j1) = lemma_rewritten_alike(s, rest, e.end, p);
        let mid = s.take(e.end) + rewritten(s, rest, e.end);
        assert(forall|m: int| 0 <= m < e.end ==> #[trigger] mid[m] == s[m]);
        assert(window(s, e.start, mid, e.start, e.end - e.start));
        lemma_window_node(s, e.start, mid, e.start, e.end - e.start);
        assert(exchanges(mid, e.start, e.end, e.text));
        lemma_lex_compose(s, 0, p, e.start);
        lemma_lex_same(s, mid, p, e.start);
        lemma_node_meets(mid, p, e.start);
        let t2 = lemma_exchange_node(mid, e.start, e.end, e.text, p);
        lemma_alike_transitive(t, t1, t2);
        let d = e.text.len() - (e.end - e.start);
        assert(full =~= spliced(mid, e.start, e.end, e.text));
        assert(full.skip(j1 + d) =~= mid.skip(j1));
        (t2, j1 + d)
    }
}

/// Edits that exchange coordinate lists for coordinate lists leave a text
/// that reads as it did, but for what the coordinate lists hold.
pub proof fn law_edits_read_alike(s: Seq<u8>, es: Seq<Edit>)
    requires
        parsed(s) is Some,
        all_exchanging(s, es),
    ensures
        parsed(edited(s, es)) matches Some(u) && alike(parsed(s)->0, u),
{
    let p = past_blanks(s, 0);
    let (t, j) = node_at(s, p)->0;
    let sorted = in_order(es);
    let full = edited(s, es);
    lemma_blanks(s, 0);
    lemma_blanks(s, j);
    lemma_node_neutral(s, p);
    lemma_in_order_exchanging(s, es);
    assert forall|m: int| 0 <= m < p implies (#[trigger] s[m]) != 0x22 && s[m] != 0x28 && s[m]
        != 0x29 by {
        assert(is_blank(s[m]));
    }
    lemma_lex_plain(s, 0, p);
    assert forall|i: int| 0 <= i < sorted.len() implies p <= (#[trigger] sorted[i]).start
        && sorted[i].end <= j by {
        let e = sorted[i];
        assert(exchanging(s, e));
        if e.start < p {
            assert(is_blank(s[e.start]));
        }
        if e.start >= j {
            assert(is_blank(s[e.start]));
        }
        lemma_lex_compose(s, 0, p, e.start);
        lemma_node_meets(s, p, e.start);
        let t2 = lemma_exchange_node(s, e.start, e.end, e.text, p);
    }
    let (u, k) = lemma_rewritten_alike(s, sorted, p, p);
    assert(full =~= s.take(p) + rewritten(s, sorted, p)) by {
        if sorted.len() > 0 {
            assert(sorted[0].start >= p);
        }
    }
    lemma_node_neutral(full, p);
    lemma_blanks(full, 0);
    lemma_blanks(full, k);
    assert(past_blanks(full, 0) == p) by {
        let q = past_blanks(full, 0);
        if q < p {
            assert(full[q] == s[q]);
        }
        if q > p {
            assert(is_blank(full[p]));
        }
    }
    assert(past_blanks(full, k) >= full.len()) by {
        let q = past_blanks(full, k);
        assert(full.skip(k).len() == s.skip(j).len());
        if q < full.len() {
            assert(full.skip(k)[q - k] == s.skip(j)[q - k]);
            assert(is_blank(s[j + (q - k)]));
        }
    }
}

// ── Reading back what is written ─────────────────────────────────────────────

/// A text that stands as one bare word.
pub open spec fn is_word(w: Seq<u8>) -> bool {
    w.len() > 0 && forall|i: int| 0 <= i < w.len() ==> !is_delimiter(#[trigger] w[i])
}

proof fn lemma_word_until(s: Seq<u8>, i: int, end: int)
    requires
        i <= end <= s.len(),
        forall|m: int| i <= m < end ==> !is_delimiter(#[trigger] s[m]),
        end < s.len() ==> is_delimiter(s[end]),
    ensures
        word_end(s, i) == end,
    decreases end - i,
{
    if i < end {
        lemma_word_until(s, i + 1, end);
    }
}

/// A bare word that a delimiter follows reads as itself.
pub proof fn lemma_word_node(s: Seq<u8>, i: int, w: Seq<u8>)
    requires
        is_word(w),
        window(w, 0, s, i, w.len() as int),
        i + w.len() < s.len(),
        is_delimiter(s[i + w.len()]),
    ensures
        node_at(s, i) == Some((Sexp::Atom(w), i + w.len())),
        past_blanks(s, i) == i,
{
    assert(w[0] == s[i + 0]);
    assert(!is_delimiter(w[0]));
    assert forall|m: int| i <= m < i + w.len() implies !is_delimiter(#[trigger] s[m]) by {
        assert(w[0 + (m - i)] == s[i + (m - i)]);
    }
    lemma_word_until(s, i, i + w.len());
    lemma_window_text(w, 0, s, i, w.len() as int, 0, w.len() as int);
    assert(w.subrange(0, w.len() as int) =~= w);
}

/// The bytes of a block that read as one list are one node.
pub proof fn lemma_block_node(s: Seq<u8>, a: int, e: int)
    requires
        crate::scan::block_end(s, a) == Some(e),
        parsed(s.subrange(a, e)) is Some,
    ensures
        0 <= a < e <= s.len(),
        s[a] == 0x28,
        node_at(s, a) == Some((parsed(s.subrange(a, e))->0, e)),
{
    let b = s.subrange(a, e);
    crate::scan::lemma_block_end(s, a);
    assert(b[0] == s[a]);
    let (t, j) = node_at(b, 0)->0;
    lemma_node_neutral(b, 0);
    crate::scan::lemma_lex_within(s, a, e, 0, j);
    assert(j == b.len()) by {
        if j < b.len() {
            assert(lex(s, a, a + j).depth > 0);
        }
    }
    assert(window(b, 0, s, a, b.len() as int));
    lemma_window_node(b, 0, s, a, b.len() as int);
}

/// A list that a scan finds by its head has that head.
pub proof fn lemma_block_head(s: Seq<u8>, tag: Seq<u8>, a: int)
    requires
        crate::scan::is_block_start(s, tag, a),
        is_word(tag),
        node_at(s, a) is Some,
    ensures
        head((node_at(s, a)->0).0) == Some(tag),
{
    let (t, j) = node_at(s, a)->0;
    let w = tag.len() as int;
    assert(s.subrange(a + 1, a + 1 + w) == tag);
    assert forall|m: int| 0 <= m < w implies tag[0 + m] == #[trigger] s[a + 1 + m] by {
        assert(s.subrange(a + 1, a + 1 + w)[m] == tag[m]);
    }
    assert(window(tag, 0, s, a + 1, w));
    lemma_node_neutral(s, a);
    assert(tag[0] == s[a + 1 + 0]);
    assert(!is_delimiter(tag[0]));
    if a + 1 + w == s.len() {
        assert forall|m: int| a + 1 <= m < a + 1 + w implies !is_delimiter(#[trigger] s[m]) by {
            assert(tag[0 + (m - a - 1)] == s[a + 1 + (m - a - 1)]);
        }
        lemma_word_until(s, a + 1, a + 1 + w);
        assert(past_blanks(s, a + 1) == a + 1);
        let rest = Seq::<Sexp>::empty().push(Sexp::Atom(s.subrange(a + 1, a + 1 + w)));
        assert(s[a + 1] == tag[0]);
        assert(node_at(s, a + 1) == Some((Sexp::Atom(s.subrange(a + 1, a + 1 + w)), a + 1 + w)));
        assert(items_at(s, a + 1 + w, rest) is None);
        assert(items_at(s, a + 1, Seq::empty()) is None);
    } else {
        lemma_word_node(s, a + 1, tag);
        lemma_items_neutral(s, a + 1, Seq::empty());
        let none = Seq::<Sexp>::empty();
        let k = a + 1 + w;
        let items = (items_at(s, a + 1, none)->0).0;
        assert(items_at(s, k, none.push(Sexp::Atom(tag))) is Some);
        lemma_items_neutral(s, k, none.push(Sexp::Atom(tag)));
        assert(window(s, k, s, k, s.len() - k));
        lemma_window_items(
            s,
            k,
            none.push(Sexp::Atom(tag)),
            s,
            k,
            none.push(Sexp::Atom(tag)),
            s.len() - k,
        );
        assert(items.take(1) == none.push(Sexp::Atom(tag)));
        assert(items[0] == items.take(1)[0]);
    }
}

/// A blank and a bare word in a list read as one more item.
proof fn lemma_word_item(n: Seq<u8>, i: int, w: Seq<u8>, before: Seq<Sexp>)
    requires
        0 <= i,
        is_word(w),
        window(w, 0, n, i + 1, w.len() as int),
        i + 1 + w.len() < n.len(),
        n[i] == 0x20,
        is_delimiter(n[i + 1 + w.len()]),
    ensures
        items_at(n, i, before) == items_at(n, i + 1 + w.len(), before.push(Sexp::Atom(w))),
{
    lemma_word_node(n, i + 1, w);
    assert(past_blanks(n, i) == past_blanks(n, i + 1));
    assert(w[0] == n[i + 1 + 0]);
    assert(!is_delimiter(w[0]));
}

/// A coordinate list of bare words reads as one list with its head.
pub proof fn lemma_coord_list(tag: Seq<u8>, x: Seq<u8>, y: Seq<u8>, rotation: Option<Seq<u8>>)
    requires
        is_word(tag),
        is_word(coordinate(x)),
        is_word(coordinate(y)),
        rotation matches Some(r) ==> is_word(coordinate(r)),
    ensures
        ({
            let n = coord_list(tag, x, y, rotation);
            &&& n.len() > 0
            &&& n[0] == 0x28
            &&& node_at(n, 0) matches Some((v, k)) && k == n.len() && head(v) == Some(tag)
            &&& (node_at(n, 0)->0).0 == Sexp::List(
                seq![Sexp::Atom(tag), Sexp::Atom(coordinate(x)), Sexp::Atom(coordinate(y))]
                    + match rotation {
                    Some(r) => seq![Sexp::Atom(coordinate(r))],
                    None => Seq::empty(),
                },
            )
            &&& is_block_start(n, tag, 0)
            &&& 1 + tag.len() < n.len()
        }),
{
    let n = coord_list(tag, x, y, rotation);
    let cx = coordinate(x);
    let cy = coordinate(y);
    reveal_strlit("(");
    reveal_strlit(")");
    reveal_strlit(" ");
    crate::text::lemma_one_byte("("@);
    crate::text::lemma_one_byte(")"@);
    crate::text::lemma_one_byte(" "@);
    let none = Seq::<Sexp>::empty();
    let p1 = 1 + tag.len() as int;
    let p2 = p1 + 1 + cx.len();
    let p3 = p2 + 1 + cy.len();
    assert(window(tag, 0, n, 1, tag.len() as int));
    assert(n[p1] == 0x20);
    assert(window(cx, 0, n, p1 + 1, cx.len() as int));
    assert(n[p2] == 0x20);
    assert(window(cy, 0, n, p2 + 1, cy.len() as int));
    lemma_word_node(n, 1, tag);
    assert(tag[0] == n[1]);
    assert(!is_delimiter(tag[0]));
    assert(n.subrange(1, p1) =~= tag);
    let b1 = none.push(Sexp::Atom(tag));
    assert(items_at(n, 1, none) == items_at(n, p1, b1));
    lemma_word_item(n, p1, cx, b1);
    let b2 = b1.push(Sexp::Atom(cx));
    match rotation {
        Some(r) => {
            let cr = coordinate(r);
            let p4 = p3 + 1 + cr.len();
            assert(n[p3] == 0x20);
            assert(window(cr, 0, n, p3 + 1, cr.len() as int));
            assert(n[p4] == 0x29);
            lemma_word_item(n, p2, cy, b2);
            let b3 = b2.push(Sexp::Atom(cy));
            lemma_word_item(n, p3, cr, b3);
            let b4 = b3.push(Sexp::Atom(cr));
            assert(past_blanks(n, p4) == p4);
            assert(items_at(n, p4, b4) == Some((b4, p4 + 1)));
            assert(b4[0] == Sexp::Atom(tag));
            assert(b4 =~= seq![Sexp::Atom(tag), Sexp::Atom(cx), Sexp::Atom(cy)] + seq![
                Sexp::Atom(cr),
            ]);
            assert(n.len() == p4 + 1);
        },
        None => {
            assert(n[p3] == 0x29);
            lemma_word_item(n, p2, cy, b2);
            let b3 = b2.push(Sexp::Atom(cy));
            assert(past_blanks(n, p3) == p3);
            assert(items_at(n, p3, b3) == Some((b3, p3 + 1)));
            assert(b3[0] == Sexp::Atom(tag));
            assert(b3 =~= seq![Sexp::Atom(tag), Sexp::Atom(cx), Sexp::Atom(cy)]
                + Seq::<Sexp>::empty());
            assert(n.len() == p3 + 1);
        },
    }
}

/// The heads of coordinate lists are bare words.
pub proof fn lemma_coord_heads()
    ensures
        is_word(utf8("at"@)),
        is_word(utf8("start"@)),
        is_word(utf8("end"@)),
        is_word(utf8("xy"@)),
{
    reveal_strlit("at");
    reveal_strlit("start");
    reveal_strlit("end");
    reveal_strlit("xy");
    vstd::utf8::is_ascii_chars_encode_utf8("at"@);
    vstd::utf8::is_ascii_chars_encode_utf8("start"@);
    vstd::utf8::is_ascii_chars_encode_utf8("end"@);
    vstd::utf8::is_ascii_chars_encode_utf8("xy"@);
    assert(utf8("at"@) =~= seq![0x61u8, 0x74]);
    assert(utf8("start"@) =~= seq![0x73u8, 0x74, 0x61, 0x72, 0x74]);
    assert(utf8("end"@) =~= seq![0x65u8, 0x6e, 0x64]);
    assert(utf8("xy"@) =~= seq![0x78u8, 0x79]);
}

/// A site is a coordinate list of the block, outside strings, that can be read.
pub open spec fn site_good(block: Seq<u8>, site: Site) -> bool {
    &&& block_end(block, site.start) == Some(site.end)
    &&& !lex(block, 0, site.start).quoted
    &&& coord_head(site.tag)
    &&& parsed(block.subrange(site.start, site.end)) matches Some(u) && head(u) == Some(site.tag)
}

/// The first list under a coordinate tag that can be read is such a site.
pub proof fn lemma_list_site(block: Seq<u8>, tag: Seq<u8>, site: Site)
    requires
        coord_head(tag),
        crate::coord::coord_range(block, tag) == Some((site.start, site.end)),
        parsed(block.subrange(site.start, site.end)) is Some,
        site.tag == tag,
    ensures
        site_good(block, site),
        crate::scan::is_block_start(block, tag, site.start),
{
    lemma_coord_heads();
    lemma_starts_below(block, tag, block.len() as int);
    assert(crate::scan::is_block_start(
        block,
        tag,
        crate::scan::block_starts(block, tag)[0],
    ));
    lemma_block_node(block, site.start, site.end);
    lemma_block_head(block, tag, site.start);
}

/// New numbers for a site, written as bare words, are an exchange.
pub proof fn lemma_site_exchanging(
    block: Seq<u8>,
    site: Site,
    x: Seq<u8>,
    y: Seq<u8>,
    rotation: Option<Seq<u8>>,
)
    requires
        site_good(block, site),
        is_word(coordinate(x)),
        is_word(coordinate(y)),
        rotation matches Some(r) ==> is_word(coordinate(r)),
    ensures
        exchanging(
            block,
            (Edit {
                start: site.start,
                end: site.end,
                text: coord_list(site.tag, x, y, rotation),
            }),
        ),
{
    lemma_coord_heads();
    lemma_coord_list(site.tag, x, y, rotation);
    lemma_block_node(block, site.start, site.end);
}

/// Edits that exchange lists of a block leave a block: one list from end to end.
pub proof fn lemma_edited_block(b: Seq<u8>, es: Seq<Edit>)
    requires
        node_at(b, 0) matches Some((t, k)) && k == b.len(),
        all_exchanging(b, es),
    ensures
        node_at(edited(b, es), 0) matches Some((u, k)) && k == edited(b, es).len() && alike(
            (node_at(b, 0)->0).0,
            u,
        ),
{
    let sorted = in_order(es);
    lemma_in_order_exchanging(b, es);
    let (u, k) = lemma_rewritten_alike(b, sorted, 0, 0);
    let full = edited(b, es);
    assert(b.take(0) + rewritten(b, sorted, 0) =~= full);
    assert(full.skip(k).len() == b.skip(b.len() as int).len());
}

// ── What alike trees share ───────────────────────────────────────────────────

proof fn lemma_alike_first(a: Seq<Sexp>, b: Seq<Sexp>, tag: Seq<u8>, i: int)
    requires
        0 <= i,
        a.len() == b.len(),
        all_alike(a, b, a.len() as int),
    ensures
        match first_headed(a, tag, i) {
            Some(t) => first_headed(b, tag, i) matches Some(u) && alike(t, u) && head(t) == Some(
                tag,
            ),
            None => first_headed(b, tag, i) is None,
        },
    decreases a.len() - i,
{
    if i < a.len() {
        lemma_all_alike(a, b, a.len() as int);
        assert(alike(a[i], b[i]));
        lemma_alike_head(a[i], b[i]);
        lemma_alike_first(a, b, tag, i + 1);
    }
}

/// Trees that are alike hold the same text under every head that is not that
/// of a coordinate list: the same uuid, library, and all else.
pub proof fn law_alike_same_text(t: Sexp, u: Sexp, tag: Seq<u8>)
    requires
        alike(t, u),
        !coord_head(tag),
        !(head(t) matches Some(h) && coord_head(h)),
    ensures
        head(t) == head(u),
        found(t, tag) is Some == found(u, tag) is Some,
        found_text(t, tag) == found_text(u, tag),
{
    lemma_alike_head(t, u);
    if let (Sexp::List(a), Sexp::List(b)) = (t, u) {
        lemma_alike_first(a, b, tag, 0);
        if let (Some(c), Some(d)) = (first_headed(a, tag, 0), first_headed(b, tag, 0)) {
            if let (Sexp::List(x), Sexp::List(y)) = (c, d) {
                lemma_all_alike(x, y, x.len() as int);
                if x.len() > 1 {
                    assert(alike(x[1], y[1]));
                    lemma_alike_head(x[1], y[1]);
                }
            }
        }
    }
}

/// The bytes of a block are a block of their own.
pub proof fn lemma_block_of_itself(s: Seq<u8>, a: int, e: int)
    requires
        block_end(s, a) == Some(e),
    ensures
        block_end(s.subrange(a, e), 0) == Some(e - a),
{
    let b = s.subrange(a, e);
    crate::scan::lemma_block_end(s, a);
    assert(b[0] == s[a]);
    assert forall|k: int| 0 < k < e - a implies (#[trigger] lex(b, 0, k)).depth > 0 by {
        crate::scan::lemma_lex_within(s, a, e, 0, k);
        assert(lex(s, a, a + k).depth > 0);
    }
    crate::scan::lemma_lex_within(s, a, e, 0, e - a);
    lemma_close_at(b, 0, 1, e - a);
}

proof fn lemma_close_at(b: Seq<u8>, start: int, i: int, e: int)
    requires
        start < i <= e <= b.len(),
        forall|k: int| i <= k < e ==> (#[trigger] lex(b, start, k)).depth > 0,
        lex(b, start, e).depth == 0,
    ensures
        crate::scan::close_from(b, start, i) == Some(e),
    decreases e - i,
{
    if i < e {
        assert(lex(b, start, i).depth > 0);
        lemma_close_at(b, start, i + 1, e);
    }
}

/// No list closes inside a node that it did not open; a list stays open up to
/// its end.
proof fn lemma_node_depth(s: Seq<u8>, i: int)
    ensures
        node_at(s, i) matches Some((t, j)) ==> forall|m: int|
            i < m < j ==> (#[trigger] lex(s, i, m)).depth >= if s[i] == 0x28 {
                1int
            } else {
                0
            },
    decreases s.len() - i, 0int,
{
    if let Some((t, j)) = node_at(s, i) {
        assert(lex(s, i, i + 1) == lex_step(lex(s, i, i), s[i]));
        if s[i] == 0x28 {
            lemma_items_depth(s, i + 1, Seq::empty());
            assert forall|m: int| i < m < j implies (#[trigger] lex(s, i, m)).depth >= 1 by {
                lemma_lex_compose(s, i, i + 1, m);
                assert(lex(s, i + 1, m).depth >= 0);
            }
        } else if s[i] == 0x22 {
            lemma_string(s, i, i + 1);
        } else {
            lemma_word(s, i);
            assert forall|m: int| i < m < j implies (#[trigger] lex(s, i, m)).depth >= 0 by {
                assert forall|n: int| i <= n < m implies (#[trigger] s[n]) != 0x22 && s[n] != 0x28
                    && s[n] != 0x29 by {
                    assert(!is_delimiter(s[n]));
                }
                lemma_lex_plain(s, i, m);
            }
        }
    }
}

proof fn lemma_items_depth(s: Seq<u8>, i: int, before: Seq<Sexp>)
    requires
        0 <= i,
    ensures
        items_at(s, i, before) matches Some((items, j)) ==> forall|m: int|
            i <= m < j ==> (#[trigger] lex(s, i, m)).depth >= 0,
    decreases s.len() - i, 1int,
{
    if let Some((items, j)) = items_at(s, i, before) {
        let k = past_blanks(s, i);
        lemma_blanks(s, i);
        assert forall|m: int| i <= m < k implies (#[trigger] s[m]) != 0x22 && s[m] != 0x28 && s[m]
            != 0x29 by {
            assert(is_blank(s[m]));
        }
        lemma_lex_plain(s, i, k);
        if s[k] != 0x29 {
            let (n, e) = node_at(s, k)->0;
            lemma_node_neutral(s, k);
            lemma_node_depth(s, k);
            lemma_items_depth(s, e, before.push(n));
            lemma_lex_compose(s, i, k, e);
        }
        assert forall|m: int| i <= m < j implies (#[trigger] lex(s, i, m)).depth >= 0 by {
            if m <= k {
                lemma_lex_plain(s, i, m);
            } else {
                let e = (node_at(s, k)->0).1;
                if m < e {
                    lemma_lex_compose(s, i, k, m);
                    assert(lex(s, k, m).depth >= 0);
                } else {
                    lemma_lex_compose(s, i, e, m);
                    assert(lex(s, e, m).depth >= 0);
                }
            }
        }
    }
}

/// A list is read up to the end of its block.
pub proof fn lemma_list_end(s: Seq<u8>, i: int)
    requires
        node_at(s, i) is Some,
        s[i] == 0x28,
    ensures
        block_end(s, i) == Some((node_at(s, i)->0).1),
{
    lemma_node_neutral(s, i);
    lemma_node_depth(s, i);
    lemma_close_at(s, i, i + 1, (node_at(s, i)->0).1);
}

/// From `i` on nothing is closed that was open before, until at `e` one list is.
spec fn closes(s: Seq<u8>, i: int, e: int) -> bool {
    &&& 0 <= i < e <= s.len()
    &&& lex(s, i, e).depth == -1
    &&& forall|k: int| i <= k < e ==> (#[trigger] lex(s, i, k)).depth >= 0
}

/// The same, further on.
proof fn lemma_closes_from(s: Seq<u8>, i: int, j: int, e: int)
    requires
        closes(s, i, e),
        i <= j < e,
        lex(s, i, j) == (Lex { depth: 0, quoted: false, escaped: false }),
    ensures
        closes(s, j, e),
{
    assert forall|k: int| j <= k < e implies (#[trigger] lex(s, j, k)).depth >= 0 by {
        lemma_lex_compose(s, i, j, k);
        assert(lex(s, i, k).depth >= 0);
    }
    lemma_lex_compose(s, i, j, e);
}

/// What closes a list stands outside strings.
proof fn lemma_closes_last(s: Seq<u8>, i: int, e: int)
    requires
        closes(s, i, e),
    ensures
        !lex(s, i, e - 1).quoted,
        lex(s, i, e - 1).depth == 0,
{
    assert(lex(s, i, e) == lex_step(lex(s, i, e - 1), s[e - 1]));
    assert(lex(s, i, e - 1).depth >= 0);
}

/// A string without a closing quote goes on to the end.
proof fn lemma_unclosed(s: Seq<u8>, b: int, i: int, m: int)
    requires
        b <= i <= m <= s.len(),
        lex(s, b, i).quoted,
        !lex(s, b, i).escaped,
        closing_quote(s, i) is None,
    ensures
        lex(s, b, m).quoted,
    decreases s.len() - i + 1,
{
    if i < m {
        assert(lex(s, b, i + 1) == lex_step(lex(s, b, i), s[i]));
        if s[i] == 0x5c {
            if i + 1 < m {
                assert(lex(s, b, i + 2) == lex_step(lex(s, b, i + 1), s[i + 1]));
                lemma_unclosed(s, b, i + 2, m);
            }
        } else {
            lemma_unclosed(s, b, i + 1, m);
        }
    }
}

/// The items of a list that is closed can be read.
proof fn lemma_items_read(s: Seq<u8>, i: int, e: int, before: Seq<Sexp>)
    requires
        closes(s, i, e),
    ensures
        items_at(s, i, before) matches Some((items, j)) && j == e,
    decreases e - i, 1int,
{
    let k = past_blanks(s, i);
    lemma_blanks(s, i);
    let m = if k < e {
        k
    } else {
        e
    };
    assert forall|x: int| i <= x < m implies (#[trigger] s[x]) != 0x22 && s[x] != 0x28 && s[x]
        != 0x29 by {
        assert(is_blank(s[x]));
    }
    lemma_lex_plain(s, i, m);
    assert(k < e);
    lemma_closes_from(s, i, k, e);
    assert(lex(s, k, k + 1) == lex_step(lex(s, k, k), s[k]));
    if s[k] == 0x29 {
        if k + 1 < e {
            assert(lex(s, k, k + 1).depth >= 0);
        }
    } else {
        lemma_node_reads(s, k, e);
        let (n, j) = node_at(s, k)->0;
        lemma_node_neutral(s, k);
        lemma_closes_from(s, k, j, e);
        lemma_items_read(s, j, e, before.push(n));
    }
}

/// A node in a list that is closed can be read.
proof fn lemma_node_reads(s: Seq<u8>, k: int, e: int)
    requires
        closes(s, k, e),
        s[k] != 0x29,
        !is_blank(s[k]),
    ensures
        node_at(s, k) matches Some((n, j)) && k < j < e,
    decreases e - k, 0int,
{
    lemma_closes_last(s, k, e);
    assert(lex(s, k, k + 1) == lex_step(lex(s, k, k), s[k]));
    if s[k] == 0x28 {
        crate::scan::lemma_closed_by(s, k, k + 1, e - 1);
        lemma_block_closes(s, k);
        lemma_items_read(s, k + 1, block_end(s, k)->0, Seq::empty());
    } else if s[k] == 0x22 {
        if closing_quote(s, k + 1) is None {
            lemma_unclosed(s, k, k + 1, e - 1);
        } else {
            lemma_string(s, k, k + 1);
            let q = closing_quote(s, k + 1)->0;
            if e - 1 <= q {
                assert(lex(s, k, e - 1).quoted);
            }
        }
    } else {
        lemma_word(s, k);
        let w = word_end(s, k);
        if w >= e {
            assert forall|x: int| k <= x < e implies (#[trigger] s[x]) != 0x22 && s[x] != 0x28
                && s[x] != 0x29 by {
                assert(!is_delimiter(s[x]));
            }
            lemma_lex_plain(s, k, e);
        }
    }
}

/// What follows the parenthesis that opens a block closes the block.
proof fn lemma_block_closes(s: Seq<u8>, a: int)
    requires
        block_end(s, a) is Some,
    ensures
        closes(s, a + 1, block_end(s, a)->0),
{
    let e = block_end(s, a)->0;
    crate::scan::lemma_block_end(s, a);
    assert(lex(s, a, a + 1) == lex_step(lex(s, a, a), s[a]));
    assert forall|k: int| a + 1 <= k < e implies (#[trigger] lex(s, a + 1, k)).depth >= 0 by {
        lemma_lex_compose(s, a, a + 1, k);
        assert(lex(s, a, k).depth > 0);
    }
    lemma_lex_compose(s, a, a + 1, e);
}

/// Every block reads as a list.
pub proof fn lemma_block_reads(s: Seq<u8>, a: int)
    requires
        block_end(s, a) is Some,
    ensures
        node_at(s, a) matches Some((v, j)) && block_end(s, a) == Some(j) && v is List,
{
    crate::scan::lemma_block_end(s, a);
    lemma_block_closes(s, a);
    lemma_items_read(s, a + 1, block_end(s, a)->0, Seq::empty());
}

/// A text that can be read, with a list open before `h` that is not in a
/// string: it is one list, which reaches beyond `h`.
pub proof fn lemma_root(s: Seq<u8>, a: int, h: int)
    requires
        parsed(s) is Some,
        0 <= a < h < s.len(),
        s[a] == 0x28,
        !lex(s, 0, a).quoted,
        !is_blank(s[h]),
    ensures
        ({
            let p = past_blanks(s, 0);
            &&& 0 <= p <= a
            &&& lex(s, 0, p) == (Lex { depth: 0, quoted: false, escaped: false })
            &&& block_end(s, p) matches Some(j) && h < j && forall|m: int|
                j <= m < s.len() ==> is_blank(#[trigger] s[m])
        }),
{
    let p = past_blanks(s, 0);
    let (v, j) = node_at(s, p)->0;
    lemma_blanks(s, 0);
    lemma_blanks(s, j);
    lemma_node_neutral(s, p);
    assert forall|m: int| j <= m < s.len() implies is_blank(#[trigger] s[m]) by {}
    assert forall|x: int| 0 <= x < p implies (#[trigger] s[x]) != 0x22 && s[x] != 0x28 && s[x]
        != 0x29 by {
        assert(is_blank(s[x]));
    }
    lemma_lex_plain(s, 0, p);
    if a < p {
        assert(is_blank(s[a]));
    }
    if h >= j {
        assert(is_blank(s[h]));
    }
    if s[p] == 0x22 {
        assert(lex(s, p, p + 1) == lex_step(lex(s, p, p), s[p]));
        lemma_string(s, p, p + 1);
        lemma_lex_compose(s, 0, p, a);
        assert(lex(s, p, a).quoted);
    } else if s[p] != 0x28 {
        lemma_word(s, p);
        assert(!is_delimiter(s[a]));
    }
    lemma_list_end(s, p);
}

/// A text that reads as one list from end to end is one block.
pub proof fn lemma_list_block(b: Seq<u8>)
    requires
        node_at(b, 0) matches Some((v, k)) && k == b.len() && v is List,
    ensures
        block_end(b, 0) == Some(b.len() as int),
{
    lemma_node_neutral(b, 0);
    lemma_node_depth(b, 0);
    lemma_close_at(b, 0, 1, b.len() as int);
}

/// A text that reads as one list from end to end begins with a parenthesis.
pub proof fn lemma_list_bytes(n: Seq<u8>)
    requires
        node_at(n, 0) matches Some((v, k)) && k == n.len() && v is List,
    ensures
        n.len() > 0,
        n[0] == 0x28,
{
}

/// The items of alike trees have the same heads, and the same text where they are texts.
pub proof fn lemma_alike_items(t: Sexp, u: Sexp)
    requires
        alike(t, u),
        !(head(t) matches Some(h) && coord_head(h)),
    ensures
        (t is List) == (u is List),
        (t, u) matches (Sexp::List(a), Sexp::List(b)) ==> {
            &&& a.len() == b.len()
            &&& forall|i: int| 0 <= i < a.len() ==> head(#[trigger] a[i]) == head(b[i])
            &&& forall|i: int| 0 <= i < a.len() ==> text_of(#[trigger] a[i]) == text_of(b[i])
        },
{
    if let (Sexp::List(a), Sexp::List(b)) = (t, u) {
        lemma_all_alike(a, b, a.len() as int);
        assert forall|i: int| 0 <= i < a.len() implies head(#[trigger] a[i]) == head(b[i]) && text_of(
            a[i],
        ) == text_of(b[i]) by {
            assert(alike(a[i], b[i]));
            lemma_alike_head(a[i], b[i]);
        }
    }
}

/// What is like a list is a list.
pub proof fn lemma_alike_list(t: Sexp, u: Sexp)
    requires
        alike(t, u),
        t is List,
    ensures
        u is List,
{
}

} // verus!
