//! Edits to byte ranges of a text, collected first and applied together.

use vstd::prelude::*;
use vstd::string::StringExecFns;
use vstd::utf8::is_char_boundary;
use crate::text::{byte_len, lemma_end_boundary, lemma_utf8_add, occurs_at, spliced, substr, utf8};

verus! {

/// Replace the bytes from `start` up to `end` with `text`.
pub struct SexpEdit {
    pub start: usize,
    pub end: usize,
    pub text: String,
}

/// An edit as a mathematical value.
#[verifier::ext_equal]
pub struct Edit {
    pub start: int,
    pub end: int,
    pub text: Seq<u8>,
}

impl View for SexpEdit {
    type V = Edit;

    open spec fn view(&self) -> Edit {
        Edit { start: self.start as int, end: self.end as int, text: utf8(self.text@) }
    }
}

/// Edits as mathematical values.
pub open spec fn edit_views(v: Seq<SexpEdit>) -> Seq<Edit> {
    v.map_values(|e: SexpEdit| e@)
}

/// The edit covers a range of `s` that begins and ends between characters.
pub open spec fn fits(e: Edit, s: Seq<u8>) -> bool {
    &&& 0 <= e.start <= e.end <= s.len()
    &&& is_char_boundary(s, e.start)
    &&& is_char_boundary(s, e.end)
}

/// Every edit covers a range of `s` that begins and ends between characters.
pub open spec fn all_fit(es: Seq<Edit>, s: Seq<u8>) -> bool {
    forall|i: int| 0 <= i < es.len() ==> fits(#[trigger] es[i], s)
}

/// `e` put before the first edit that does not start before it.
pub open spec fn placed(sorted: Seq<Edit>, e: Edit) -> Seq<Edit>
    decreases sorted.len(),
{
    if sorted.len() == 0 {
        seq![e]
    } else if e.start <= sorted[0].start {
        seq![e] + sorted
    } else {
        seq![sorted[0]] + placed(sorted.drop_first(), e)
    }
}

/// The edits by ascending start; those that start together keep their order.
pub open spec fn in_order(es: Seq<Edit>) -> Seq<Edit>
    decreases es.len(),
{
    if es.len() == 0 {
        Seq::empty()
    } else {
        placed(in_order(es.drop_first()), es[0])
    }
}

/// The text from `cursor` on with ordered edits made. An edit that starts
/// before the cursor overlaps the one before it and is left out.
pub open spec fn rewritten(s: Seq<u8>, sorted: Seq<Edit>, cursor: int) -> Seq<u8>
    decreases sorted.len(),
{
    if sorted.len() == 0 {
        s.subrange(cursor, s.len() as int)
    } else if sorted[0].start < cursor {
        rewritten(s, sorted.drop_first(), cursor)
    } else {
        s.subrange(cursor, sorted[0].start) + sorted[0].text + rewritten(
            s,
            sorted.drop_first(),
            sorted[0].end,
        )
    }
}

/// The text with all edits made.
pub open spec fn edited(s: Seq<u8>, es: Seq<Edit>) -> Seq<u8> {
    rewritten(s, in_order(es), 0)
}

/// A single edit is a splice.
pub proof fn lemma_one_edit(s: Seq<u8>, e: Edit)
    requires
        0 <= e.start <= e.end <= s.len(),
    ensures
        edited(s, seq![e]) == spliced(s, e.start, e.end, e.text),
{
    let es = seq![e];
    assert(es.drop_first() =~= Seq::<Edit>::empty());
    assert(in_order(es.drop_first()) =~= Seq::<Edit>::empty());
    assert(in_order(es) =~= seq![e]);
    assert(in_order(es).drop_first() =~= Seq::<Edit>::empty());
    assert(rewritten(s, in_order(es).drop_first(), e.end) == s.subrange(e.end, s.len() as int));
    assert(edited(s, es) =~= spliced(s, e.start, e.end, e.text));
}

/// No edits change nothing.
pub proof fn lemma_no_edit(s: Seq<u8>)
    ensures
        edited(s, Seq::<Edit>::empty()) == s,
{
    assert(in_order(Seq::<Edit>::empty()) =~= Seq::<Edit>::empty());
    assert(s.subrange(0, s.len() as int) =~= s);
}

proof fn lemma_placed(sorted: Seq<Edit>, e: Edit, j: int)
    requires
        0 <= j <= sorted.len(),
        forall|i: int| 0 <= i < j ==> (#[trigger] sorted[i]).start < e.start,
        j < sorted.len() ==> e.start <= sorted[j].start,
    ensures
        placed(sorted, e) == sorted.insert(j, e),
    decreases j,
{
    if j == 0 {
        assert(placed(sorted, e) =~= sorted.insert(0, e));
    } else {
        lemma_placed(sorted.drop_first(), e, j - 1);
        assert(placed(sorted, e) =~= sorted.insert(j, e));
    }
}

proof fn lemma_placed_fit(sorted: Seq<Edit>, e: Edit, s: Seq<u8>)
    requires
        all_fit(sorted, s),
        fits(e, s),
    ensures
        all_fit(placed(sorted, e), s),
    decreases sorted.len(),
{
    if sorted.len() > 0 && e.start > sorted[0].start {
        lemma_placed_fit(sorted.drop_first(), e, s);
    }
}

/// Ordering edits keeps them in range.
pub proof fn lemma_in_order_fit(es: Seq<Edit>, s: Seq<u8>)
    requires
        all_fit(es, s),
    ensures
        all_fit(in_order(es), s),
    decreases es.len(),
{
    if es.len() > 0 {
        lemma_in_order_fit(es.drop_first(), s);
        lemma_placed_fit(in_order(es.drop_first()), es[0], s);
    }
}

/// The edits start one behind the other, or together.
pub open spec fn ascending(es: Seq<Edit>) -> bool {
    forall|i: int, j: int|
        0 <= i < j < es.len() ==> (#[trigger] es[i]).start <= (#[trigger] es[j]).start
}

proof fn lemma_joined_contains(a: Seq<Edit>, b: Seq<Edit>, x: Edit)
    ensures
        (a + b).contains(x) <==> a.contains(x) || b.contains(x),
{
    if a.contains(x) {
        let i = choose|i: int| 0 <= i < a.len() && a[i] == x;
        assert((a + b)[i] == x);
    }
    if b.contains(x) {
        let i = choose|i: int| 0 <= i < b.len() && b[i] == x;
        assert((a + b)[a.len() + i] == x);
    }
    if (a + b).contains(x) {
        let i = choose|i: int| 0 <= i < (a + b).len() && (a + b)[i] == x;
        if i < a.len() {
            assert(a[i] == x);
        } else {
            assert(b[i - a.len()] == x);
        }
    }
}

pub proof fn lemma_placed_ascends(sorted: Seq<Edit>, e: Edit)
    requires
        ascending(sorted),
    ensures
        ascending(placed(sorted, e)),
        forall|x: Edit| #[trigger]
            placed(sorted, e).contains(x) <==> x == e || sorted.contains(x),
    decreases sorted.len(),
{
    let one = seq![e];
    if sorted.len() > 0 && e.start > sorted[0].start {
        let rest = sorted.drop_first();
        let first = seq![sorted[0]];
        let later = placed(rest, e);
        lemma_placed_ascends(rest, e);
        assert(sorted =~= first + rest);
        assert(placed(sorted, e) =~= first + later);
        assert forall|x: Edit| #[trigger]
            placed(sorted, e).contains(x) <==> x == e || sorted.contains(x) by {
            lemma_joined_contains(first, rest, x);
            lemma_joined_contains(first, later, x);
            assert(later.contains(x) <==> x == e || rest.contains(x));
        }
        assert forall|i: int, j: int| 0 <= i < j < placed(sorted, e).len() implies (
        #[trigger] placed(sorted, e)[i]).start <= (#[trigger] placed(sorted, e)[j]).start by {
            if i == 0 {
                let x = later[j - 1];
                assert(later.contains(x));
                assert(x == e || rest.contains(x));
                if rest.contains(x) {
                    let k = choose|k: int| 0 <= k < rest.len() && rest[k] == x;
                    assert(sorted[k + 1] == x);
                }
            } else {
                assert(placed(sorted, e)[i] == later[i - 1]);
                assert(placed(sorted, e)[j] == later[j - 1]);
            }
        }
    } else {
        assert(placed(sorted, e) =~= one + sorted);
        assert forall|x: Edit| #[trigger]
            placed(sorted, e).contains(x) <==> x == e || sorted.contains(x) by {
            lemma_joined_contains(one, sorted, x);
            assert(one.contains(x) <==> x == e) by {
                assert(one[0] == e);
            }
        }
    }
}

/// Ordering edits orders them, and neither adds nor drops one.
pub proof fn lemma_in_order(es: Seq<Edit>)
    ensures
        ascending(in_order(es)),
        forall|x: Edit| #[trigger] in_order(es).contains(x) <==> es.contains(x),
    decreases es.len(),
{
    if es.len() > 0 {
        let rest = es.drop_first();
        let first = seq![es[0]];
        lemma_in_order(rest);
        lemma_placed_ascends(in_order(rest), es[0]);
        assert(es =~= first + rest);
        assert forall|x: Edit| #[trigger] in_order(es).contains(x) <==> es.contains(x) by {
            lemma_joined_contains(first, rest, x);
            assert(in_order(rest).contains(x) <==> rest.contains(x));
            assert(first.contains(x) <==> x == es[0]) by {
                assert(first[0] == es[0]);
            }
        }
    }
}

/// The edits stand one behind the other in the text.
pub open spec fn in_line(es: Seq<Edit>) -> bool {
    &&& forall|i: int| 0 <= i < es.len() ==> 0 <= (#[trigger] es[i]).start <= es[i].end
    &&& forall|i: int, j: int|
        0 <= i < j < es.len() ==> (#[trigger] es[i]).end <= (#[trigger] es[j]).start
}

/// Edits that stand in line are in order.
pub proof fn lemma_in_line_ordered(es: Seq<Edit>)
    requires
        in_line(es),
    ensures
        in_order(es) == es,
    decreases es.len(),
{
    if es.len() > 0 {
        let rest = es.drop_first();
        assert forall|i: int, j: int| 0 <= i < j < rest.len() implies (#[trigger] rest[i]).end <= (
        #[trigger] rest[j]).start by {
            assert(rest[i] == es[i + 1] && rest[j] == es[j + 1]);
        }
        lemma_in_line_ordered(rest);
        if rest.len() > 0 {
            assert(es[0].end <= es[1].start);
            assert(es[0].start <= es[0].end);
        }
        assert(seq![es[0]] + rest =~= es);
    } else {
        assert(in_order(es) =~= es);
    }
}

/// The last of the edits can be made first.
pub proof fn lemma_last_first(s: Seq<u8>, sorted: Seq<Edit>, c: int)
    requires
        sorted.len() > 0,
        in_line(sorted),
        0 <= c <= sorted[0].start,
        sorted.last().end <= s.len(),
    ensures
        rewritten(s, sorted, c) == rewritten(
            spliced(s, sorted.last().start, sorted.last().end, sorted.last().text),
            sorted.drop_last(),
            c,
        ),
    decreases sorted.len(),
{
    let l = sorted.last();
    let t = spliced(s, l.start, l.end, l.text);
    let f = sorted[0];
    assert(f.start <= f.end);
    if sorted.len() == 1 {
        assert(sorted.drop_first() =~= Seq::<Edit>::empty());
        assert(sorted.drop_last() =~= Seq::<Edit>::empty());
        assert(rewritten(s, sorted.drop_first(), l.end) == s.subrange(l.end, s.len() as int));
        assert(rewritten(s, sorted, c) =~= t.subrange(c, t.len() as int));
    } else {
        let rest = sorted.drop_first();
        assert(f.end <= sorted[1].start);
        assert(f.end <= l.start);
        assert forall|i: int, j: int| 0 <= i < j < rest.len() implies (#[trigger] rest[i]).end <= (
        #[trigger] rest[j]).start by {
            assert(rest[i] == sorted[i + 1] && rest[j] == sorted[j + 1]);
        }
        lemma_last_first(s, rest, f.end);
        assert(rest.last() == l);
        assert(sorted.drop_last().drop_first() =~= rest.drop_last());
        assert(sorted.drop_last()[0] == f);
        assert(t.subrange(c, f.start) =~= s.subrange(c, f.start));
    }
}

/// The same edit of more of the text.
pub open spec fn widens(s: Seq<u8>, w: Edit, e: Edit) -> bool {
    &&& 0 <= w.start <= e.start <= e.end <= w.end <= s.len()
    &&& w.text == s.subrange(w.start, e.start) + e.text + s.subrange(e.end, w.end)
}

/// What is rewritten from further back begins with what stands there.
pub proof fn lemma_rewritten_from(s: Seq<u8>, es: Seq<Edit>, c: int, d: int)
    requires
        0 <= c <= d <= s.len(),
        es.len() > 0 ==> d <= es[0].start <= s.len(),
    ensures
        rewritten(s, es, c) == s.subrange(c, d) + rewritten(s, es, d),
{
    if es.len() == 0 {
        assert(rewritten(s, es, c) =~= s.subrange(c, d) + rewritten(s, es, d));
    } else {
        let rest = rewritten(s, es.drop_first(), es[0].end);
        assert(s.subrange(c, es[0].start) =~= s.subrange(c, d) + s.subrange(d, es[0].start));
        assert(rewritten(s, es, c) =~= s.subrange(c, d) + rewritten(s, es, d));
    }
}

/// Edits that are widened make the same of the text.
pub proof fn lemma_widened(s: Seq<u8>, ws: Seq<Edit>, es: Seq<Edit>, c: int)
    requires
        ws.len() == es.len(),
        in_line(ws),
        forall|j: int| 0 <= j < ws.len() ==> widens(s, #[trigger] ws[j], es[j]),
        0 <= c <= s.len(),
        ws.len() > 0 ==> c <= ws[0].start,
    ensures
        rewritten(s, ws, c) == rewritten(s, es, c),
        in_line(es),
    decreases ws.len(),
{
    assert forall|i: int| 0 <= i < es.len() implies 0 <= (#[trigger] es[i]).start <= es[i].end by {
        assert(widens(s, ws[i], es[i]));
    }
    assert forall|i: int, j: int| 0 <= i < j < es.len() implies (#[trigger] es[i]).end <= (
    #[trigger] es[j]).start by {
        assert(widens(s, ws[i], es[i]));
        assert(widens(s, ws[j], es[j]));
        assert(ws[i].end <= ws[j].start);
    }
    if ws.len() > 0 {
        let w = ws[0];
        let e = es[0];
        let wr = ws.drop_first();
        let er = es.drop_first();
        assert(widens(s, w, e));
        assert forall|i: int, j: int| 0 <= i < j < wr.len() implies (#[trigger] wr[i]).end <= (
        #[trigger] wr[j]).start by {
            assert(wr[i] == ws[i + 1] && wr[j] == ws[j + 1]);
        }
        assert forall|j: int| 0 <= j < wr.len() implies widens(s, #[trigger] wr[j], er[j]) by {
            assert(widens(s, ws[j + 1], es[j + 1]));
        }
        if wr.len() > 0 {
            assert(ws[0].end <= ws[1].start);
            assert(widens(s, ws[1], es[1]));
        }
        lemma_widened(s, wr, er, w.end);
        lemma_rewritten_from(s, er, e.end, w.end);
        assert(s.subrange(c, e.start) =~= s.subrange(c, w.start) + s.subrange(w.start, e.start));
        assert(rewritten(s, ws, c) =~= rewritten(s, es, c));
    }
}

/// By how much the edits from index `i` up to index `j` lengthen the text.
pub open spec fn lengthened(es: Seq<Edit>, i: int, j: int) -> int
    decreases j - i,
{
    if i >= j {
        0
    } else {
        es[i].text.len() - (es[i].end - es[i].start) + lengthened(es, i + 1, j)
    }
}

/// The edits that put back what the edits from index `i` on take away, in the
/// text that they leave, `by` further on.
pub open spec fn undoes(s: Seq<u8>, es: Seq<Edit>, fs: Seq<Edit>, i: int, by: int) -> bool {
    &&& fs.len() == es.len()
    &&& forall|j: int|
        i <= j < es.len() ==> {
            &&& (#[trigger] fs[j]).start == es[j].start + lengthened(es, i, j) + by
            &&& fs[j].end == fs[j].start + es[j].text.len()
            &&& fs[j].text == s.subrange(es[j].start, es[j].end)
        }
}

/// Edits that are undone leave the text as it was.
pub proof fn lemma_undone(s: Seq<u8>, es: Seq<Edit>, fs: Seq<Edit>, i: int, c: int, done: Seq<u8>)
    requires
        0 <= i <= es.len(),
        in_line(es),
        forall|j: int| 0 <= j < es.len() ==> (#[trigger] es[j]).end <= s.len(),
        0 <= c <= s.len(),
        i < es.len() ==> c <= es[i].start,
        undoes(s, es, fs, i, done.len() - c),
    ensures
        rewritten(done + rewritten(s, es.skip(i), c), fs.skip(i), done.len() as int) == s.subrange(
            c,
            s.len() as int,
        ),
    decreases es.len() - i,
{
    let rest = rewritten(s, es.skip(i), c);
    let t = done + rest;
    if i == es.len() {
        assert(es.skip(i) =~= Seq::<Edit>::empty());
        assert(fs.skip(i) =~= Seq::<Edit>::empty());
        assert(t.subrange(done.len() as int, t.len() as int) =~= rest);
    } else {
        let e = es[i];
        let f = fs[i];
        let more = s.subrange(c, e.start) + e.text;
        let after = rewritten(s, es.skip(i + 1), e.end);
        assert(e.start <= e.end <= s.len());
        assert(es.skip(i).drop_first() =~= es.skip(i + 1));
        assert(fs.skip(i).drop_first() =~= fs.skip(i + 1));
        assert(es.skip(i)[0] == e && fs.skip(i)[0] == f);
        assert(rest == more + after);
        assert(t =~= (done + more) + after);
        assert(lengthened(es, i, i) == 0);
        assert(f.start == done.len() + (e.start - c));
        if i + 1 < es.len() {
            assert(e.end <= es[i + 1].start);
        }
        assert forall|j: int| i + 1 <= j < es.len() implies (#[trigger] fs[j]).start
            == es[j].start + lengthened(es, i + 1, j) + ((done + more).len() - e.end) by {
            assert(lengthened(es, i, j) == e.text.len() - (e.end - e.start) + lengthened(
                es,
                i + 1,
                j,
            ));
        }
        lemma_undone(s, es, fs, i + 1, e.end, done + more);
        assert(f.end == (done + more).len());
        assert(t.subrange(done.len() as int, f.start) =~= s.subrange(c, e.start)) by {
            assert forall|x: int| 0 <= x < e.start - c implies t[done.len() + x] == #[trigger] s[c
                + x] by {
                assert(more[x] == s[c + x]);
            }
        }
        assert(s.subrange(c, s.len() as int) =~= s.subrange(c, e.start) + s.subrange(
            e.start,
            e.end,
        ) + s.subrange(e.end, s.len() as int));
    }
}

/// The growth over a run of edits, by its last edit.
pub proof fn lemma_lengthened_last(es: Seq<Edit>, i: int, j: int)
    requires
        i < j,
    ensures
        lengthened(es, i, j) == lengthened(es, i, j - 1) + es[j - 1].text.len() - (es[j - 1].end
            - es[j - 1].start),
    decreases j - i,
{
    if i < j - 1 {
        lemma_lengthened_last(es, i + 1, j);
    } else {
        assert(lengthened(es, j, j) == 0);
        assert(lengthened(es, i, j - 1) == 0);
    }
}

/// The growth over a run of edits depends on those edits alone.
pub proof fn lemma_lengthened_same(es: Seq<Edit>, fs: Seq<Edit>, i: int, j: int)
    requires
        forall|k: int| i <= k < j ==> #[trigger] es[k] == fs[k],
    ensures
        lengthened(es, i, j) == lengthened(fs, i, j),
    decreases j - i,
{
    if i < j {
        assert(es[i] == fs[i]);
        lemma_lengthened_same(es, fs, i + 1, j);
    }
}

/// Edits that undo edits in line are in line.
pub proof fn lemma_undoes_in_line(s: Seq<u8>, es: Seq<Edit>, fs: Seq<Edit>)
    requires
        in_line(es),
        undoes(s, es, fs, 0, 0),
    ensures
        in_line(fs),
{
    assert forall|j: int| 0 <= j < fs.len() implies 0 <= (#[trigger] fs[j]).start <= fs[j].end by {
        lemma_undoing_starts(s, es, fs, j);
    }
    assert forall|i: int, j: int| 0 <= i < j < fs.len() implies (#[trigger] fs[i]).end <= (
    #[trigger] fs[j]).start by {
        lemma_undoing_apart(s, es, fs, i, j);
    }
}

proof fn lemma_undoing_starts(s: Seq<u8>, es: Seq<Edit>, fs: Seq<Edit>, j: int)
    requires
        in_line(es),
        undoes(s, es, fs, 0, 0),
        0 <= j < fs.len(),
    ensures
        0 <= fs[j].start,
{
    assert(0 <= es[j].start <= es[j].end);
    if j > 0 {
        lemma_undoing_starts_first(s, es, fs, j);
    } else {
        assert(lengthened(es, 0, 0) == 0);
    }
}

proof fn lemma_undoing_starts_first(s: Seq<u8>, es: Seq<Edit>, fs: Seq<Edit>, j: int)
    requires
        in_line(es),
        undoes(s, es, fs, 0, 0),
        0 < j < fs.len(),
    ensures
        0 <= fs[0].end <= fs[j].start,
{
    assert(0 <= es[0].start);
    assert(lengthened(es, 0, 0) == 0);
    assert(fs[0].start == es[0].start);
    lemma_undoing_apart(s, es, fs, 0, j);
}

proof fn lemma_undoing_apart(s: Seq<u8>, es: Seq<Edit>, fs: Seq<Edit>, i: int, j: int)
    requires
        in_line(es),
        undoes(s, es, fs, 0, 0),
        0 <= i < j < fs.len(),
    ensures
        fs[i].end <= fs[j].start,
    decreases j - i,
{
    lemma_lengthened_last(es, 0, j);
    assert(es[j - 1].end <= es[j].start);
    assert(fs[j - 1].end <= fs[j].start);
    if i < j - 1 {
        lemma_undoing_apart(s, es, fs, i, j - 1);
        assert(fs[j - 1].start <= fs[j - 1].end);
    }
}

/// No edit touches the bytes from `i` to `j`.
pub open spec fn spares(es: Seq<Edit>, i: int, j: int) -> bool {
    forall|k: int| 0 <= k < es.len() ==> (#[trigger] es[k]).end <= i || j <= es[k].start
}

proof fn lemma_placed_spares(sorted: Seq<Edit>, e: Edit, i: int, j: int)
    requires
        spares(sorted, i, j),
        e.end <= i || j <= e.start,
    ensures
        spares(placed(sorted, e), i, j),
    decreases sorted.len(),
{
    if sorted.len() > 0 && e.start > sorted[0].start {
        lemma_placed_spares(sorted.drop_first(), e, i, j);
    }
}

proof fn lemma_in_order_spares(es: Seq<Edit>, i: int, j: int)
    requires
        spares(es, i, j),
    ensures
        spares(in_order(es), i, j),
    decreases es.len(),
{
    if es.len() > 0 {
        lemma_in_order_spares(es.drop_first(), i, j);
        lemma_placed_spares(in_order(es.drop_first()), es[0], i, j);
    }
}

proof fn lemma_rewritten_spares(s: Seq<u8>, sorted: Seq<Edit>, cursor: int, i: int, j: int) -> (at:
    int)
    requires
        0 <= cursor <= i <= j <= s.len(),
        spares(sorted, i, j),
        forall|k: int|
            0 <= k < sorted.len() ==> 0 <= (#[trigger] sorted[k]).start <= sorted[k].end <= s.len(),
    ensures
        occurs_at(rewritten(s, sorted, cursor), s.subrange(i, j), at),
    decreases sorted.len(),
{
    let r = rewritten(s, sorted, cursor);
    if sorted.len() == 0 {
        assert(r.subrange(i - cursor, j - cursor) =~= s.subrange(i, j));
        i - cursor
    } else if sorted[0].start < cursor {
        lemma_rewritten_spares(s, sorted.drop_first(), cursor, i, j)
    } else if j <= sorted[0].start {
        assert(r.subrange(i - cursor, j - cursor) =~= s.subrange(i, j));
        i - cursor
    } else {
        let e = sorted[0];
        let at = lemma_rewritten_spares(s, sorted.drop_first(), e.end, i, j);
        let skip = e.start - cursor + e.text.len();
        assert(r.subrange(skip + at, skip + at + (j - i)) =~= rewritten(
            s,
            sorted.drop_first(),
            e.end,
        ).subrange(at, at + (j - i)));
        skip + at
    }
}

/// What no edit touches stands in the edited text as it stood before.
pub proof fn law_untouched_text_stays(s: Seq<u8>, es: Seq<Edit>, i: int, j: int)
    requires
        all_fit(es, s),
        0 <= i <= j <= s.len(),
        spares(es, i, j),
    ensures
        exists|at: int| occurs_at(edited(s, es), s.subrange(i, j), at),
{
    lemma_in_order_spares(es, i, j);
    lemma_in_order_fit(es, s);
    assert forall|k: int| 0 <= k < in_order(es).len() implies 0 <= (#[trigger] in_order(es)[k]).start
        <= in_order(es)[k].end <= s.len() by {
        assert(fits(in_order(es)[k], s));
    }
    let at = lemma_rewritten_spares(s, in_order(es), 0, i, j);
    assert(occurs_at(edited(s, es), s.subrange(i, j), at));
}

impl SexpEdit {
    /// Replace a range with a text.
    pub fn replace(start: usize, end: usize, text: String) -> (r: SexpEdit)
        ensures
            r@ == (Edit { start: start as int, end: end as int, text: utf8(text@) }),
    {
        SexpEdit { start, end, text }
    }

    /// Put a text in at an offset.
    pub fn insert(at: usize, text: String) -> (r: SexpEdit)
        ensures
            r@ == (Edit { start: at as int, end: at as int, text: utf8(text@) }),
    {
        SexpEdit { start: at, end: at, text }
    }

    /// Take a range out.
    pub fn delete(start: usize, end: usize) -> (r: SexpEdit)
        ensures
            r@ == (Edit { start: start as int, end: end as int, text: Seq::<u8>::empty() }),
    {
        SexpEdit { start, end, text: String::new() }
    }
}

/// The text with all edits made, by ascending start.
pub fn apply_edits(content: &str, edits: Vec<SexpEdit>) -> (r: String)
    requires
        all_fit(edit_views(edits@), utf8(content@)),
    ensures
        utf8(r@) == edited(utf8(content@), edit_views(edits@)),
{
    let ghost s = utf8(content@);
    let ghost all = edit_views(edits@);
    let mut left = edits;
    let mut sorted: Vec<SexpEdit> = Vec::new();
    assert(edit_views(sorted@) =~= in_order(all.skip(all.len() as int)));
    while left.len() > 0
        invariant
            left@.len() <= all.len(),
            edit_views(left@) == all.take(left@.len() as int),
            edit_views(sorted@) == in_order(all.skip(left@.len() as int)),
        decreases left@.len(),
    {
        let ghost n = left@.len() as int;
        let e = left.pop().unwrap();
        proof {
            assert(edit_views(left@) =~= all.take(n - 1));
            assert(all.take(n)[n - 1] == e@) by {
                assert(edit_views(left@.push(e))[n - 1] == e@);
            }
            assert(all.skip(n - 1).drop_first() =~= all.skip(n));
        }
        let mut j: usize = 0;
        while j < sorted.len() && sorted[j].start < e.start
            invariant
                j <= sorted@.len(),
                forall|i: int| 0 <= i < j ==> (#[trigger] sorted@[i]).start < e.start,
            decreases sorted@.len() - j,
        {
            j += 1;
        }
        proof {
            lemma_placed(edit_views(sorted@), e@, j as int);
            assert(edit_views(sorted@.insert(j as int, e)) =~= edit_views(sorted@).insert(
                j as int,
                e@,
            ));
        }
        sorted.insert(j, e);
    }
    proof {
        assert(all.skip(0) =~= all);
        lemma_in_order_fit(all, s);
        lemma_end_boundary(content@);
    }
    let ghost order = edit_views(sorted@);
    let mut out = String::new();
    let mut cursor: usize = 0;
    let mut k: usize = 0;
    assert(order.skip(0) =~= order);
    assert(utf8(out@) + rewritten(s, order, 0) =~= rewritten(s, order, 0));
    while k < sorted.len()
        invariant
            k <= sorted@.len(),
            s == utf8(content@),
            order == edit_views(sorted@),
            all_fit(order, s),
            cursor <= s.len(),
            is_char_boundary(s, cursor as int),
            utf8(out@) + rewritten(s, order.skip(k as int), cursor as int) == rewritten(s, order, 0),
        decreases sorted@.len() - k,
    {
        assert(order[k as int] == sorted@[k as int]@);
        assert(fits(order[k as int], s));
        assert(order.skip(k as int)[0] == order[k as int]);
        assert(order.skip(k as int).drop_first() =~= order.skip(k + 1));
        if sorted[k].start >= cursor {
            let ghost old_out = out@;
            let kept = substr(content, cursor, sorted[k].start);
            out.append(kept);
            out.append(sorted[k].text.as_str());
            proof {
                let new = sorted@[k as int].text@;
                lemma_utf8_add(old_out + kept@, new);
                lemma_utf8_add(old_out, kept@);
                assert(utf8(out@) + rewritten(
                    s,
                    order.skip(k + 1),
                    sorted@[k as int].end as int,
                ) =~= utf8(old_out) + rewritten(s, order.skip(k as int), cursor as int));
            }
            cursor = sorted[k].end;
        }
        k += 1;
    }
    let tail = substr(content, cursor, byte_len(content));
    let ghost old_out = out@;
    out.append(tail);
    proof {
        lemma_utf8_add(old_out, tail@);
        assert(order.skip(k as int) =~= Seq::<Edit>::empty());
    }
    out
}

} // verus!
