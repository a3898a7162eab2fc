//! Finding parenthesised blocks in S-expression text.
//!
//! A block runs from an opening parenthesis up to and including the
//! parenthesis that closes it. Parentheses inside quoted strings do not
//! count; inside a string a backslash takes the next byte literally.

use vstd::prelude::*;
use crate::node::is_blank;
use crate::text::{bytes_occur_at, occurs_at, spliced, utf8};

verus! {

/// Where a reader stands after some text: how many lists are open, and
/// whether it is inside a string or just behind a backslash in one.
pub struct Lex {
    pub depth: int,
    pub quoted: bool,
    pub escaped: bool,
}

/// The reader's state after one more byte.
pub open spec fn lex_step(st: Lex, b: u8) -> Lex {
    if st.quoted {
        if st.escaped {
            Lex { escaped: false, ..st }
        } else if b == 0x5c {
            Lex { escaped: true, ..st }
        } else if b == 0x22 {
            Lex { quoted: false, ..st }
        } else {
            st
        }
    } else if b == 0x22 {
        Lex { quoted: true, ..st }
    } else if b == 0x28 {
        Lex { depth: st.depth + 1, ..st }
    } else if b == 0x29 {
        Lex { depth: st.depth - 1, ..st }
    } else {
        st
    }
}

/// The reader's state at `to` when it starts afresh at `from`.
pub open spec fn lex(s: Seq<u8>, from: int, to: int) -> Lex
    decreases to - from,
{
    if to <= from {
        Lex { depth: 0, quoted: false, escaped: false }
    } else {
        lex_step(lex(s, from, to - 1), s[to - 1])
    }
}

/// The first offset at or after `e` at which everything opened since `start` is closed.
pub open spec fn close_from(s: Seq<u8>, start: int, e: int) -> Option<int>
    decreases s.len() - e + 1,
{
    if e > s.len() {
        None
    } else if lex(s, start, e).depth == 0 {
        Some(e)
    } else {
        close_from(s, start, e + 1)
    }
}

/// The end of the block that opens at `start`.
pub open spec fn block_end(s: Seq<u8>, start: int) -> Option<int> {
    if 0 <= start < s.len() && s[start] == 0x28 {
        close_from(s, start, start + 1)
    } else {
        None
    }
}

/// A byte that ends a bare word.
pub open spec fn is_delimiter(b: u8) -> bool {
    b == 0x20 || b == 0x09 || b == 0x0a || b == 0x0d || b == 0x28 || b == 0x29 || b == 0x22
}

/// A list whose head is exactly `tag` opens at `i`, outside any string.
pub open spec fn is_block_start(s: Seq<u8>, tag: Seq<u8>, i: int) -> bool {
    &&& 0 <= i < s.len()
    &&& !lex(s, 0, i).quoted
    &&& s[i] == 0x28
    &&& occurs_at(s, tag, i + 1)
    &&& i + 1 + tag.len() == s.len() || is_delimiter(s[i + 1 + tag.len()])
}

/// The offsets below `n` at which a `tag` list opens, in order.
pub open spec fn starts_below(s: Seq<u8>, tag: Seq<u8>, n: int) -> Seq<int>
    decreases n,
{
    if n <= 0 {
        Seq::empty()
    } else if is_block_start(s, tag, n - 1) {
        starts_below(s, tag, n - 1).push(n - 1)
    } else {
        starts_below(s, tag, n - 1)
    }
}

/// Every offset at which a `tag` list opens, in order.
pub open spec fn block_starts(s: Seq<u8>, tag: Seq<u8>) -> Seq<int> {
    starts_below(s, tag, s.len() as int)
}

/// The `tag` block with the greatest start below `n` that reaches beyond `pos`.
pub open spec fn enclosing_below(s: Seq<u8>, tag: Seq<u8>, pos: int, n: int) -> Option<(int, int)>
    decreases n,
{
    if n <= 0 {
        None
    } else if is_block_start(s, tag, n - 1) && block_end(s, n - 1) is Some && pos < block_end(
        s,
        n - 1,
    )->0 {
        Some((n - 1, block_end(s, n - 1)->0))
    } else {
        enclosing_below(s, tag, pos, n - 1)
    }
}

/// The innermost `tag` block around the byte at `pos`.
pub open spec fn enclosing_block(s: Seq<u8>, tag: Seq<u8>, pos: int) -> Option<(int, int)> {
    if pos < s.len() {
        enclosing_below(s, tag, pos, pos + 1)
    } else {
        None
    }
}

/// A list opens at `i` directly inside the list that opens at `parent`.
pub open spec fn is_child_start(s: Seq<u8>, parent: int, i: int) -> bool {
    &&& parent < i < s.len()
    &&& s[i] == 0x28
    &&& !lex(s, parent, i).quoted
    &&& lex(s, parent, i).depth == 1
    &&& block_end(s, i) is Some
}

/// The blocks directly inside the list at `parent` that open below `n`, in order.
pub open spec fn children_below(s: Seq<u8>, parent: int, n: int) -> Seq<(int, int)>
    decreases n - parent,
{
    if n <= parent + 1 {
        Seq::empty()
    } else if is_child_start(s, parent, n - 1) {
        children_below(s, parent, n - 1).push((n - 1, block_end(s, n - 1)->0))
    } else {
        children_below(s, parent, n - 1)
    }
}

/// The blocks directly inside the first `tag` block, in order; none when there is no such block.
pub open spec fn direct_children(s: Seq<u8>, tag: Seq<u8>) -> Seq<(int, int)> {
    let starts = block_starts(s, tag);
    if starts.len() == 0 {
        Seq::empty()
    } else {
        match block_end(s, starts[0]) {
            Some(e) => children_below(s, starts[0], e),
            None => Seq::empty(),
        }
    }
}

/// Offsets as mathematical integers.
pub open spec fn offsets(v: Seq<usize>) -> Seq<int> {
    v.map_values(|i: usize| i as int)
}

/// A byte range as a pair of mathematical integers.
pub open spec fn span(r: (usize, usize)) -> (int, int) {
    (r.0 as int, r.1 as int)
}

/// Byte ranges as pairs of mathematical integers.
pub open spec fn spans(v: Seq<(usize, usize)>) -> Seq<(int, int)> {
    v.map_values(|r: (usize, usize)| span(r))
}

/// A block begins with an opening and ends with a closing parenthesis.
pub proof fn lemma_block_end(s: Seq<u8>, start: int)
    ensures
        block_end(s, start) matches Some(e) ==> {
            &&& 0 <= start
            &&& start + 2 <= e <= s.len()
            &&& s[start] == 0x28
            &&& s[e - 1] == 0x29
            &&& lex(s, start, e).depth == 0
            &&& !lex(s, start, e).quoted
            &&& forall|k: int| start < k < e ==> (#[trigger] lex(s, start, k)).depth > 0
        },
{
    if 0 <= start < s.len() && s[start] == 0x28 {
        assert(lex(s, start, start + 1) == lex_step(lex(s, start, start), s[start]));
        lemma_close_from(s, start, start + 1);
    }
}

proof fn lemma_close_from(s: Seq<u8>, start: int, e: int)
    requires
        0 <= start < e <= s.len() + 1,
        forall|k: int| start < k < e ==> (#[trigger] lex(s, start, k)).depth > 0,
        e <= start + 1 ==> s[start] == 0x28,
        start < s.len(),
        s[start] == 0x28,
    ensures
        close_from(s, start, e) matches Some(r) ==> {
            &&& e <= r <= s.len()
            &&& start + 2 <= r
            &&& s[r - 1] == 0x29
            &&& lex(s, start, r).depth == 0
            &&& !lex(s, start, r).quoted
            &&& forall|k: int| start < k < r ==> (#[trigger] lex(s, start, k)).depth > 0
        },
    decreases s.len() - e + 1,
{
    assert(lex(s, start, start + 1) == lex_step(lex(s, start, start), s[start]));
    if e <= s.len() {
        assert(lex(s, start, e) == lex_step(lex(s, start, e - 1), s[e - 1]));
        if lex(s, start, e).depth != 0 {
            lemma_close_from(s, start, e + 1);
        } else {
            assert(lex(s, start, e - 1).depth > 0);
        }
    }
}

/// The block that opens at `start`: its range, or nothing when no list opens there or it never closes.
pub fn find_balanced_block(content: &str, start: usize) -> (r: Option<(usize, usize)>)
    ensures
        match r {
            Some((a, e)) => a == start && block_end(utf8(content@), start as int) == Some(e as int),
            None => block_end(utf8(content@), start as int) is None,
        },
{
    let s = content.as_bytes();
    if start >= s.len() || s[start] != 0x28 {
        return None;
    }
    let mut depth: usize = 1;
    let mut quoted = false;
    let mut escaped = false;
    let mut i: usize = start + 1;
    assert(lex(s@, start as int, start + 1) == lex_step(lex(s@, start as int, start as int), 0x28));
    while i < s.len()
        invariant
            start < i <= s.len(),
            s@ == utf8(content@),
            s@[start as int] == 0x28,
            0 < depth <= i - start,
            lex(s@, start as int, i as int) == (Lex { depth: depth as int, quoted, escaped }),
            close_from(s@, start as int, start + 1) == close_from(s@, start as int, i as int),
        decreases s.len() - i,
    {
        let b = s[i];
        assert(lex(s@, start as int, i + 1) == lex_step(lex(s@, start as int, i as int), b));
        if quoted {
            if escaped {
                escaped = false;
            } else if b == 0x5c {
                escaped = true;
            } else if b == 0x22 {
                quoted = false;
            }
        } else if b == 0x22 {
            quoted = true;
        } else if b == 0x28 {
            depth += 1;
        } else if b == 0x29 {
            depth -= 1;
            if depth == 0 {
                assert(close_from(s@, start as int, i + 1) == Some(i + 1));
                return Some((start, i + 1));
            }
        }
        i += 1;
    }
    assert(close_from(s@, start as int, i + 1) is None);
    None
}

/// Whether a list headed by exactly `tag` opens at `i`, strings aside.
fn tag_opens_at(s: &[u8], tag: &[u8], i: usize) -> (r: bool)
    requires
        i < s@.len(),
        !lex(s@, 0, i as int).quoted,
    ensures
        r == is_block_start(s@, tag@, i as int),
{
    if s[i] != 0x28 || !bytes_occur_at(s, tag, i + 1) {
        return false;
    }
    let after: usize = i + 1 + tag.len();
    if after == s.len() {
        return true;
    }
    let b = s[after];
    b == 0x20 || b == 0x09 || b == 0x0a || b == 0x0d || b == 0x28 || b == 0x29 || b == 0x22
}

/// Every offset at which a `tag` list opens, in file order, nested ones included.
pub fn find_block_starts(content: &str, tag: &str) -> (r: Vec<usize>)
    ensures
        offsets(r@) == block_starts(utf8(content@), utf8(tag@)),
{
    let s = content.as_bytes();
    let t = tag.as_bytes();
    let mut starts: Vec<usize> = Vec::new();
    let mut quoted = false;
    let mut escaped = false;
    let mut i: usize = 0;
    assert(offsets(starts@) =~= starts_below(s@, t@, 0));
    while i < s.len()
        invariant
            i <= s.len(),
            lex(s@, 0, i as int).quoted == quoted,
            lex(s@, 0, i as int).escaped == escaped,
            offsets(starts@) == starts_below(s@, t@, i as int),
        decreases s.len() - i,
    {
        let b = s[i];
        assert(lex(s@, 0, i + 1) == lex_step(lex(s@, 0, i as int), b));
        let ghost before = starts@;
        if quoted {
            if escaped {
                escaped = false;
            } else if b == 0x5c {
                escaped = true;
            } else if b == 0x22 {
                quoted = false;
            }
        } else if b == 0x22 {
            quoted = true;
        } else if tag_opens_at(s, t, i) {
            starts.push(i);
            assert(offsets(starts@) =~= offsets(before).push(i as int));
        }
        i += 1;
    }
    starts
}

/// The innermost `tag` block around the byte at `pos`.
pub fn find_enclosing_block(content: &str, tag: &str, pos: usize) -> (r: Option<(usize, usize)>)
    ensures
        match r {
            Some(p) => enclosing_block(utf8(content@), utf8(tag@), pos as int) == Some(span(p)),
            None => enclosing_block(utf8(content@), utf8(tag@), pos as int) is None,
        },
{
    let s = content.as_bytes();
    let t = tag.as_bytes();
    if pos >= s.len() {
        return None;
    }
    let mut found: Option<(usize, usize)> = None;
    let mut quoted = false;
    let mut escaped = false;
    let mut i: usize = 0;
    while i <= pos
        invariant
            i <= pos + 1,
            pos < s.len(),
            s@ == utf8(content@),
            t@ == utf8(tag@),
            lex(s@, 0, i as int).quoted == quoted,
            lex(s@, 0, i as int).escaped == escaped,
            match found {
                Some(p) => enclosing_below(s@, t@, pos as int, i as int) == Some(span(p)),
                None => enclosing_below(s@, t@, pos as int, i as int) is None,
            },
        decreases pos + 1 - i,
    {
        let b = s[i];
        assert(lex(s@, 0, i + 1) == lex_step(lex(s@, 0, i as int), b));
        if quoted {
            if escaped {
                escaped = false;
            } else if b == 0x5c {
                escaped = true;
            } else if b == 0x22 {
                quoted = false;
            }
        } else if b == 0x22 {
            quoted = true;
        } else if tag_opens_at(s, t, i) {
            if let Some((a, e)) = find_balanced_block(content, i) {
                if pos < e {
                    found = Some((a, e));
                }
            }
        }
        i += 1;
    }
    found
}

/// The blocks directly inside the first `tag` block, in file order.
pub fn find_direct_child_blocks(content: &str, tag: &str) -> (r: Vec<(usize, usize)>)
    ensures
        spans(r@) == direct_children(utf8(content@), utf8(tag@)),
{
    let s = content.as_bytes();
    let starts = find_block_starts(content, tag);
    let mut children: Vec<(usize, usize)> = Vec::new();
    assert(spans(children@) =~= Seq::<(int, int)>::empty());
    if starts.len() == 0 {
        return children;
    }
    let parent = starts[0];
    assert(offsets(starts@)[0] == parent as int);
    let end = match find_balanced_block(content, parent) {
        Some((_, e)) => e,
        None => {
            return children;
        },
    };
    proof {
        lemma_block_end(s@, parent as int);
    }
    let mut depth: usize = 1;
    let mut quoted = false;
    let mut escaped = false;
    let mut i: usize = parent + 1;
    assert(lex(s@, parent as int, parent + 1) == lex_step(
        lex(s@, parent as int, parent as int),
        0x28,
    ));
    while i < end
        invariant
            parent < i <= end <= s.len(),
            s@ == utf8(content@),
            block_end(s@, parent as int) == Some(end as int),
            0 <= depth <= i - parent,
            lex(s@, parent as int, i as int) == (Lex { depth: depth as int, quoted, escaped }),
            spans(children@) == children_below(s@, parent as int, i as int),
        decreases end - i,
    {
        proof {
            lemma_block_end(s@, parent as int);
            assert(lex(s@, parent as int, i as int).depth > 0);
        }
        let b = s[i];
        assert(lex(s@, parent as int, i + 1) == lex_step(lex(s@, parent as int, i as int), b));
        let ghost before = children@;
        if quoted {
            if escaped {
                escaped = false;
            } else if b == 0x5c {
                escaped = true;
            } else if b == 0x22 {
                quoted = false;
            }
        } else if b == 0x22 {
            quoted = true;
        } else if b == 0x28 {
            if depth == 1 {
                if let Some(child) = find_balanced_block(content, i) {
                    children.push(child);
                    assert(spans(children@) =~= spans(before).push(span(child)));
                }
            }
            depth += 1;
        } else if b == 0x29 {
            depth -= 1;
        }
        i += 1;
    }
    children
}

/// Reading a part of a text is reading the text there.
pub proof fn lemma_lex_within(s: Seq<u8>, a: int, e: int, from: int, to: int)
    requires
        0 <= a <= e <= s.len(),
        0 <= from,
        to <= e - a,
    ensures
        lex(s.subrange(a, e), from, to) == lex(s, a + from, a + to),
    decreases to - from,
{
    if from < to {
        lemma_lex_within(s, a, e, from, to - 1);
    }
}

/// Where a part of a text closes a block, the text closes it.
pub proof fn lemma_close_within(s: Seq<u8>, a: int, e: int, start: int, i: int)
    requires
        0 <= a <= e <= s.len(),
        0 <= start <= i,
        close_from(s.subrange(a, e), start, i) is Some,
    ensures
        close_from(s, a + start, a + i) == Some(a + (close_from(s.subrange(a, e), start, i)->0)),
    decreases e - a - i + 1,
{
    lemma_lex_within(s, a, e, start, i);
    if lex(s.subrange(a, e), start, i).depth != 0 {
        lemma_close_within(s, a, e, start, i + 1);
    }
}

/// Reading on from a place outside strings is reading afresh, but for the depth.
pub proof fn lemma_lex_compose(s: Seq<u8>, i: int, k: int, b: int)
    requires
        i <= k <= b,
        !lex(s, i, k).quoted,
        !lex(s, i, k).escaped,
    ensures
        lex(s, i, b) == (Lex { depth: lex(s, i, k).depth + lex(s, k, b).depth, ..lex(s, k, b) }),
    decreases b - k,
{
    if k < b {
        lemma_lex_compose(s, i, k, b - 1);
    }
}

/// Outside a string no byte is escaped.
pub proof fn lemma_unquoted(s: Seq<u8>, i: int, k: int)
    ensures
        !lex(s, i, k).quoted ==> !lex(s, i, k).escaped,
    decreases k - i,
{
    if i < k {
        lemma_unquoted(s, i, k - 1);
    }
}

/// A block that begins inside another ends inside it.
pub proof fn lemma_blocks_nest(s: Seq<u8>, a: int, c: int)
    requires
        block_end(s, a) is Some,
        block_end(s, c) is Some,
        a < c < block_end(s, a)->0,
        !lex(s, 0, a).quoted,
        !lex(s, 0, c).quoted,
    ensures
        block_end(s, c)->0 <= block_end(s, a)->0,
{
    let x = block_end(s, a)->0;
    lemma_block_end(s, a);
    lemma_block_end(s, c);
    lemma_unquoted(s, 0, a);
    lemma_lex_compose(s, 0, a, c);
    lemma_unquoted(s, a, c);
    lemma_lex_compose(s, a, c, x);
    assert(lex(s, a, c).depth > 0);
    if x < block_end(s, c)->0 {
        assert(lex(s, c, x).depth > 0);
    }
}

/// Every offset that a scan lists begins a list of that head.
pub proof fn lemma_starts_below(s: Seq<u8>, tag: Seq<u8>, n: int)
    ensures
        forall|i: int|
            0 <= i < starts_below(s, tag, n).len() ==> is_block_start(
                s,
                tag,
                #[trigger] starts_below(s, tag, n)[i],
            ),
    decreases n,
{
    if n > 0 {
        lemma_starts_below(s, tag, n - 1);
        let before = starts_below(s, tag, n - 1);
        let now = starts_below(s, tag, n);
        assert forall|i: int| 0 <= i < now.len() implies is_block_start(s, tag, #[trigger] now[i]) by {
            if i < before.len() {
                assert(now[i] == before[i]);
            }
        }
    }
}

/// The blocks directly inside a list are blocks, and begin outside strings.
pub proof fn lemma_children(s: Seq<u8>, parent: int, n: int)
    ensures
        forall|k: int|
            0 <= k < children_below(s, parent, n).len() ==> {
                let b = #[trigger] children_below(s, parent, n)[k];
                &&& block_end(s, b.0) == Some(b.1)
                &&& parent < b.0 < n
                &&& !lex(s, parent, b.0).quoted
            },
    decreases n - parent,
{
    if n > parent + 1 {
        lemma_children(s, parent, n - 1);
    }
}

/// The blocks directly inside the first `tag` block are blocks, and begin outside strings.
pub proof fn lemma_direct_children(s: Seq<u8>, tag: Seq<u8>)
    ensures
        forall|k: int|
            0 <= k < direct_children(s, tag).len() ==> {
                let b = #[trigger] direct_children(s, tag)[k];
                &&& block_end(s, b.0) == Some(b.1)
                &&& !lex(s, 0, b.0).quoted
            },
{
    let starts = block_starts(s, tag);
    if starts.len() > 0 {
        if let Some(e) = block_end(s, starts[0]) {
            let p = starts[0];
            lemma_children(s, p, e);
            lemma_starts_below(s, tag, s.len() as int);
            assert(is_block_start(s, tag, starts[0]));
            lemma_unquoted(s, 0, p);
            let all = direct_children(s, tag);
            assert forall|k: int| 0 <= k < all.len() implies {
                let b = #[trigger] all[k];
                &&& block_end(s, b.0) == Some(b.1)
                &&& !lex(s, 0, b.0).quoted
            } by {
                lemma_lex_compose(s, 0, p, all[k].0);
            }
        }
    }
}

/// The blocks directly inside a list stand one behind the other.
pub proof fn lemma_children_apart(s: Seq<u8>, parent: int, n: int)
    ensures
        forall|j: int, k: int|
            0 <= j < k < children_below(s, parent, n).len() ==> (#[trigger] children_below(
                s,
                parent,
                n,
            )[j]).1 <= (#[trigger] children_below(s, parent, n)[k]).0,
    decreases n - parent,
{
    if n > parent + 1 {
        lemma_children_apart(s, parent, n - 1);
        lemma_children_depth(s, parent, n - 1);
        let before = children_below(s, parent, n - 1);
        let now = children_below(s, parent, n);
        if is_child_start(s, parent, n - 1) {
            assert forall|j: int, k: int| 0 <= j < k < now.len() implies (#[trigger] now[j]).1 <= (
            #[trigger] now[k]).0 by {
                assert(now[j] == before[j]);
                if k < before.len() {
                    assert(now[k] == before[k]);
                } else if before[j].1 > n - 1 {
                    let a = before[j].0;
                    lemma_block_end(s, a);
                    lemma_unquoted(s, parent, a);
                    lemma_lex_compose(s, parent, a, n - 1);
                    assert(lex(s, a, n - 1).depth > 0);
                }
            }
        }
    }
}

proof fn lemma_children_depth(s: Seq<u8>, parent: int, n: int)
    ensures
        forall|k: int|
            0 <= k < children_below(s, parent, n).len() ==> {
                let b = #[trigger] children_below(s, parent, n)[k];
                &&& is_child_start(s, parent, b.0)
                &&& block_end(s, b.0) == Some(b.1)
                &&& b.0 < n
            },
    decreases n - parent,
{
    if n > parent + 1 {
        lemma_children_depth(s, parent, n - 1);
    }
}

/// The blocks directly inside the first `tag` block stand one behind the other.
pub proof fn lemma_direct_children_apart(s: Seq<u8>, tag: Seq<u8>)
    ensures
        forall|j: int, k: int|
            0 <= j < k < direct_children(s, tag).len() ==> (#[trigger] direct_children(s, tag)[j]).1
                <= (#[trigger] direct_children(s, tag)[k]).0,
{
    let starts = block_starts(s, tag);
    if starts.len() > 0 {
        if let Some(e) = block_end(s, starts[0]) {
            lemma_children_apart(s, starts[0], e);
        }
    }
}

/// Reading depends on the bytes read alone.
pub proof fn lemma_lex_same(s: Seq<u8>, t: Seq<u8>, from: int, to: int)
    requires
        0 <= from,
        to <= s.len(),
        to <= t.len(),
        forall|k: int| from <= k < to ==> s[k] == #[trigger] t[k],
    ensures
        lex(s, from, to) == lex(t, from, to),
    decreases to - from,
{
    if from < to {
        lemma_lex_same(s, t, from, to - 1);
        assert(s[to - 1] == t[to - 1]);
    }
}

/// Where everything is closed at `a`, the first such place depends on the text up to `a` alone.
proof fn lemma_close_same(s: Seq<u8>, t: Seq<u8>, start: int, e: int, a: int)
    requires
        0 <= start <= e <= a,
        a <= s.len(),
        a <= t.len(),
        forall|k: int| start <= k < a ==> s[k] == #[trigger] t[k],
        lex(s, start, a).depth == 0,
    ensures
        close_from(s, start, e) is Some,
        close_from(s, start, e)->0 <= a,
        close_from(t, start, e) == close_from(s, start, e),
    decreases a - e,
{
    lemma_lex_same(s, t, start, e);
    if lex(s, start, e).depth != 0 {
        lemma_close_same(s, t, start, e + 1, a);
    }
}

/// A longer scan finds what a shorter one found, and then only what lies beyond it.
pub proof fn lemma_starts_prefix(s: Seq<u8>, tag: Seq<u8>, m: int, n: int)
    requires
        0 <= m <= n,
    ensures
        starts_below(s, tag, m).len() <= starts_below(s, tag, n).len(),
        forall|k: int|
            0 <= k < starts_below(s, tag, m).len() ==> starts_below(s, tag, n)[k]
                == #[trigger] starts_below(s, tag, m)[k],
        forall|k: int|
            0 <= k < starts_below(s, tag, m).len() ==> #[trigger] starts_below(s, tag, m)[k] < m,
        forall|k: int|
            starts_below(s, tag, m).len() <= k < starts_below(s, tag, n).len()
                ==> #[trigger] starts_below(s, tag, n)[k] >= m,
    decreases n,
{
    if m < n {
        lemma_starts_prefix(s, tag, m, n - 1);
    } else if n > 0 {
        lemma_starts_prefix(s, tag, m - 1, n - 1);
        let before = starts_below(s, tag, n - 1);
        let now = starts_below(s, tag, n);
        assert forall|k: int| 0 <= k < now.len() implies #[trigger] now[k] < m by {
            if k < before.len() {
                assert(now[k] == before[k]);
            }
        }
    }
}

/// A longer scan finds what a shorter one found, and then only what lies beyond it.
pub proof fn lemma_children_prefix(s: Seq<u8>, parent: int, m: int, n: int)
    requires
        m <= n,
    ensures
        children_below(s, parent, m).len() <= children_below(s, parent, n).len(),
        forall|k: int|
            0 <= k < children_below(s, parent, m).len() ==> children_below(s, parent, n)[k]
                == #[trigger] children_below(s, parent, m)[k],
        forall|k: int|
            0 <= k < children_below(s, parent, m).len() ==> (#[trigger] children_below(
                s,
                parent,
                m,
            )[k]).0 < m,
        forall|k: int|
            children_below(s, parent, m).len() <= k < children_below(s, parent, n).len() ==> (
            #[trigger] children_below(s, parent, n)[k]).0 >= m,
    decreases n - parent,
{
    if n > parent + 1 {
        if m < n {
            lemma_children_prefix(s, parent, m, n - 1);
        } else {
            lemma_children_prefix(s, parent, m - 1, n - 1);
        }
    }
}

/// Where two texts agree up to a place directly inside a list, that list has
/// the same blocks up to there in both.
proof fn lemma_children_same(s: Seq<u8>, t: Seq<u8>, parent: int, n: int, a: int)
    requires
        0 <= parent,
        n <= a,
        a <= s.len(),
        a <= t.len(),
        forall|k: int| 0 <= k < a ==> s[k] == #[trigger] t[k],
        lex(s, parent, a).depth == 1,
    ensures
        children_below(t, parent, n) == children_below(s, parent, n),
        forall|k: int|
            0 <= k < children_below(s, parent, n).len() ==> (#[trigger] children_below(
                s,
                parent,
                n,
            )[k]).1 <= a,
    decreases n - parent,
{
    if n > parent + 1 {
        lemma_children_same(s, t, parent, n - 1, a);
        let i = n - 1;
        lemma_lex_same(s, t, parent, i);
        assert(s[i] == t[i]);
        if s[i] == 0x28 && !lex(s, parent, i).quoted && lex(s, parent, i).depth == 1 {
            lemma_unquoted(s, parent, i);
            lemma_lex_compose(s, parent, i, a);
            lemma_close_same(s, t, i, i + 1, a);
        }
    }
}

/// A list that is closed by `x` has an end, no later.
pub proof fn lemma_closed_by(t: Seq<u8>, start: int, e: int, x: int)
    requires
        0 <= start <= e <= x <= t.len(),
        lex(t, start, x).depth == 0,
    ensures
        close_from(t, start, e) is Some,
        e <= close_from(t, start, e)->0 <= x,
        lex(t, start, close_from(t, start, e)->0).depth == 0,
    decreases x - e,
{
    if lex(t, start, e).depth != 0 {
        lemma_closed_by(t, start, e + 1, x);
    }
}

/// Reading the same bytes at another place.
pub proof fn lemma_lex_shift(s: Seq<u8>, t: Seq<u8>, from: int, to: int, by: int)
    requires
        0 <= from <= to <= s.len(),
        0 <= from + by,
        to + by <= t.len(),
        forall|k: int| from <= k < to ==> s[k] == #[trigger] t[k + by],
    ensures
        lex(t, from + by, to + by) == lex(s, from, to),
    decreases to - from,
{
    if from < to {
        lemma_lex_shift(s, t, from, to - 1, by);
        assert(s[to - 1] == t[to - 1 + by]);
    }
}

/// A text is one block, with nothing but blanks behind it.
pub open spec fn lone_block(f: Seq<u8>) -> bool {
    block_end(f, 0) matches Some(m) && forall|i: int| m <= i < f.len() ==> is_blank(#[trigger] f[i])
}

/// Blanks behind a block leave the reader where the block left it.
proof fn lemma_lone_block(f: Seq<u8>, i: int)
    requires
        lone_block(f),
        block_end(f, 0)->0 <= i <= f.len(),
    ensures
        lex(f, 0, i) == (Lex { depth: 0, quoted: false, escaped: false }),
    decreases i,
{
    let m = block_end(f, 0)->0;
    lemma_block_end(f, 0);
    if i == m {
        lemma_unquoted(f, 0, m);
    } else {
        lemma_lone_block(f, i - 1);
        assert(is_blank(f[i - 1]));
    }
}

/// Nothing begins where there is no parenthesis.
proof fn lemma_none_between(s: Seq<u8>, parent: int, m: int, n: int)
    requires
        m <= n,
        forall|k: int| m <= k < n ==> #[trigger] s[k] != 0x28,
    ensures
        children_below(s, parent, n) == children_below(s, parent, m),
    decreases n - m,
{
    if m < n {
        lemma_none_between(s, parent, m, n - 1);
        assert(s[n - 1] != 0x28);
        if n <= parent + 1 {
            assert(children_below(s, parent, n) == children_below(s, parent, m));
        }
    }
}

/// Putting one block in the place of another keeps the blocks before it, and
/// is found next.
proof fn lemma_block_exchanged(s: Seq<u8>, tag: Seq<u8>, k: int, f: Seq<u8>)
    requires
        0 <= k < direct_children(s, tag).len(),
        lone_block(f),
        forall|i: int| 0 <= i < tag.len() ==> #[trigger] tag[i] != 0x28,
    ensures
        ({
            let b = direct_children(s, tag)[k];
            let t = spliced(s, b.0, b.1, f);
            let now = direct_children(t, tag);
            &&& k < now.len()
            &&& now[k] == (b.0, b.0 + block_end(f, 0)->0)
            &&& forall|j: int| 0 <= j < k ==> #[trigger] now[j] == direct_children(s, tag)[j]
        }),
{
    let all = direct_children(s, tag);
    let b = all[k];
    let a = b.0;
    let t = spliced(s, b.0, b.1, f);
    let p = block_starts(s, tag)[0];
    let e = block_end(s, p)->0;
    let a2 = a + f.len() as int;
    lemma_exchanged_parent(s, tag, k, f);
    lemma_children_depth(s, p, e);
    assert(is_child_start(s, p, a));
    lemma_block_end(s, a);
    lemma_block_end(f, 0);
    assert forall|i: int| 0 <= i <= a implies s[i] == #[trigger] t[i] by {
        if i == a {
            assert(t[a] == f[0]);
        }
    }
    let e2 = block_end(t, p)->0;
    lemma_lex_same(s, t, p, a);
    assert(t.subrange(a, a2) =~= f);
    lemma_children_same(s, t, p, a, a);
    lemma_children_prefix(s, p, a, e);
    lemma_children_prefix(t, p, a + 1, e2);
    lemma_close_within(t, a, a2, 0, 1);
    assert(is_child_start(t, p, a));
    let before = children_below(s, p, a);
    assert(children_below(t, p, a + 1) == before.push((a, a + block_end(f, 0)->0)));
    lemma_children_apart(s, p, e);
    assert(before.len() == k) by {
        if k < before.len() {
            assert(before[k].0 < a);
        } else if before.len() < k {
            let other = all[before.len() as int];
            assert(other.0 >= a);
            assert(other.1 <= b.0);
            lemma_block_end(s, other.0);
        }
    }
    let now = direct_children(t, tag);
    assert(now == children_below(t, p, e2));
    assert(now[k] == children_below(t, p, a + 1)[k]);
    assert forall|j: int| 0 <= j < k implies #[trigger] now[j] == all[j] by {
        assert(now[j] == children_below(t, p, a + 1)[j]);
        assert(before[j] == all[j]);
    }
}

proof fn lemma_starts_same(s: Seq<u8>, t: Seq<u8>, tag: Seq<u8>, n: int, a: int)
    requires
        n + tag.len() <= a,
        a < s.len(),
        a < t.len(),
        forall|k: int| 0 <= k <= a ==> s[k] == #[trigger] t[k],
    ensures
        starts_below(t, tag, n) == starts_below(s, tag, n),
    decreases n,
{
    if n > 0 {
        lemma_starts_same(s, t, tag, n - 1, a);
        let i = n - 1;
        lemma_lex_same(s, t, 0, i);
        assert(s[i] == t[i]);
        assert(s.subrange(i + 1, i + 1 + tag.len()) =~= t.subrange(i + 1, i + 1 + tag.len()));
        assert(s[i + 1 + tag.len()] == t[i + 1 + tag.len()]);
    }
}

/// A list that opens where the same bytes stand closes that much further on.
pub proof fn lemma_close_shift(s: Seq<u8>, t: Seq<u8>, start: int, e: int, by: int)
    requires
        0 <= start <= e,
        0 <= start + by,
        t.len() == s.len() + by,
        forall|k: int| start <= k < s.len() ==> s[k] == #[trigger] t[k + by],
    ensures
        close_from(t, start + by, e + by) == match close_from(s, start, e) {
            Some(c) => Some(c + by),
            None => None,
        },
    decreases s.len() - e + 1,
{
    if e <= s.len() {
        lemma_lex_shift(s, t, start, e, by);
        if lex(s, start, e).depth != 0 {
            lemma_close_shift(s, t, start, e + 1, by);
        }
    }
}

/// A block as it stands that much further on.
pub open spec fn shifted(b: (int, int), by: int) -> (int, int) {
    (b.0 + by, b.1 + by)
}

/// Nothing begins directly inside a list while one of its blocks is open.
proof fn lemma_none_within(s: Seq<u8>, parent: int, a: int, n: int)
    requires
        0 <= parent < a < n,
        !lex(s, parent, a).quoted,
        lex(s, parent, a).depth == 1,
        forall|k: int| a < k < n ==> (#[trigger] lex(s, a, k)).depth > 0,
    ensures
        children_below(s, parent, n) == children_below(s, parent, a + 1),
    decreases n,
{
    if n > a + 1 {
        lemma_none_within(s, parent, a, n - 1);
        lemma_unquoted(s, parent, a);
        lemma_lex_compose(s, parent, a, n - 1);
        assert(lex(s, a, n - 1).depth > 0);
    }
}

/// Two texts that read alike at `m` and `m + by`, and hold the same bytes from
/// there on, have the same blocks from there on.
proof fn lemma_children_shift(s: Seq<u8>, t: Seq<u8>, parent: int, m: int, n: int, by: int)
    requires
        0 <= parent < m <= n <= s.len(),
        parent < m + by,
        t.len() == s.len() + by,
        forall|k: int| m <= k < s.len() ==> s[k] == #[trigger] t[k + by],
        lex(t, parent, m + by) == lex(s, parent, m),
        !lex(s, parent, m).quoted,
    ensures
        children_below(t, parent, n + by).len() - children_below(t, parent, m + by).len()
            == children_below(s, parent, n).len() - children_below(s, parent, m).len(),
        forall|k: int|
            children_below(s, parent, m).len() <= k < children_below(s, parent, n).len()
                ==> children_below(t, parent, n + by)[k + children_below(t, parent, m + by).len()
                - children_below(s, parent, m).len()] == shifted(
                #[trigger] children_below(s, parent, n)[k],
                by,
            ),
    decreases n,
{
    if m < n {
        lemma_children_shift(s, t, parent, m, n - 1, by);
        let i = n - 1;
        lemma_unquoted(s, parent, m);
        lemma_lex_compose(s, parent, m, i);
        lemma_lex_compose(t, parent, m + by, i + by);
        lemma_lex_shift(s, t, m, i, by);
        assert(s[i] == t[i + by]);
        lemma_close_shift(s, t, i, i + 1, by);
        let old = children_below(s, parent, i);
        let now = children_below(s, parent, n);
        let was = children_below(t, parent, i + by);
        let new = children_below(t, parent, n + by);
        let d = children_below(t, parent, m + by).len() - children_below(s, parent, m).len();
        assert(is_child_start(t, parent, i + by) == is_child_start(s, parent, i));
        assert forall|k: int| children_below(s, parent, m).len() <= k < now.len() implies new[k + d]
            == shifted(#[trigger] now[k], by) by {
            if k < old.len() {
                assert(now[k] == old[k]);
                assert(was[k + d] == shifted(old[k], by));
            }
        }
    }
}

/// Putting one block in the place of another keeps all blocks around it.
pub proof fn lemma_blocks_exchanged(s: Seq<u8>, tag: Seq<u8>, k: int, f: Seq<u8>)
    requires
        0 <= k < direct_children(s, tag).len(),
        lone_block(f),
        forall|i: int| 0 <= i < tag.len() ==> #[trigger] tag[i] != 0x28,
    ensures
        ({
            let b = direct_children(s, tag)[k];
            let t = spliced(s, b.0, b.1, f);
            let by = f.len() - (b.1 - b.0);
            let now = direct_children(t, tag);
            &&& now.len() == direct_children(s, tag).len()
            &&& now[k] == (b.0, b.0 + block_end(f, 0)->0)
            &&& forall|j: int| 0 <= j < k ==> #[trigger] now[j] == direct_children(s, tag)[j]
            &&& forall|j: int|
                k < j < now.len() ==> #[trigger] now[j] == shifted(direct_children(s, tag)[j], by)
        }),
{
    let all = direct_children(s, tag);
    let b = all[k];
    let a = b.0;
    let t = spliced(s, b.0, b.1, f);
    let p = block_starts(s, tag)[0];
    let e = block_end(s, p)->0;
    let by = f.len() - (b.1 - a);
    let a2 = a + f.len() as int;
    let now = direct_children(t, tag);
    lemma_block_exchanged(s, tag, k, f);
    lemma_children_depth(s, p, e);
    assert(is_child_start(s, p, a));
    lemma_block_end(s, a);
    lemma_block_end(s, p);
    lemma_block_end(f, 0);
    assert forall|i: int| 0 <= i <= a implies s[i] == #[trigger] t[i] by {
        if i == a {
            assert(t[a] == f[0]);
        }
    }
    assert forall|i: int| b.1 <= i < s.len() implies s[i] == #[trigger] t[i + by] by {}
    lemma_exchanged_parent(s, tag, k, f);
    let e2 = e + by;
    // Up to the block, and through it.
    lemma_lex_same(s, t, p, a);
    lemma_unquoted(s, p, a);
    lemma_lex_compose(s, p, a, b.1);
    assert(t.subrange(a, a2) =~= f);
    assert forall|i: int| 0 <= i <= f.len() implies #[trigger] lex(t, a, a + i) == lex(f, 0, i) by {
        lemma_lex_within(t, a, a2, 0, i);
    }
    lemma_lex_compose(t, p, a, a2);
    assert(lex(t, a, a + f.len()) == lex(f, 0, f.len() as int));
    lemma_unquoted(s, a, b.1);
    lemma_lone_block(f, f.len() as int);
    assert(lex(t, p, a2) == lex(s, p, b.1));
    lemma_none_within(s, p, a, b.1);
    let m = a + block_end(f, 0)->0;
    assert forall|i: int| a < i < m implies (#[trigger] lex(t, a, i)).depth > 0 by {
        assert(lex(t, a, a + (i - a)) == lex(f, 0, i - a));
    }
    lemma_none_within(t, p, a, m);
    assert forall|i: int| m <= i < a2 implies #[trigger] t[i] != 0x28 by {
        assert(t.subrange(a, a2)[i - a] == t[i]);
        assert(is_blank(f[i - a]));
    }
    lemma_none_between(t, p, m, a2);
    // Behind it.
    lemma_children_shift(s, t, p, b.1, e, by);
    lemma_children_prefix(s, p, a, e);
    lemma_children_prefix(s, p, a + 1, e);
    lemma_children_prefix(t, p, a + 1, e2);
    lemma_children_apart(s, p, e);
    let before = children_below(s, p, a + 1);
    assert(before.len() == k + 1) by {
        if before.len() <= k {
            assert(all[k].0 >= a + 1);
        } else if before.len() > k + 1 {
            assert(before[k + 1] == all[k + 1]);
            assert(all[k].1 <= all[k + 1].0);
        }
    }
    let new_before = children_below(t, p, a + 1);
    assert(new_before.len() == k + 1) by {
        if new_before.len() <= k {
            assert(now[k].0 >= a + 1);
        } else if new_before.len() > k + 1 {
            lemma_children_apart(t, p, e2);
            assert(new_before[k + 1] == now[k + 1]);
            assert(now[k].1 <= now[k + 1].0);
        }
    }
}

/// The list around a block that was exchanged is found where it was, and ends
/// that much further on.
proof fn lemma_exchanged_parent(s: Seq<u8>, tag: Seq<u8>, k: int, f: Seq<u8>)
    requires
        0 <= k < direct_children(s, tag).len(),
        lone_block(f),
        forall|i: int| 0 <= i < tag.len() ==> #[trigger] tag[i] != 0x28,
    ensures
        ({
            let b = direct_children(s, tag)[k];
            let t = spliced(s, b.0, b.1, f);
            let p = block_starts(s, tag)[0];
            let by = f.len() - (b.1 - b.0);
            &&& block_starts(t, tag).len() > 0
            &&& block_starts(t, tag)[0] == p
            &&& p < b.0
            &&& b.1 < block_end(s, p)->0
            &&& block_end(t, p) == Some(block_end(s, p)->0 + by)
        }),
{
    let all = direct_children(s, tag);
    let b = all[k];
    let a = b.0;
    let t = spliced(s, b.0, b.1, f);
    let p = block_starts(s, tag)[0];
    let e = block_end(s, p)->0;
    let len = s.len() as int;
    let by = f.len() - (b.1 - a);
    let a2 = a + f.len() as int;
    lemma_children_depth(s, p, e);
    lemma_children(s, p, e);
    lemma_block_end(s, a);
    lemma_block_end(s, p);
    lemma_block_end(f, 0);
    lemma_starts_below(s, tag, len);
    assert(is_block_start(s, tag, p));
    assert(is_child_start(s, p, a));
    assert forall|i: int| 0 <= i <= a implies s[i] == #[trigger] t[i] by {
        if i == a {
            assert(t[a] == f[0]);
        }
    }
    if a < p + 1 + tag.len() {
        assert(s.subrange(p + 1, p + 1 + tag.len())[a - p - 1] == s[a]);
        assert(tag[a - p - 1] != 0x28);
    }
    lemma_starts_prefix(s, tag, p, len);
    assert(starts_below(s, tag, p).len() == 0) by {
        if starts_below(s, tag, p).len() > 0 {
            assert(starts_below(s, tag, p)[0] < p);
        }
    }
    lemma_starts_same(s, t, tag, p + 1, a);
    lemma_starts_prefix(t, tag, p + 1, t.len() as int);
    assert(starts_below(t, tag, p + 1)[0] == p);
    lemma_lex_same(s, t, p, a);
    lemma_unquoted(s, p, a);
    lemma_unquoted(s, a, b.1);
    lemma_lex_compose(s, p, a, b.1);
    assert(t.subrange(a, a2) =~= f);
    lemma_lex_within(t, a, a2, 0, f.len() as int);
    lemma_lone_block(f, f.len() as int);
    lemma_lex_compose(t, p, a, a2);
    if e <= b.1 {
        lemma_lex_compose(s, p, a, e);
        if e > a {
            if e < b.1 {
                assert(lex(s, a, e).depth > 0);
            }
        } else {
            assert(e < a || lex(s, p, e).depth == 1);
        }
    }
    assert(t[p] == s[p]);
    let e2 = e + by;
    assert forall|i: int| b.1 <= i <= s.len() implies #[trigger] lex(t, p, i + by) == lex(s, p, i) by {
        lemma_lex_compose(s, p, b.1, i);
        lemma_lex_shift(s, t, b.1, i, by);
        lemma_lex_compose(t, p, a2, i + by);
    }
    assert(lex(t, p, e + by) == lex(s, p, e));
    lemma_closed_by(t, p, p + 1, e2);
    let c = block_end(t, p)->0;
    if c < e2 {
        if c <= a {
            lemma_lex_same(s, t, p, c);
            assert(lex(s, p, c).depth > 0);
        } else if c < a2 {
            lemma_lex_within(t, a, a2, 0, c - a);
            lemma_lex_compose(t, p, a, c);
            if c - a < block_end(f, 0)->0 {
                assert(lex(f, 0, c - a).depth > 0);
            } else {
                lemma_lone_block(f, c - a);
            }
        } else {
            assert(lex(t, p, (c - by) + by) == lex(s, p, c - by));
            assert(lex(s, p, c - by).depth > 0);
        }
    }
}

/// The list around a block that was cut out is found where it was, and ends
/// that much earlier.
proof fn lemma_cut_parent(s: Seq<u8>, tag: Seq<u8>, k: int)
    requires
        0 <= k < direct_children(s, tag).len(),
        block_starts(s, tag)[0] + 1 + tag.len() < direct_children(s, tag)[k].0,
    ensures
        ({
            let b = direct_children(s, tag)[k];
            let t = spliced(s, b.0, b.1, Seq::empty());
            let p = block_starts(s, tag)[0];
            &&& block_starts(t, tag).len() > 0
            &&& block_starts(t, tag)[0] == p
            &&& b.1 < block_end(s, p)->0
            &&& lex(t, p, b.0) == lex(s, p, b.1)
            &&& block_end(t, p) == Some(block_end(s, p)->0 - (b.1 - b.0))
        }),
{
    let b = direct_children(s, tag)[k];
    let a = b.0;
    let t = spliced(s, b.0, b.1, Seq::empty());
    let p = block_starts(s, tag)[0];
    let e = block_end(s, p)->0;
    let len = s.len() as int;
    let by = a - b.1;
    lemma_children_depth(s, p, e);
    lemma_children(s, p, e);
    lemma_block_end(s, a);
    lemma_block_end(s, p);
    lemma_starts_below(s, tag, len);
    assert(is_block_start(s, tag, p));
    assert(is_child_start(s, p, a));
    assert forall|i: int| 0 <= i <= a - 1 implies s[i] == #[trigger] t[i] by {}
    assert forall|i: int| b.1 <= i < s.len() implies s[i] == #[trigger] t[i + by] by {}
    lemma_starts_prefix(s, tag, p, len);
    assert(starts_below(s, tag, p).len() == 0) by {
        if starts_below(s, tag, p).len() > 0 {
            assert(starts_below(s, tag, p)[0] < p);
        }
    }
    lemma_unquoted(s, p, a);
    lemma_unquoted(s, a, b.1);
    lemma_lex_compose(s, p, a, b.1);
    lemma_lex_same(s, t, p, a);
    if e <= b.1 {
        lemma_lex_compose(s, p, a, e);
        if e > a {
            if e < b.1 {
                assert(lex(s, a, e).depth > 0);
            }
        } else {
            assert(e < a || lex(s, p, e).depth == 1);
        }
    }
    lemma_starts_same(s, t, tag, p + 1, a - 1);
    lemma_starts_prefix(t, tag, p + 1, t.len() as int);
    assert(starts_below(t, tag, p + 1)[0] == p);
    assert(t[p] == s[p]);
    let e2 = e + by;
    assert forall|i: int| b.1 <= i <= s.len() implies #[trigger] lex(t, p, i + by) == lex(s, p, i) by {
        lemma_lex_compose(s, p, b.1, i);
        lemma_lex_shift(s, t, b.1, i, by);
        lemma_lex_compose(t, p, a, i + by);
    }
    assert(lex(t, p, e + by) == lex(s, p, e));
    lemma_closed_by(t, p, p + 1, e2);
    let c = block_end(t, p)->0;
    if c < e2 {
        if c <= a {
            lemma_lex_same(s, t, p, c);
            assert(lex(s, p, c).depth > 0);
        } else {
            assert(lex(t, p, (c - by) + by) == lex(s, p, c - by));
            assert(lex(s, p, c - by).depth > 0);
        }
    }
}

/// Cutting out a block that does not stand right behind the head of its list
/// keeps all blocks around it.
pub proof fn lemma_block_cut_out(s: Seq<u8>, tag: Seq<u8>, k: int)
    requires
        0 <= k < direct_children(s, tag).len(),
        block_starts(s, tag)[0] + 1 + tag.len() < direct_children(s, tag)[k].0,
    ensures
        ({
            let b = direct_children(s, tag)[k];
            let now = direct_children(spliced(s, b.0, b.1, Seq::empty()), tag);
            &&& now.len() == direct_children(s, tag).len() - 1
            &&& forall|j: int| 0 <= j < k ==> #[trigger] now[j] == direct_children(s, tag)[j]
            &&& forall|j: int|
                k <= j < now.len() ==> #[trigger] now[j] == shifted(
                    direct_children(s, tag)[j + 1],
                    b.0 - b.1,
                )
        }),
{
    let all = direct_children(s, tag);
    let b = all[k];
    let a = b.0;
    let t = spliced(s, b.0, b.1, Seq::empty());
    let p = block_starts(s, tag)[0];
    let e = block_end(s, p)->0;
    let by = a - b.1;
    let now = direct_children(t, tag);
    lemma_cut_parent(s, tag, k);
    lemma_children_depth(s, p, e);
    assert(is_child_start(s, p, a));
    lemma_block_end(s, a);
    lemma_block_end(s, p);
    assert forall|i: int| 0 <= i < a implies s[i] == #[trigger] t[i] by {}
    assert forall|i: int| b.1 <= i < s.len() implies s[i] == #[trigger] t[i + by] by {}
    lemma_unquoted(s, a, b.1);
    lemma_unquoted(s, p, a);
    lemma_lex_compose(s, p, a, b.1);
    lemma_children_same(s, t, p, a, a);
    lemma_none_within(s, p, a, b.1);
    lemma_children_shift(s, t, p, b.1, e, by);
    lemma_children_prefix(s, p, a, e);
    lemma_children_prefix(s, p, a + 1, e);
    lemma_children_prefix(t, p, a, e + by);
    lemma_children_apart(s, p, e);
    let before = children_below(s, p, a);
    assert(children_below(s, p, a + 1) == before.push(b));
    assert(before.len() == k) by {
        if k < before.len() {
            assert(before[k].0 < a);
        } else if before.len() < k {
            let other = all[before.len() as int];
            assert(other.0 >= a);
            assert(other.1 <= b.0);
            lemma_block_end(s, other.0);
        }
    }
    assert forall|j: int| 0 <= j < k implies #[trigger] now[j] == all[j] by {
        assert(now[j] == children_below(t, p, a)[j]);
        assert(before[j] == all[j]);
    }
    assert forall|j: int| k <= j < now.len() implies #[trigger] now[j] == shifted(all[j + 1], by) by {
        assert(children_below(s, p, e)[j + 1] == all[j + 1]);
    }
}

/// Where no list of that head opens below `n`, none opens there in a text that
/// is the same up to `a`, where a parenthesis stands in both.
proof fn lemma_no_start_below(s: Seq<u8>, t: Seq<u8>, tag: Seq<u8>, n: int, a: int)
    requires
        n <= a < s.len(),
        a < t.len(),
        s[a] == 0x28,
        forall|k: int| 0 <= k <= a ==> s[k] == #[trigger] t[k],
        forall|i: int| 0 <= i < tag.len() ==> #[trigger] tag[i] != 0x28,
        starts_below(s, tag, n).len() == 0,
    ensures
        starts_below(t, tag, n).len() == 0,
    decreases n,
{
    if n > 0 {
        let i = n - 1;
        lemma_no_start_below(s, t, tag, n - 1, a);
        if is_block_start(t, tag, i) {
            lemma_lex_same(s, t, 0, i);
            assert(s[i] == t[i]);
            if i + 1 + tag.len() <= a {
                assert(s.subrange(i + 1, i + 1 + tag.len()) =~= t.subrange(
                    i + 1,
                    i + 1 + tag.len(),
                ));
                assert(s[i + 1 + tag.len()] == t[i + 1 + tag.len()]);
                assert(is_block_start(s, tag, i));
            } else {
                assert(t.subrange(i + 1, i + 1 + tag.len())[a - i - 1] == t[a]);
                assert(tag[a - i - 1] != 0x28);
            }
        }
    }
}

/// The first list of a head, exchanged for another of that head, is still the
/// first.
pub proof fn lemma_first_exchanged(s: Seq<u8>, tag: Seq<u8>, f: Seq<u8>)
    requires
        block_starts(s, tag).len() > 0,
        block_end(s, block_starts(s, tag)[0]) is Some,
        block_end(f, 0) == Some(f.len() as int),
        is_block_start(f, tag, 0),
        1 + tag.len() < f.len(),
        forall|i: int| 0 <= i < tag.len() ==> #[trigger] tag[i] != 0x28,
    ensures
        ({
            let a = block_starts(s, tag)[0];
            let t = spliced(s, a, block_end(s, a)->0, f);
            &&& block_starts(t, tag).len() > 0
            &&& block_starts(t, tag)[0] == a
            &&& block_end(t, a) == Some(a + f.len())
        }),
{
    let len = s.len() as int;
    let a = block_starts(s, tag)[0];
    let e = block_end(s, a)->0;
    let t = spliced(s, a, e, f);
    let w = tag.len() as int;
    lemma_block_end(s, a);
    lemma_starts_below(s, tag, len);
    assert(is_block_start(s, tag, a));
    lemma_starts_prefix(s, tag, a, len);
    assert(starts_below(s, tag, a).len() == 0) by {
        if starts_below(s, tag, a).len() > 0 {
            assert(starts_below(s, tag, a)[0] < a);
        }
    }
    assert(t.subrange(a, a + f.len()) =~= f);
    assert forall|i: int| 0 <= i < f.len() implies #[trigger] f[i] == t[a + i] by {}
    assert forall|i: int| 0 <= i <= a implies s[i] == #[trigger] t[i] by {
        if i == a {
            assert(f[0] == t[a]);
        }
    }
    lemma_no_start_below(s, t, tag, a, a);
    lemma_lex_same(s, t, 0, a);
    assert(t.subrange(a + 1, a + 1 + w) =~= f.subrange(1, 1 + w));
    assert(f[1 + w] == t[a + (1 + w)]);
    assert(is_block_start(t, tag, a));
    lemma_starts_prefix(t, tag, a + 1, t.len() as int);
    assert(starts_below(t, tag, a + 1)[0] == a);
    lemma_close_within(t, a, a + f.len(), 0, 1);
}

} // verus!
