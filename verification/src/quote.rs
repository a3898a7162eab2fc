//! Blanks, lines, and the escaping of strings.

use vstd::prelude::*;
use vstd::string::{StrSliceExecFns, StringExecFns};
use crate::node::{closing_quote, node_at, unescaped, Sexp};
use crate::text::{join3, lemma_char_bytes, lemma_utf8_add, utf8};

verus! {

/// White space: the characters with the Unicode property `White_Space`.
pub open spec fn is_space(c: char) -> bool {
    ||| '\u{9}' <= c <= '\u{d}'
    ||| c == '\u{20}'
    ||| c == '\u{85}'
    ||| c == '\u{a0}'
    ||| c == '\u{1680}'
    ||| '\u{2000}' <= c <= '\u{200a}'
    ||| c == '\u{2028}'
    ||| c == '\u{2029}'
    ||| c == '\u{202f}'
    ||| c == '\u{205f}'
    ||| c == '\u{3000}'
}

/// The first offset at or after `i` that holds no white space.
pub open spec fn past_spaces(s: Seq<char>, i: int) -> int
    decreases s.len() - i,
{
    if i >= s.len() || !is_space(s[i]) {
        i
    } else {
        past_spaces(s, i + 1)
    }
}

/// The first offset at or after `i` that holds white space.
pub open spec fn past_word(s: Seq<char>, i: int) -> int
    decreases s.len() - i,
{
    if i >= s.len() || is_space(s[i]) {
        i
    } else {
        past_word(s, i + 1)
    }
}

fn space(c: char) -> (r: bool)
    ensures
        r == is_space(c),
{
    ('\u{9}' <= c && c <= '\u{d}') || c == '\u{20}' || c == '\u{85}' || c == '\u{a0}' || c
        == '\u{1680}' || ('\u{2000}' <= c && c <= '\u{200a}') || c == '\u{2028}' || c == '\u{2029}'
        || c == '\u{202f}' || c == '\u{205f}' || c == '\u{3000}'
}

/// The first offset at or after `i`, counted in characters, without white space.
pub fn skip_spaces(s: &str, i: usize) -> (r: usize)
    requires
        i <= s@.len(),
    ensures
        r == past_spaces(s@, i as int),
        i <= r <= s@.len(),
{
    let n = s.unicode_len();
    let mut k: usize = i;
    while k < n && space(s.get_char(k))
        invariant
            i <= k <= n,
            n == s@.len(),
            past_spaces(s@, i as int) == past_spaces(s@, k as int),
        decreases n - k,
    {
        k += 1;
    }
    k
}

/// The first offset at or after `i`, counted in characters, with white space.
pub fn skip_word(s: &str, i: usize) -> (r: usize)
    requires
        i <= s@.len(),
    ensures
        r == past_word(s@, i as int),
        i <= r <= s@.len(),
{
    let n = s.unicode_len();
    let mut k: usize = i;
    while k < n && !space(s.get_char(k))
        invariant
            i <= k <= n,
            n == s@.len(),
            past_word(s@, i as int) == past_word(s@, k as int),
        decreases n - k,
    {
        k += 1;
    }
    k
}

/// How one character stands in a quoted string. A line break is escaped only
/// where `breaks` says so.
pub open spec fn escaped_char(c: char, breaks: bool) -> Seq<char> {
    if c == '\\' {
        seq!['\\', '\\']
    } else if c == '"' {
        seq!['\\', '"']
    } else if breaks && c == '\n' {
        seq!['\\', 'n']
    } else {
        seq![c]
    }
}

/// How a text stands in a quoted string.
pub open spec fn escaped(s: Seq<char>, breaks: bool) -> Seq<char>
    decreases s.len(),
{
    if s.len() == 0 {
        Seq::empty()
    } else {
        escaped(s.drop_last(), breaks) + escaped_char(s.last(), breaks)
    }
}

/// How a text stands in a quoted string.
pub fn escape(s: &str, breaks: bool) -> (r: String)
    ensures
        r@ == escaped(s@, breaks),
{
    let n = s.unicode_len();
    let mut out = String::new();
    let mut i: usize = 0;
    proof {
        reveal_strlit("\\\\");
        reveal_strlit("\\\"");
        reveal_strlit("\\n");
    }
    while i < n
        invariant
            i <= n,
            n == s@.len(),
            out@ == escaped(s@.take(i as int), breaks),
            "\\\\"@ == seq!['\\', '\\'],
            "\\\""@ == seq!['\\', '"'],
            "\\n"@ == seq!['\\', 'n'],
        decreases n - i,
    {
        let c = s.get_char(i);
        proof {
            assert(s@.take(i + 1).drop_last() =~= s@.take(i as int));
            assert(s@.take(i + 1).last() == c);
        }
        if c == '\\' {
            out.append("\\\\");
        } else if c == '"' {
            out.append("\\\"");
        } else if breaks && c == '\n' {
            out.append("\\n");
        } else {
            let one = s.substring_char(i, i + 1);
            assert(one@ =~= seq![c]);
            out.append(one);
        }
        i += 1;
    }
    assert(s@.take(n as int) =~= s@);
    out
}

/// A text as a quoted string.
pub open spec fn quoted(s: Seq<char>, breaks: bool) -> Seq<char> {
    "\""@ + escaped(s, breaks) + "\""@
}

/// A text as a quoted string on one line.
pub fn quote(s: &str) -> (r: String)
    ensures
        r@ == quoted(s@, true),
{
    let inner = escape(s, true);
    join3("\"", inner.as_str(), "\"")
}

proof fn lemma_escaped_first(s: Seq<char>, breaks: bool)
    requires
        s.len() > 0,
    ensures
        escaped(s, breaks) == escaped_char(s[0], breaks) + escaped(s.drop_first(), breaks),
    decreases s.len(),
{
    if s.len() > 1 {
        lemma_escaped_first(s.drop_last(), breaks);
        assert(s.drop_last().drop_first() =~= s.drop_first().drop_last());
        assert(escaped(s, breaks) =~= escaped_char(s[0], breaks) + (escaped(
            s.drop_first().drop_last(),
            breaks,
        ) + escaped_char(s.last(), breaks)));
    } else {
        assert(s.drop_last() =~= Seq::<char>::empty());
        assert(s.drop_first() =~= Seq::<char>::empty());
        assert(escaped(s.drop_last(), breaks) =~= Seq::<char>::empty());
        assert(escaped(s, breaks) =~= escaped_char(s[0], breaks) + Seq::<char>::empty());
    }
}

/// The bytes of an escaped character: a backslash and one more, or the
/// character's own, among them neither a backslash nor a quote.
proof fn lemma_escaped_char(c: char, breaks: bool)
    ensures
        ({
            let e = utf8(escaped_char(c, breaks));
            if c == '\\' || c == '"' || (breaks && c == '\n') {
                &&& e.len() == 2
                &&& e[0] == 0x5c
                &&& utf8(seq![c]) == seq![if e[1] == 0x6e { 0x0au8 } else { e[1] }]
            } else {
                &&& e == utf8(seq![c])
                &&& e.len() > 0
                &&& forall|i: int| 0 <= i < e.len() ==> #[trigger] e[i] != 0x5c && e[i] != 0x22
            }
        }),
{
    lemma_char_bytes(c);
    if c == '\\' || c == '"' || (breaks && c == '\n') {
        let second = escaped_char(c, breaks)[1];
        lemma_char_bytes('\\');
        lemma_char_bytes(second);
        lemma_utf8_add(seq!['\\'], seq![second]);
        assert(escaped_char(c, breaks) =~= seq!['\\'] + seq![second]);
    }
}

proof fn lemma_unescaped_plain(a: Seq<u8>, b: Seq<u8>)
    requires
        forall|i: int| 0 <= i < a.len() ==> #[trigger] a[i] != 0x5c,
    ensures
        unescaped(a + b) == a + unescaped(b),
    decreases a.len(),
{
    if a.len() == 0 {
        assert(a + b =~= b);
        assert(a + unescaped(b) =~= unescaped(b));
    } else {
        lemma_unescaped_plain(a.skip(1), b);
        assert((a + b)[0] == a[0]);
        assert((a + b).skip(1) =~= a.skip(1) + b);
        assert(a + unescaped(b) =~= seq![a[0]] + (a.skip(1) + unescaped(b)));
    }
}

proof fn lemma_unescaped_escaped(s: Seq<char>, breaks: bool)
    ensures
        unescaped(utf8(escaped(s, breaks))) == utf8(s),
    decreases s.len(),
{
    if s.len() > 0 {
        let c = s[0];
        let tail = s.drop_first();
        let e = utf8(escaped_char(c, breaks));
        let rest = utf8(escaped(tail, breaks));
        lemma_escaped_first(s, breaks);
        lemma_unescaped_escaped(tail, breaks);
        lemma_escaped_char(c, breaks);
        lemma_utf8_add(escaped_char(c, breaks), escaped(tail, breaks));
        lemma_utf8_add(seq![c], tail);
        assert(s =~= seq![c] + tail);
        if c == '\\' || c == '"' || (breaks && c == '\n') {
            assert((e + rest).skip(2) =~= rest);
            assert((e + rest)[0] == e[0]);
            assert((e + rest)[1] == e[1]);
        } else {
            lemma_unescaped_plain(e, rest);
        }
    } else {
        assert(escaped(s, breaks) =~= Seq::<char>::empty());
        assert(utf8(Seq::<char>::empty()) =~= Seq::<u8>::empty());
    }
}

proof fn lemma_closing_plain(t: Seq<u8>, i: int, k: int)
    requires
        0 <= i <= k <= t.len(),
        forall|j: int| i <= j < k ==> #[trigger] t[j] != 0x5c && t[j] != 0x22,
    ensures
        closing_quote(t, i) == closing_quote(t, k),
    decreases k - i,
{
    if i < k {
        assert(t[i] != 0x5c && t[i] != 0x22);
        lemma_closing_plain(t, i + 1, k);
    }
}

proof fn lemma_closing(t: Seq<u8>, i: int, s: Seq<char>, breaks: bool)
    requires
        0 <= i,
        i + utf8(escaped(s, breaks)).len() < t.len(),
        t.subrange(i, i + utf8(escaped(s, breaks)).len()) == utf8(escaped(s, breaks)),
        t[i + utf8(escaped(s, breaks)).len()] == 0x22,
    ensures
        closing_quote(t, i) == Some(i + utf8(escaped(s, breaks)).len()),
    decreases s.len(),
{
    let all = utf8(escaped(s, breaks));
    if s.len() > 0 {
        let c = s[0];
        let tail = s.drop_first();
        let e = utf8(escaped_char(c, breaks));
        let rest = utf8(escaped(tail, breaks));
        let n = e.len() as int;
        lemma_escaped_first(s, breaks);
        lemma_escaped_char(c, breaks);
        lemma_utf8_add(escaped_char(c, breaks), escaped(tail, breaks));
        assert(all =~= e + rest);
        assert forall|j: int| 0 <= j < n implies t[i + j] == #[trigger] e[j] by {
            assert(t.subrange(i, i + all.len())[j] == t[i + j]);
        }
        assert(t.subrange(i + n, i + n + rest.len()) =~= t.subrange(i, i + all.len()).subrange(
            n,
            n + rest.len(),
        ));
        assert((e + rest).subrange(n, n + rest.len()) =~= rest);
        lemma_closing(t, i + n, tail, breaks);
        if c == '\\' || c == '"' || (breaks && c == '\n') {
            assert(t[i] == e[0]);
        } else {
            assert forall|j: int| i <= j < i + n implies #[trigger] t[j] != 0x5c && t[j]
                != 0x22 by {
                assert(t[i + (j - i)] == e[j - i]);
            }
            lemma_closing_plain(t, i, i + n);
        }
    } else {
        assert(escaped(s, breaks) =~= Seq::<char>::empty());
        assert(utf8(Seq::<char>::empty()) =~= Seq::<u8>::empty());
    }
}

/// A text that was quoted reads back as itself, wherever the quoted string stands.
pub proof fn law_quoted_reads_back(
    before: Seq<u8>,
    s: Seq<char>,
    breaks: bool,
    after: Seq<u8>,
)
    ensures
        node_at(before + utf8(quoted(s, breaks)) + after, before.len() as int) == Some(
            (Sexp::Str(utf8(s)), (before.len() + utf8(quoted(s, breaks)).len()) as int),
        ),
{
    reveal_strlit("\"");
    let inner = utf8(escaped(s, breaks));
    let mark = utf8("\""@);
    crate::text::lemma_one_byte("\""@);
    lemma_utf8_add("\""@, escaped(s, breaks));
    lemma_utf8_add("\""@ + escaped(s, breaks), "\""@);
    let q = utf8(quoted(s, breaks));
    assert(q =~= mark + inner + mark);
    let t = before + q + after;
    let i = before.len() as int;
    assert(t[i] == q[0]);
    assert(t.subrange(i + 1, i + 1 + inner.len()) =~= inner);
    assert(t[i + 1 + inner.len()] == q[q.len() - 1]);
    lemma_closing(t, i + 1, s, breaks);
    lemma_unescaped_escaped(s, breaks);
}

} // verus!
