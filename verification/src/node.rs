//! S-expression trees: reading them from text and looking into them.

use vstd::prelude::*;
use vstd::string::StringExecFns;
use vstd::utf8::is_char_boundary;
use crate::scan::is_delimiter;
use crate::text::{
    byte_len, lemma_ascii_boundary, lemma_end_boundary, lemma_utf8_add, same, substr, utf8,
};

verus! {

/// A node: a bare word, a quoted string, or a list.
#[derive(Debug)]
pub enum SexpNode {
    Atom(String),
    Str(String),
    List(Vec<SexpNode>),
}

/// A node as a mathematical value, with texts as their bytes.
pub enum Sexp {
    Atom(Seq<u8>),
    Str(Seq<u8>),
    List(Seq<Sexp>),
}

/// The values of a run of nodes.
pub open spec fn trees(v: Seq<SexpNode>) -> Seq<Sexp>
    decreases v,
{
    if v.len() == 0 {
        Seq::empty()
    } else {
        trees(v.drop_last()).push(v.last().tree())
    }
}

impl SexpNode {
    /// The node's value.
    pub open spec fn tree(&self) -> Sexp
        decreases self,
    {
        match self {
            SexpNode::Atom(s) => Sexp::Atom(utf8(s@)),
            SexpNode::Str(s) => Sexp::Str(utf8(s@)),
            SexpNode::List(v) => Sexp::List(trees(v@)),
        }
    }
}

/// Nodes and their values correspond one to one.
pub proof fn lemma_trees(v: Seq<SexpNode>)
    ensures
        trees(v).len() == v.len(),
        forall|i: int| 0 <= i < v.len() ==> #[trigger] trees(v)[i] == v[i].tree(),
    decreases v.len(),
{
    if v.len() > 0 {
        lemma_trees(v.drop_last());
    }
}

/// Adding a node adds its value.
pub proof fn lemma_trees_push(v: Seq<SexpNode>, n: SexpNode)
    ensures
        trees(v.push(n)) == trees(v).push(n.tree()),
{
    assert(v.push(n).drop_last() =~= v);
}

// ── Looking into a tree ──────────────────────────────────────────────────────

/// The text of a bare word or a quoted string.
pub open spec fn text_of(t: Sexp) -> Option<Seq<u8>> {
    match t {
        Sexp::Atom(s) => Some(s),
        Sexp::Str(s) => Some(s),
        Sexp::List(_) => None,
    }
}

/// The item of a list at an index; its head is at 0.
pub open spec fn item(t: Sexp, i: int) -> Option<Sexp> {
    match t {
        Sexp::List(items) => if 0 <= i < items.len() {
            Some(items[i])
        } else {
            None
        },
        _ => None,
    }
}

/// The bare word a list begins with.
pub open spec fn head(t: Sexp) -> Option<Seq<u8>> {
    match item(t, 0) {
        Some(Sexp::Atom(s)) => Some(s),
        _ => None,
    }
}

/// The first list headed `tag` among `items` from index `i` on.
pub open spec fn first_headed(items: Seq<Sexp>, tag: Seq<u8>, i: int) -> Option<Sexp>
    decreases items.len() - i,
{
    if i >= items.len() {
        None
    } else if head(items[i]) == Some(tag) {
        Some(items[i])
    } else {
        first_headed(items, tag, i + 1)
    }
}

/// The first list headed `tag` directly inside `t`.
pub open spec fn found(t: Sexp, tag: Seq<u8>) -> Option<Sexp> {
    match t {
        Sexp::List(items) => first_headed(items, tag, 0),
        _ => None,
    }
}

/// The lists headed `tag` among the first `n` of `items`, in order.
pub open spec fn headed_below(items: Seq<Sexp>, tag: Seq<u8>, n: int) -> Seq<Sexp>
    decreases n,
{
    if n <= 0 {
        Seq::empty()
    } else if head(items[n - 1]) == Some(tag) {
        headed_below(items, tag, n - 1).push(items[n - 1])
    } else {
        headed_below(items, tag, n - 1)
    }
}

/// Every list headed `tag` directly inside `t`, in order.
pub open spec fn found_all(t: Sexp, tag: Seq<u8>) -> Seq<Sexp> {
    match t {
        Sexp::List(items) => headed_below(items, tag, items.len() as int),
        _ => Seq::empty(),
    }
}

/// The text behind the head of the first list headed `tag` inside `t`.
pub open spec fn found_text(t: Sexp, tag: Seq<u8>) -> Option<Seq<u8>> {
    match found(t, tag) {
        Some(c) => match item(c, 1) {
            Some(n) => text_of(n),
            None => None,
        },
        None => None,
    }
}

/// The values behind a run of references.
pub open spec fn ref_trees(v: Seq<&SexpNode>) -> Seq<Sexp> {
    v.map_values(|n: &SexpNode| n.tree())
}

impl SexpNode {
    /// The text of a bare word or a quoted string.
    pub fn as_str(&self) -> (r: Option<&str>)
        ensures
            match r {
                Some(s) => text_of(self.tree()) == Some(utf8(s@)),
                None => text_of(self.tree()) is None,
            },
    {
        match self {
            SexpNode::Atom(s) => Some(s.as_str()),
            SexpNode::Str(s) => Some(s.as_str()),
            SexpNode::List(_) => None,
        }
    }

    /// The items of a list, its head included.
    pub fn children(&self) -> (r: Option<&Vec<SexpNode>>)
        ensures
            match r {
                Some(v) => self.tree() == Sexp::List(trees(v@)),
                None => !(self.tree() is List),
            },
    {
        match self {
            SexpNode::List(v) => Some(v),
            _ => None,
        }
    }

    /// The item of a list at an index; its head is at 0.
    pub fn get(&self, i: usize) -> (r: Option<&SexpNode>)
        ensures
            match r {
                Some(n) => item(self.tree(), i as int) == Some(n.tree()),
                None => item(self.tree(), i as int) is None,
            },
    {
        match self {
            SexpNode::List(v) => {
                proof {
                    lemma_trees(v@);
                }
                if i < v.len() {
                    Some(&v[i])
                } else {
                    None
                }
            },
            _ => None,
        }
    }

    /// The bare word a list begins with.
    pub fn head(&self) -> (r: Option<&str>)
        ensures
            match r {
                Some(s) => head(self.tree()) == Some(utf8(s@)),
                None => head(self.tree()) is None,
            },
    {
        match self.get(0) {
            Some(SexpNode::Atom(s)) => Some(s.as_str()),
            _ => None,
        }
    }

    /// Whether this is a list headed `tag`.
    pub fn is_headed(&self, tag: &str) -> (r: bool)
        ensures
            r == (head(self.tree()) == Some(utf8(tag@))),
    {
        match self.head() {
            Some(h) => {
                let r = same(h, tag);
                proof {
                    if !r && utf8(h@) == utf8(tag@) {
                        crate::text::lemma_utf8_injective(h@, tag@);
                    }
                }
                r
            },
            None => false,
        }
    }

    /// The first list headed `tag` directly inside this one.
    pub fn find(&self, tag: &str) -> (r: Option<&SexpNode>)
        ensures
            match r {
                Some(n) => found(self.tree(), utf8(tag@)) == Some(n.tree()),
                None => found(self.tree(), utf8(tag@)) is None,
            },
    {
        let v = match self {
            SexpNode::List(v) => v,
            _ => {
                return None;
            },
        };
        proof {
            lemma_trees(v@);
        }
        let mut i: usize = 0;
        while i < v.len()
            invariant
                i <= v@.len(),
                trees(v@).len() == v@.len(),
                forall|k: int| 0 <= k < v@.len() ==> #[trigger] trees(v@)[k] == v@[k].tree(),
                self.tree() == Sexp::List(trees(v@)),
                found(self.tree(), utf8(tag@)) == first_headed(trees(v@), utf8(tag@), i as int),
            decreases v@.len() - i,
        {
            assert(trees(v@)[i as int] == v@[i as int].tree());
            if v[i].is_headed(tag) {
                return Some(&v[i]);
            }
            i += 1;
        }
        None
    }

    /// Every list headed `tag` directly inside this one, in order.
    pub fn find_all(&self, tag: &str) -> (r: Vec<&SexpNode>)
        ensures
            ref_trees(r@) == found_all(self.tree(), utf8(tag@)),
    {
        let mut out: Vec<&SexpNode> = Vec::new();
        assert(ref_trees(out@) =~= Seq::<Sexp>::empty());
        let v = match self {
            SexpNode::List(v) => v,
            _ => {
                return out;
            },
        };
        proof {
            lemma_trees(v@);
        }
        let mut i: usize = 0;
        while i < v.len()
            invariant
                i <= v@.len(),
                trees(v@).len() == v@.len(),
                forall|k: int| 0 <= k < v@.len() ==> #[trigger] trees(v@)[k] == v@[k].tree(),
                ref_trees(out@) == headed_below(trees(v@), utf8(tag@), i as int),
            decreases v@.len() - i,
        {
            let ghost before = out@;
            assert(trees(v@)[i as int] == v@[i as int].tree());
            if v[i].is_headed(tag) {
                out.push(&v[i]);
                assert(ref_trees(out@) =~= ref_trees(before).push(v@[i as int].tree()));
            }
            i += 1;
        }
        out
    }

    /// The text behind the head of the first list headed `tag` inside this one.
    pub fn find_str(&self, tag: &str) -> (r: Option<&str>)
        ensures
            match r {
                Some(s) => found_text(self.tree(), utf8(tag@)) == Some(utf8(s@)),
                None => found_text(self.tree(), utf8(tag@)) is None,
            },
    {
        match self.find(tag) {
            Some(c) => match c.get(1) {
                Some(n) => n.as_str(),
                None => None,
            },
            None => None,
        }
    }
}

/// Whether two trees are the same tree.
pub fn same_tree(a: &SexpNode, b: &SexpNode) -> (r: bool)
    ensures
        r == (a.tree() == b.tree()),
    decreases a,
{
    match (a, b) {
        (SexpNode::Atom(x), SexpNode::Atom(y)) => same_bytes(x.as_str(), y.as_str()),
        (SexpNode::Str(x), SexpNode::Str(y)) => same_bytes(x.as_str(), y.as_str()),
        (SexpNode::List(x), SexpNode::List(y)) => {
            proof {
                lemma_trees(x@);
                lemma_trees(y@);
            }
            if x.len() != y.len() {
                return false;
            }
            let mut i: usize = 0;
            while i < x.len()
                invariant
                    i <= x@.len() == y@.len(),
                    *a == SexpNode::List(*x),
                    *b == SexpNode::List(*y),
                    trees(x@).len() == x@.len(),
                    trees(y@).len() == y@.len(),
                    forall|k: int| 0 <= k < x@.len() ==> #[trigger] trees(x@)[k] == x@[k].tree(),
                    forall|k: int| 0 <= k < y@.len() ==> #[trigger] trees(y@)[k] == y@[k].tree(),
                    forall|k: int| 0 <= k < i ==> trees(x@)[k] == trees(y@)[k],
                decreases x@.len() - i,
            {
                assert(trees(x@)[i as int] == x@[i as int].tree());
                assert(trees(y@)[i as int] == y@[i as int].tree());
                if !same_tree(&x[i], &y[i]) {
                    return false;
                }
                i += 1;
            }
            assert(trees(x@) =~= trees(y@));
            true
        },
        _ => false,
    }
}

/// Whether two texts have the same bytes.
pub fn same_bytes(a: &str, b: &str) -> (r: bool)
    ensures
        r == (utf8(a@) == utf8(b@)),
{
    let r = same(a, b);
    proof {
        if utf8(a@) == utf8(b@) {
            crate::text::lemma_utf8_injective(a@, b@);
        }
    }
    r
}

// ── Reading a tree from text ─────────────────────────────────────────────────

/// A byte between tokens.
pub open spec fn is_blank(b: u8) -> bool {
    b == 0x20 || b == 0x09 || b == 0x0a || b == 0x0d
}

/// The first offset at or after `i` that is not blank.
pub open spec fn past_blanks(s: Seq<u8>, i: int) -> int
    decreases s.len() - i,
{
    if i >= s.len() || !is_blank(s[i]) {
        i
    } else {
        past_blanks(s, i + 1)
    }
}

/// The first offset at or after `i` at which a bare word ends.
pub open spec fn word_end(s: Seq<u8>, i: int) -> int
    decreases s.len() - i,
{
    if i >= s.len() || is_delimiter(s[i]) {
        i
    } else {
        word_end(s, i + 1)
    }
}

/// The offset of the quote that closes a string whose text is read from `i` on.
pub open spec fn closing_quote(s: Seq<u8>, i: int) -> Option<int>
    decreases s.len() - i + 1,
{
    if i >= s.len() {
        None
    } else if s[i] == 0x22 {
        Some(i)
    } else if s[i] == 0x5c {
        closing_quote(s, i + 2)
    } else {
        closing_quote(s, i + 1)
    }
}

/// The text a quoted string stands for: `\\n` is a newline, and any other
/// backslash stands for the byte behind it.
pub open spec fn unescaped(s: Seq<u8>) -> Seq<u8>
    decreases s.len(),
{
    if s.len() == 0 {
        Seq::empty()
    } else if s[0] == 0x5c && s.len() > 1 {
        seq![if s[1] == 0x6e { 0x0au8 } else { s[1] }] + unescaped(s.skip(2))
    } else {
        seq![s[0]] + unescaped(s.skip(1))
    }
}

/// The node that begins at `i`, and the offset behind it.
pub open spec fn node_at(s: Seq<u8>, i: int) -> Option<(Sexp, int)>
    decreases s.len() - i, 0int,
{
    if i < 0 || i >= s.len() || s[i] == 0x29 || is_blank(s[i]) {
        None
    } else if s[i] == 0x28 {
        match items_at(s, i + 1, Seq::empty()) {
            Some((items, j)) => Some((Sexp::List(items), j)),
            None => None,
        }
    } else if s[i] == 0x22 {
        match closing_quote(s, i + 1) {
            Some(j) => Some((Sexp::Str(unescaped(s.subrange(i + 1, j))), j + 1)),
            None => None,
        }
    } else {
        Some((Sexp::Atom(s.subrange(i, word_end(s, i))), word_end(s, i)))
    }
}

/// The items of a list from `i` up to its closing parenthesis, put behind
/// `before`, and the offset behind that parenthesis.
pub open spec fn items_at(s: Seq<u8>, i: int, before: Seq<Sexp>) -> Option<(Seq<Sexp>, int)>
    decreases s.len() - i, 1int,
{
    let k = past_blanks(s, i);
    if k < i || k >= s.len() {
        None
    } else if s[k] == 0x29 {
        Some((before, k + 1))
    } else {
        match node_at(s, k) {
            Some((n, j)) => if k < j <= s.len() {
                items_at(s, j, before.push(n))
            } else {
                None
            },
            None => None,
        }
    }
}

/// The tree a text denotes: one node, with only blanks around it.
pub open spec fn parsed(s: Seq<u8>) -> Option<Sexp> {
    match node_at(s, past_blanks(s, 0)) {
        Some((n, j)) => if past_blanks(s, j) >= s.len() {
            Some(n)
        } else {
            None
        },
        None => None,
    }
}

/// The text is not one S-expression.
#[derive(Debug)]
pub struct ParseError;

/// The first offset at or after `i` that is not blank.
fn skip_blanks(content: &str, i: usize) -> (r: usize)
    requires
        i <= utf8(content@).len(),
        is_char_boundary(utf8(content@), i as int),
    ensures
        r == past_blanks(utf8(content@), i as int),
        i <= r <= utf8(content@).len(),
        is_char_boundary(utf8(content@), r as int),
{
    let s = content.as_bytes();
    let mut k: usize = i;
    while k < s.len() && (s[k] == 0x20 || s[k] == 0x09 || s[k] == 0x0a || s[k] == 0x0d)
        invariant
            i <= k <= s@.len(),
            s@ == utf8(content@),
            is_char_boundary(s@, k as int),
            past_blanks(s@, i as int) == past_blanks(s@, k as int),
        decreases s@.len() - k,
    {
        proof {
            lemma_ascii_boundary(content@, k as int);
        }
        k += 1;
    }
    k
}

/// The text a quoted string stands for.
fn unescape(raw: &str) -> (r: String)
    ensures
        utf8(r@) == unescaped(utf8(raw@)),
{
    let s = raw.as_bytes();
    let mut out = String::new();
    let mut kept: usize = 0;
    let mut i: usize = 0;
    proof {
        lemma_end_boundary(raw@);
        assert(s@.skip(0) =~= s@);
        assert(utf8(out@) + s@.subrange(0, 0) + unescaped(s@.skip(0)) =~= unescaped(s@));
    }
    while i < s.len()
        invariant
            kept <= i <= s@.len(),
            s@ == utf8(raw@),
            is_char_boundary(s@, kept as int),
            utf8(out@) + s@.subrange(kept as int, i as int) + unescaped(s@.skip(i as int))
                == unescaped(s@),
        decreases s@.len() - i,
    {
        let ghost rest = s@.skip(i as int);
        assert(rest[0] == s@[i as int]);
        if s[i] == 0x5c && i + 1 < s.len() {
            assert(rest[1] == s@[i + 1]);
            assert(rest.skip(2) =~= s@.skip(i + 2));
            let ghost old_out = out@;
            let ghost old_kept = kept;
            proof {
                lemma_ascii_boundary(raw@, i as int);
            }
            let run = substr(raw, kept, i);
            out.append(run);
            proof {
                lemma_utf8_add(old_out, run@);
            }
            if s[i + 1] == 0x6e {
                let ghost mid = out@;
                out.append("\n");
                kept = i + 2;
                proof {
                    lemma_ascii_boundary(raw@, i + 1);
                    reveal_strlit("\n");
                    lemma_utf8_add(mid, "\n"@);
                    lemma_newline();
                    assert(s@.subrange(kept as int, i + 2) =~= Seq::<u8>::empty());
                    assert(utf8(out@) + s@.subrange(kept as int, i + 2) + unescaped(s@.skip(i + 2))
                        =~= utf8(old_out) + s@.subrange(old_kept as int, i as int) + unescaped(
                        s@.skip(i as int),
                    ));
                }
            } else {
                kept = i + 1;
                proof {
                    assert(s@.subrange(kept as int, i + 2) =~= seq![s@[i + 1]]);
                    assert(utf8(out@) + s@.subrange(kept as int, i + 2) + unescaped(s@.skip(i + 2))
                        =~= utf8(old_out) + s@.subrange(old_kept as int, i as int) + unescaped(
                        s@.skip(i as int),
                    ));
                }
            }
            i += 2;
        } else {
            proof {
                assert(rest.skip(1) =~= s@.skip(i + 1));
                assert(s@.subrange(kept as int, i + 1) =~= s@.subrange(kept as int, i as int).push(
                    s@[i as int],
                ));
                assert(utf8(out@) + s@.subrange(kept as int, i + 1) + unescaped(s@.skip(i + 1))
                    =~= utf8(out@) + s@.subrange(kept as int, i as int) + unescaped(
                    s@.skip(i as int),
                ));
            }
            i += 1;
        }
    }
    let run = substr(raw, kept, byte_len(raw));
    let ghost old_out = out@;
    out.append(run);
    proof {
        lemma_utf8_add(old_out, run@);
        assert(s@.skip(i as int) =~= Seq::<u8>::empty());
        assert(unescaped(s@) =~= utf8(out@));
    }
    out
}

proof fn lemma_newline()
    ensures
        utf8("\n"@) == seq![0x0au8],
{
    reveal_strlit("\n");
    assert(vstd::utf8::is_ascii_chars("\n"@));
    vstd::utf8::is_ascii_chars_encode_utf8("\n"@);
    assert(utf8("\n"@) =~= seq![0x0au8]);
}

/// The node that begins at `i`, and the offset behind it.
fn read_node(content: &str, i: usize) -> (r: Option<(SexpNode, usize)>)
    requires
        is_char_boundary(utf8(content@), i as int),
    ensures
        match r {
            Some((n, j)) => {
                &&& node_at(utf8(content@), i as int) == Some((n.tree(), j as int))
                &&& i < j <= utf8(content@).len()
                &&& is_char_boundary(utf8(content@), j as int)
            },
            None => node_at(utf8(content@), i as int) is None,
        },
    decreases utf8(content@).len() - i, 0int,
{
    let s = content.as_bytes();
    if i >= s.len() || s[i] == 0x29 || s[i] == 0x20 || s[i] == 0x09 || s[i] == 0x0a || s[i] == 0x0d {
        return None;
    }
    if s[i] == 0x28 {
        proof {
            lemma_ascii_boundary(content@, i as int);
        }
        return match read_items(content, i + 1) {
            Some((items, j)) => Some((SexpNode::List(items), j)),
            None => None,
        };
    }
    if s[i] == 0x22 {
        let mut j: usize = i + 1;
        while j < s.len() && s[j] != 0x22
            invariant
                i < j <= s@.len(),
                s@ == utf8(content@),
                s@[i as int] == 0x22,
                closing_quote(s@, i + 1) == closing_quote(s@, j as int),
            decreases s@.len() - j,
        {
            if s[j] == 0x5c {
                if j + 1 >= s.len() {
                    assert(closing_quote(s@, j + 2) is None);
                    return None;
                }
                j += 2;
            } else {
                j += 1;
            }
        }
        if j >= s.len() {
            return None;
        }
        proof {
            lemma_ascii_boundary(content@, i as int);
            lemma_ascii_boundary(content@, j as int);
        }
        return Some((SexpNode::Str(unescape(substr(content, i + 1, j))), j + 1));
    }
    let mut j: usize = i + 1;
    while j < s.len() && !(s[j] == 0x20 || s[j] == 0x09 || s[j] == 0x0a || s[j] == 0x0d || s[j]
        == 0x28 || s[j] == 0x29 || s[j] == 0x22)
        invariant
            i < j <= s@.len(),
            word_end(s@, i + 1) == word_end(s@, j as int),
        decreases s@.len() - j,
    {
        j += 1;
    }
    proof {
        if j < s.len() {
            lemma_ascii_boundary(content@, j as int);
        } else {
            lemma_end_boundary(content@);
        }
    }
    Some((SexpNode::Atom(substr(content, i, j).to_owned()), j))
}

/// The items of a list from `i` up to its closing parenthesis, and the
/// offset behind that parenthesis.
fn read_items(content: &str, i: usize) -> (r: Option<(Vec<SexpNode>, usize)>)
    requires
        i <= utf8(content@).len(),
        is_char_boundary(utf8(content@), i as int),
    ensures
        match r {
            Some((v, j)) => {
                &&& items_at(utf8(content@), i as int, Seq::empty()) == Some((trees(v@), j as int))
                &&& i < j <= utf8(content@).len()
                &&& is_char_boundary(utf8(content@), j as int)
            },
            None => items_at(utf8(content@), i as int, Seq::empty()) is None,
        },
    decreases utf8(content@).len() - i, 1int,
{
    let s = content.as_bytes();
    let mut items: Vec<SexpNode> = Vec::new();
    let mut k: usize = skip_blanks(content, i);
    assert(trees(items@) =~= Seq::<Sexp>::empty());
    proof {
        lemma_items_skip(s@, i as int, trees(items@));
    }
    while k < s.len()
        invariant
            i <= k <= s@.len(),
            s@ == utf8(content@),
            k == past_blanks(s@, k as int),
            is_char_boundary(s@, k as int),
            items_at(s@, i as int, Seq::empty()) == items_at(s@, k as int, trees(items@)),
        decreases s@.len() - k,
    {
        if s[k] == 0x29 {
            proof {
                lemma_ascii_boundary(content@, k as int);
            }
            return Some((items, k + 1));
        }
        match read_node(content, k) {
            Some((n, j)) => {
                proof {
                    lemma_trees_push(items@, n);
                    lemma_items_skip(s@, j as int, trees(items@).push(n.tree()));
                }
                items.push(n);
                k = skip_blanks(content, j);
            },
            None => {
                return None;
            },
        }
    }
    None
}

/// Blanks are skipped once and for all.
proof fn lemma_past_blanks(s: Seq<u8>, i: int)
    ensures
        past_blanks(s, past_blanks(s, i)) == past_blanks(s, i),
        i <= past_blanks(s, i),
    decreases s.len() - i,
{
    if i < s.len() && is_blank(s[i]) {
        lemma_past_blanks(s, i + 1);
    }
}

proof fn lemma_items_skip(s: Seq<u8>, i: int, before: Seq<Sexp>)
    ensures
        items_at(s, i, before) == items_at(s, past_blanks(s, i), before),
        past_blanks(s, past_blanks(s, i)) == past_blanks(s, i),
{
    lemma_past_blanks(s, i);
}

/// The tree a text denotes.
pub fn parse_sexp(content: &str) -> (r: Result<SexpNode, ParseError>)
    ensures
        match r {
            Ok(n) => parsed(utf8(content@)) == Some(n.tree()),
            Err(_) => parsed(utf8(content@)) is None,
        },
{
    proof {
        lemma_end_boundary(content@);
    }
    let start = skip_blanks(content, 0);
    match read_node(content, start) {
        Some((n, j)) => {
            if skip_blanks(content, j) >= byte_len(content) {
                Ok(n)
            } else {
                Err(ParseError)
            }
        },
        None => Err(ParseError),
    }
}

} // verus!
