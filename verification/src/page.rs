//! Paper sizes, and the paper node of a sheet.

use vstd::prelude::*;
use vstd::string::StringExecFns;
use vstd::utf8::is_char_boundary;
use crate::args::{invalid_arg, refuses, ToolError};
use crate::text::{
    byte_len, find_from, first_at, join2, join3, join4, lemma_end_boundary, lemma_first_at,
    lemma_occurrence_cut, lemma_utf8_add, occurs_at, same, splice, spliced, utf8,
};

verus! {

/// A paper size: its name, and its landscape width and height in tenths of a millimetre.
pub struct PaperSize {
    pub name: &'static str,
    pub width: u32,
    pub height: u32,
}

/// A paper size as a mathematical value.
pub struct Paper {
    pub name: Seq<char>,
    pub width: int,
    pub height: int,
}

impl View for PaperSize {
    type V = Paper;

    open spec fn view(&self) -> Paper {
        Paper { name: self.name@, width: self.width as int, height: self.height as int }
    }
}

pub open spec fn paper(name: Seq<char>, width: int, height: int) -> Paper {
    Paper { name, width, height }
}

/// The paper sizes that KiCad accepts.
pub open spec fn papers() -> Seq<Paper> {
    seq![
        paper("A0"@, 11890, 8410),
        paper("A1"@, 8410, 5940),
        paper("A2"@, 5940, 4200),
        paper("A3"@, 4200, 2970),
        paper("A4"@, 2970, 2100),
        paper("A5"@, 2100, 1480),
        paper("A"@, 2794, 2159),
        paper("B"@, 4318, 2794),
        paper("C"@, 5588, 4318),
        paper("D"@, 8636, 5588),
        paper("E"@, 11176, 8636),
        paper("USLetter"@, 2794, 2159),
        paper("USLegal"@, 3556, 2159),
        paper("USLedger"@, 4318, 2794),
    ]
}

/// Paper sizes as mathematical values.
pub open spec fn paper_views(v: Seq<PaperSize>) -> Seq<Paper> {
    v.map_values(|p: PaperSize| p@)
}

/// The first size of that name, from index `i` on.
pub open spec fn paper_named(all: Seq<Paper>, name: Seq<char>, i: int) -> Option<Paper>
    decreases all.len() - i,
{
    if i >= all.len() {
        None
    } else if all[i].name == name {
        Some(all[i])
    } else {
        paper_named(all, name, i + 1)
    }
}

/// The names of the first `n` sizes, separated by commas.
pub open spec fn names_joined(all: Seq<Paper>, n: int) -> Seq<char>
    decreases n,
{
    if n <= 0 {
        Seq::empty()
    } else if n == 1 {
        all[0].name
    } else {
        names_joined(all, n - 1) + ", "@ + all[n - 1].name
    }
}

/// Why a size is refused: it is unknown, and these are not.
pub open spec fn unknown_size(size: Seq<char>) -> Seq<char> {
    "unknown paper size '"@ + size + "'; valid: "@ + names_joined(papers(), papers().len() as int)
}

/// The paper sizes that KiCad accepts in a `(paper …)` node.
pub fn paper_sizes() -> (r: Vec<PaperSize>)
    ensures
        paper_views(r@) == papers(),
{
    let r = vec![
        PaperSize { name: "A0", width: 11890, height: 8410 },
        PaperSize { name: "A1", width: 8410, height: 5940 },
        PaperSize { name: "A2", width: 5940, height: 4200 },
        PaperSize { name: "A3", width: 4200, height: 2970 },
        PaperSize { name: "A4", width: 2970, height: 2100 },
        PaperSize { name: "A5", width: 2100, height: 1480 },
        PaperSize { name: "A", width: 2794, height: 2159 },
        PaperSize { name: "B", width: 4318, height: 2794 },
        PaperSize { name: "C", width: 5588, height: 4318 },
        PaperSize { name: "D", width: 8636, height: 5588 },
        PaperSize { name: "E", width: 11176, height: 8636 },
        PaperSize { name: "USLetter", width: 2794, height: 2159 },
        PaperSize { name: "USLegal", width: 3556, height: 2159 },
        PaperSize { name: "USLedger", width: 4318, height: 2794 },
    ];
    assert(paper_views(r@) =~= papers());
    r
}

/// The landscape width and height of a named size, in tenths of a millimetre,
/// or the refusal that lists every size that would have worked.
pub fn paper_dimensions(size: &str) -> (r: Result<(u32, u32), ToolError>)
    ensures
        match r {
            Ok((w, h)) => paper_named(papers(), size@, 0) matches Some(p) && w == p.width && h
                == p.height,
            Err(e) => paper_named(papers(), size@, 0) is None && refuses(
                e,
                "size"@,
                unknown_size(size@),
            ),
        },
{
    let all = paper_sizes();
    let mut valid = String::new();
    let mut i: usize = 0;
    while i < all.len()
        invariant
            i <= all@.len(),
            paper_views(all@) == papers(),
            paper_named(papers(), size@, 0) == paper_named(papers(), size@, i as int),
            valid@ == names_joined(papers(), i as int),
        decreases all@.len() - i,
    {
        assert(papers()[i as int] == all@[i as int]@);
        if same(all[i].name, size) {
            return Ok((all[i].width, all[i].height));
        }
        if i > 0 {
            valid.append(", ");
        }
        valid.append(all[i].name);
        assert(valid@ =~= names_joined(papers(), i + 1));
        i += 1;
    }
    let reason = join4("unknown paper size '", size, "'; valid: ", valid.as_str());
    Err(invalid_arg("size", reason.as_str()))
}

/// The size and orientation a sheet is given, with its width and height as
/// the orientation has them.
pub fn page_dimensions(size: &str, portrait: bool) -> (r: Result<(u32, u32), ToolError>)
    ensures
        match r {
            Ok((w, h)) => paper_named(papers(), size@, 0) matches Some(p) && if portrait {
                w == p.height && h == p.width
            } else {
                w == p.width && h == p.height
            },
            Err(e) => paper_named(papers(), size@, 0) is None && refuses(
                e,
                "size"@,
                unknown_size(size@),
            ),
        },
{
    match paper_dimensions(size) {
        Ok((w, h)) => if portrait {
            Ok((h, w))
        } else {
            Ok((w, h))
        },
        Err(e) => Err(e),
    }
}

/// The paper node for a size and an orientation.
pub open spec fn paper_node(size: Seq<char>, portrait: bool) -> Seq<char> {
    if portrait {
        "(paper \""@ + size + "\" portrait)"@
    } else {
        "(paper \""@ + size + "\")"@
    }
}

/// Where a sheet without a paper node takes one: behind its uuid; failing
/// that behind its first line; failing that at its start.
pub open spec fn paper_anchor(s: Seq<u8>) -> int {
    match first_at(s, utf8("(uuid "@), 0) {
        Some(p) => match first_at(s, utf8(")"@), p) {
            Some(q) => q + 1,
            None => first_line_end(s),
        },
        None => first_line_end(s),
    }
}

/// The offset behind the first line break, or the start.
pub open spec fn first_line_end(s: Seq<u8>) -> int {
    match first_at(s, utf8("\n"@), 0) {
        Some(p) => p + 1,
        None => 0,
    }
}

/// The sheet on that paper. A paper node is replaced up to its closing
/// parenthesis, or to the end of the text when it has none.
pub open spec fn on_paper(s: Seq<u8>, size: Seq<char>, portrait: bool) -> Seq<u8> {
    match first_at(s, utf8("(paper "@), 0) {
        Some(start) => {
            let end = match first_at(s, utf8(")"@), start) {
                Some(p) => p + 1,
                None => s.len() as int,
            };
            spliced(s, start, end, utf8(paper_node(size, portrait)))
        },
        None => spliced(
            s,
            paper_anchor(s),
            paper_anchor(s),
            utf8("\n  "@ + paper_node(size, portrait)),
        ),
    }
}

/// The offset behind the first occurrence of a one-character pattern, at which the text can be cut.
fn behind(content: &str, pattern: &str, from: usize) -> (r: Option<usize>)
    requires
        pattern@.len() == 1,
        pattern@[0] <= '\u{7f}',
    ensures
        match r {
            Some(i) => {
                &&& first_at(utf8(content@), utf8(pattern@), from as int) == Some(i - 1)
                &&& from < i <= utf8(content@).len()
                &&& is_char_boundary(utf8(content@), i as int)
            },
            None => first_at(utf8(content@), utf8(pattern@), from as int) is None,
        },
{
    let total = byte_len(content);
    proof {
        lemma_first_at(utf8(content@), utf8(pattern@), from as int);
        crate::text::lemma_one_byte(pattern@);
    }
    match find_from(content, pattern, from) {
        Some(i) => {
            proof {
                lemma_occurrence_cut(content@, pattern@, i as int);
                assert(i < total);
            }
            Some(i + 1)
        },
        None => None,
    }
}

/// Sets the paper of a sheet to a size that KiCad accepts.
pub fn set_page(content: &str, size: &str, portrait: bool) -> (r: Result<String, ToolError>)
    ensures
        match r {
            Ok(out) => paper_named(papers(), size@, 0) is Some && utf8(out@) == on_paper(
                utf8(content@),
                size@,
                portrait,
            ),
            Err(e) => paper_named(papers(), size@, 0) is None && refuses(
                e,
                "size"@,
                unknown_size(size@),
            ),
        },
{
    if let Err(e) = paper_dimensions(size) {
        return Err(e);
    }
    let ghost s = utf8(content@);
    let node = if portrait {
        join3("(paper \"", size, "\" portrait)")
    } else {
        join3("(paper \"", size, "\")")
    };
    proof {
        reveal_strlit("(paper ");
        reveal_strlit("(uuid ");
        reveal_strlit(")");
        reveal_strlit("\n");
        lemma_first_at(s, utf8("(paper "@), 0);
        lemma_first_at(s, utf8("(uuid "@), 0);
        lemma_end_boundary(content@);
    }
    match find_from(content, "(paper ", 0) {
        Some(start) => {
            proof {
                lemma_occurrence_cut(content@, "(paper "@, start as int);
            }
            let end = match behind(content, ")", start) {
                Some(e) => e,
                None => byte_len(content),
            };
            Ok(splice(content, start, end, node.as_str()))
        },
        None => {
            let closed = match find_from(content, "(uuid ", 0) {
                Some(p) => behind(content, ")", p),
                None => None,
            };
            let anchor = match closed {
                Some(a) => a,
                None => match behind(content, "\n", 0) {
                    Some(a) => a,
                    None => 0,
                },
            };
            let line = join2("\n  ", node.as_str());
            Ok(splice(content, anchor, anchor, line.as_str()))
        },
    }
}

/// Every paper size is listed in landscape and under one name only.
pub proof fn law_papers_landscape_and_unique()
    ensures
        forall|i: int|
            0 <= i < papers().len() ==> (#[trigger] papers()[i]).width > papers()[i].height,
        forall|i: int, j: int|
            0 <= i < j < papers().len() ==> (#[trigger] papers()[i]).name != (
            #[trigger] papers()[j]).name,
{
    reveal_strlit("A0");
    reveal_strlit("A1");
    reveal_strlit("A2");
    reveal_strlit("A3");
    reveal_strlit("A4");
    reveal_strlit("A5");
    reveal_strlit("A");
    reveal_strlit("B");
    reveal_strlit("C");
    reveal_strlit("D");
    reveal_strlit("E");
    reveal_strlit("USLetter");
    reveal_strlit("USLegal");
    reveal_strlit("USLedger");
    assert forall|i: int, j: int| 0 <= i < j < papers().len() implies (
    #[trigger] papers()[i]).name != (#[trigger] papers()[j]).name by {
        let a = papers()[i].name;
        let b = papers()[j].name;
        if a.len() == b.len() && a[0] == b[0] {
            if a.len() == 2 {
                assert(a[1] != b[1]);
            } else {
                assert(a.len() == 8);
                assert(a[3] == 'e' && b[3] == 'e');
                assert(a[4] != b[4] || a[7] != b[7]);
            }
        }
    }
}

/// No paper size has a parenthesis in its name.
proof fn lemma_paper_name(size: Seq<char>, i: int)
    requires
        paper_named(papers(), size, i) is Some,
        0 <= i,
    ensures
        forall|k: int| 0 <= k < utf8(size).len() ==> #[trigger] utf8(size)[k] != 0x29,
    decreases papers().len() - i,
{
    if papers()[i].name == size {
        reveal_strlit("A0");
        reveal_strlit("A1");
        reveal_strlit("A2");
        reveal_strlit("A3");
        reveal_strlit("A4");
        reveal_strlit("A5");
        reveal_strlit("A");
        reveal_strlit("B");
        reveal_strlit("C");
        reveal_strlit("D");
        reveal_strlit("E");
        reveal_strlit("USLetter");
        reveal_strlit("USLegal");
        reveal_strlit("USLedger");
        assert(vstd::utf8::is_ascii_chars(size));
        vstd::utf8::is_ascii_chars_encode_utf8(size);
        assert forall|k: int| 0 <= k < utf8(size).len() implies #[trigger] utf8(size)[k]
            != 0x29 by {
            assert(size[k] != ')');
        }
    } else {
        lemma_paper_name(size, i + 1);
    }
}

/// The bytes of a paper node begin as such a node does and hold one closing parenthesis.
proof fn lemma_paper_node(size: Seq<char>, portrait: bool)
    requires
        paper_named(papers(), size, 0) is Some,
    ensures
        ({
            let n = utf8(paper_node(size, portrait));
            let p = utf8("(paper "@);
            &&& p.len() == 7
            &&& p[0] == 0x28
            &&& forall|k: int| 0 < k < 7 ==> #[trigger] p[k] != 0x28 && p[k] != 0x0a
            &&& n.len() > 7
            &&& n.subrange(0, 7) == p
            &&& n.last() == 0x29
            &&& forall|k: int| 0 <= k < n.len() - 1 ==> #[trigger] n[k] != 0x29
        }),
{
    let p = utf8("(paper "@);
    let open = "(paper \""@;
    let close = if portrait {
        "\" portrait)"@
    } else {
        "\")"@
    };
    reveal_strlit("(paper ");
    reveal_strlit("(paper \"");
    reveal_strlit("\" portrait)");
    reveal_strlit("\")");
    vstd::utf8::is_ascii_chars_encode_utf8("(paper "@);
    vstd::utf8::is_ascii_chars_encode_utf8(open);
    vstd::utf8::is_ascii_chars_encode_utf8(close);
    lemma_utf8_add(open, size);
    lemma_utf8_add(open + size, close);
    lemma_paper_name(size, 0);
    let n = utf8(paper_node(size, portrait));
    assert(n =~= utf8(open) + utf8(size) + utf8(close));
    assert(n.subrange(0, 7) =~= p);
}

/// A paper node put behind `before`, where none stood, is the one that is found.
proof fn lemma_paper_found(before: Seq<u8>, size: Seq<char>, portrait: bool, after: Seq<u8>)
    requires
        paper_named(papers(), size, 0) is Some,
        forall|j: int| 0 <= j && j + 7 <= before.len() ==> !occurs_at(before, utf8("(paper "@), j),
    ensures
        ({
            let n = utf8(paper_node(size, portrait));
            let t = before + n + after;
            &&& first_at(t, utf8("(paper "@), 0) == Some(before.len() as int)
            &&& first_at(t, utf8(")"@), before.len() as int) == Some(before.len() + n.len() - 1)
        }),
{
    let p = utf8("(paper "@);
    let n = utf8(paper_node(size, portrait));
    let t = before + n + after;
    let b = before.len() as int;
    lemma_paper_node(size, portrait);
    reveal_strlit(")");
    crate::text::lemma_one_byte(")"@);
    lemma_first_at(t, p, 0);
    lemma_first_at(t, utf8(")"@), b);
    assert(t.subrange(b, b + 7) =~= n.subrange(0, 7));
    assert(occurs_at(t, p, b));
    assert forall|j: int| 0 <= j < b implies !occurs_at(t, p, j) by {
        if j + 7 <= b {
            assert(!occurs_at(before, p, j));
            assert(t.subrange(j, j + p.len()) =~= before.subrange(j, j + p.len()));
        } else if occurs_at(t, p, j) {
            assert(t.subrange(j, j + p.len())[b - j] == t[b]);
            assert(t[b] == n[0]);
            assert(n.subrange(0, 7)[0] == n[0]);
        }
    }
    let e = b + n.len() - 1;
    assert(t.subrange(e, e + 1) =~= utf8(")"@));
    assert(occurs_at(t, utf8(")"@), e));
    assert forall|j: int| b <= j < e implies !occurs_at(t, utf8(")"@), j) by {
        assert(t.subrange(j, j + 1)[0] == n[j - b]);
    }
}

/// A sheet takes the paper it was given last.
pub proof fn law_last_paper_wins(
    s: Seq<u8>,
    size: Seq<char>,
    portrait: bool,
    next: Seq<char>,
    next_portrait: bool,
)
    requires
        paper_named(papers(), size, 0) is Some,
    ensures
        on_paper(on_paper(s, size, portrait), next, next_portrait) == on_paper(
            s,
            next,
            next_portrait,
        ),
{
    let p = utf8("(paper "@);
    let n = utf8(paper_node(size, portrait));
    let m = utf8(paper_node(next, next_portrait));
    lemma_paper_node(size, portrait);
    lemma_first_at(s, p, 0);
    match first_at(s, p, 0) {
        Some(start) => {
            lemma_first_at(s, utf8(")"@), start);
            reveal_strlit(")");
            crate::text::lemma_one_byte(")"@);
            let end = match first_at(s, utf8(")"@), start) {
                Some(q) => q + 1,
                None => s.len() as int,
            };
            let before = s.subrange(0, start);
            let after = s.subrange(end, s.len() as int);
            assert forall|j: int| 0 <= j && j + 7 <= before.len() implies !occurs_at(
                before,
                p,
                j,
            ) by {
                assert(!occurs_at(s, p, j));
                assert(before.subrange(j, j + p.len()) =~= s.subrange(j, j + p.len()));
            }
            lemma_paper_found(before, size, portrait, after);
            let t = before + n + after;
            assert(on_paper(s, size, portrait) =~= t);
            assert(t.subrange(0, start) =~= before);
            assert(t.subrange(start + n.len(), t.len() as int) =~= after);
        },
        None => {
            let a = paper_anchor(s);
            lemma_paper_anchor(s);
            reveal_strlit("\n  ");
            vstd::utf8::is_ascii_chars_encode_utf8("\n  "@);
            let lead = utf8("\n  "@);
            lemma_utf8_add("\n  "@, paper_node(size, portrait));
            lemma_utf8_add("\n  "@, paper_node(next, next_portrait));
            let before = s.subrange(0, a) + lead;
            let after = s.subrange(a, s.len() as int);
            assert forall|j: int| 0 <= j && j + 7 <= before.len() implies !occurs_at(
                before,
                p,
                j,
            ) by {
                if j + 7 <= a {
                    assert(!occurs_at(s, p, j));
                    assert(before.subrange(j, j + p.len()) =~= s.subrange(j, j + p.len()));
                } else if j <= a {
                    assert(before.subrange(j, j + p.len())[a - j] == 0x0a);
                } else {
                    assert(before.subrange(j, j + p.len())[0] == 0x20);
                }
            }
            lemma_paper_found(before, size, portrait, after);
            let t = before + n + after;
            assert(on_paper(s, size, portrait) =~= t);
            let b = before.len() as int;
            assert(t.subrange(0, b) =~= before);
            assert(t.subrange(b + n.len(), t.len() as int) =~= after);
            assert(before + m + after =~= s.subrange(0, a) + (lead + m) + after);
        },
    }
}

proof fn lemma_paper_anchor(s: Seq<u8>)
    ensures
        0 <= paper_anchor(s) <= s.len(),
{
    reveal_strlit(")");
    reveal_strlit("\n");
    crate::text::lemma_one_byte(")"@);
    crate::text::lemma_one_byte("\n"@);
    lemma_first_at(s, utf8("(uuid "@), 0);
    lemma_first_at(s, utf8("\n"@), 0);
    if let Some(p) = first_at(s, utf8("(uuid "@), 0) {
        lemma_first_at(s, utf8(")"@), p);
    }
}

/// A sheet whose paper was set has a paper node, and the first says what was
/// asked for.
pub proof fn law_sheet_is_on_its_paper(s: Seq<u8>, size: Seq<char>, portrait: bool)
    requires
        paper_named(papers(), size, 0) is Some,
    ensures
        ({
            let t = on_paper(s, size, portrait);
            first_at(t, utf8("(paper "@), 0) matches Some(o) && occurs_at(
                t,
                if portrait {
                    utf8("(paper \""@ + size + "\" portrait)"@)
                } else {
                    utf8("(paper \""@ + size + "\")"@)
                },
                o,
            )
        }),
{
    let t = on_paper(s, size, portrait);
    let p = utf8("(paper "@);
    let n = utf8(paper_node(size, portrait));
    law_last_paper_wins(s, size, portrait, size, portrait);
    lemma_paper_node(size, portrait);
    lemma_first_at(s, p, 0);
    match first_at(s, p, 0) {
        Some(start) => {
            lemma_first_at(s, utf8(")"@), start);
            reveal_strlit(")");
            crate::text::lemma_one_byte(")"@);
            let end = match first_at(s, utf8(")"@), start) {
                Some(q) => q + 1,
                None => s.len() as int,
            };
            let before = s.subrange(0, start);
            let after = s.subrange(end, s.len() as int);
            assert forall|j: int| 0 <= j && j + 7 <= before.len() implies !occurs_at(
                before,
                p,
                j,
            ) by {
                assert(!occurs_at(s, p, j));
                assert(before.subrange(j, j + p.len()) =~= s.subrange(j, j + p.len()));
            }
            lemma_paper_found(before, size, portrait, after);
            assert(t =~= before + n + after);
            assert(t.subrange(start, start + n.len()) =~= n);
        },
        None => {
            let a = paper_anchor(s);
            lemma_paper_anchor(s);
            reveal_strlit("\n  ");
            vstd::utf8::is_ascii_chars_encode_utf8("\n  "@);
            let lead = utf8("\n  "@);
            lemma_utf8_add("\n  "@, paper_node(size, portrait));
            let before = s.subrange(0, a) + lead;
            let after = s.subrange(a, s.len() as int);
            assert forall|j: int| 0 <= j && j + 7 <= before.len() implies !occurs_at(
                before,
                p,
                j,
            ) by {
                if j + 7 <= a {
                    assert(!occurs_at(s, p, j));
                    assert(before.subrange(j, j + p.len()) =~= s.subrange(j, j + p.len()));
                } else if j <= a {
                    assert(before.subrange(j, j + p.len())[a - j] == 0x0a);
                } else {
                    assert(before.subrange(j, j + p.len())[0] == 0x20);
                }
            }
            lemma_paper_found(before, size, portrait, after);
            assert(t =~= before + n + after);
            let b = before.len() as int;
            assert(t.subrange(b, b + n.len()) =~= n);
        },
    }
}

/// A size is known exactly where it is listed, and has the width and height
/// that are listed with it.
pub proof fn law_known_size_is_listed(size: Seq<char>, k: int)
    ensures
        paper_named(papers(), size, 0) is Some <==> exists|i: int|
            0 <= i < papers().len() && (#[trigger] papers()[i]).name == size,
        0 <= k < papers().len() && papers()[k].name == size ==> paper_named(papers(), size, 0)
            == Some(papers()[k]),
{
    law_papers_landscape_and_unique();
    lemma_listed_size(size, 0);
    if 0 <= k < papers().len() && papers()[k].name == size {
        assert(papers()[k].name == size);
    }
}

proof fn lemma_listed_size(size: Seq<char>, i: int)
    requires
        0 <= i,
    ensures
        match paper_named(papers(), size, i) {
            Some(p) => exists|k: int|
                i <= k < papers().len() && #[trigger] papers()[k] == p && p.name == size,
            None => forall|k: int| i <= k < papers().len() ==> (#[trigger] papers()[k]).name != size,
        },
    decreases papers().len() - i,
{
    if i < papers().len() && papers()[i].name != size {
        lemma_listed_size(size, i + 1);
    } else if i < papers().len() {
        assert(papers()[i] == papers()[i]);
    }
}

} // verus!
