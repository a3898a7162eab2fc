//! Library definitions embedded in a schematic.

use vstd::prelude::*;
use vstd::string::{StrSliceExecFns, StringExecFns};
use vstd::utf8::is_char_boundary;
use crate::args::ToolError;
use crate::quote::{past_spaces, skip_spaces};
use crate::refresh::{embedded_at, has_embedded};
use crate::text::{
    byte_len, chars, contains, find_from, first_at, join3, lemma_ascii_boundary, lemma_byte_absent,
    lemma_chars, lemma_end_boundary, lemma_first_at, lemma_occurrence_cut, lemma_occurs,
    lemma_one_byte, lemma_utf8_add, occurs, occurs_at, splice, spliced, starts_with, substr, texts,
    utf8,
};

verus! {

// ── Unknown symbols ──────────────────────────────────────────────────────────

/// The library a symbol is named under: what stands before the first colon.
pub open spec fn library_of(lib_id: Seq<u8>) -> Seq<u8> {
    match first_at(lib_id, utf8(":"@), 0) {
        Some(i) => lib_id.subrange(0, i),
        None => lib_id,
    }
}

/// The library a symbol is named under.
pub fn library_name(lib_id: &str) -> (r: &str)
    ensures
        utf8(r@) == library_of(utf8(lib_id@)),
{
    proof {
        reveal_strlit(":");
        lemma_first_at(utf8(lib_id@), utf8(":"@), 0);
        lemma_end_boundary(lib_id@);
    }
    match find_from(lib_id, ":", 0) {
        Some(i) => {
            proof {
                lemma_occurrence_cut(lib_id@, ":"@, i as int);
            }
            substr(lib_id, 0, i)
        },
        None => lib_id,
    }
}

/// Names separated by commas.
pub open spec fn names_listed(names: Seq<Seq<char>>) -> Seq<char>
    decreases names.len(),
{
    if names.len() == 0 {
        Seq::empty()
    } else if names.len() == 1 {
        names[0]
    } else {
        names_listed(names.drop_last()) + ", "@ + names.last()
    }
}

fn list_names(names: &Vec<String>) -> (r: String)
    ensures
        r@ == names_listed(texts(names@)),
{
    let ghost all = texts(names@);
    let mut r = String::new();
    let mut i: usize = 0;
    assert(names_listed(all.take(0)) =~= Seq::empty());
    while i < names.len()
        invariant
            i <= names@.len(),
            all == texts(names@),
            r@ == names_listed(all.take(i as int)),
        decreases names@.len() - i,
    {
        proof {
            assert(all.take(i + 1).drop_last() =~= all.take(i as int));
            assert(all.take(i + 1).last() == names@[i as int]@);
        }
        if i > 0 {
            r.append(", ");
        }
        let ghost before = r@;
        r.append(names[i].as_str());
        assert(i == 0 ==> before + names@[i as int]@ =~= names@[i as int]@);
        i += 1;
    }
    assert(all.take(i as int) =~= all);
    r
}

/// What to say of a symbol that no library has: whether it is the library
/// that is missing or the symbol in it, and which symbols have like names.
pub open spec fn not_found_message(
    lib_id: Seq<char>,
    library: Seq<char>,
    library_exists: bool,
    suggestions: Seq<Seq<char>>,
) -> Seq<char> {
    let what = if library_exists {
        "Library symbol '"@ + lib_id + "' not found in library '"@ + library + "'."@
    } else {
        "Library '"@ + library
            + "' not found in the project or global sym-lib-table, nor as '"@ + library
            + ".kicad_symdir'/'"@ + library
            + ".kicad_sym' in the installed KiCad symbol libraries (lib_id '"@ + lib_id
            + "'). Register it with register_symbol_library, or set KICAD10_SYMBOL_DIR for a non-standard install."@
    };
    if suggestions.len() > 0 {
        what + " Did you mean: "@ + names_listed(suggestions)
            + "? (KiCAD 10 renamed several older symbol names)"@
    } else {
        what
    }
}

/// The refusal of a symbol that no library has.
pub fn lib_symbol_not_found_error(lib_id: &str, library_exists: bool, suggestions: &Vec<String>) -> (r:
    ToolError)
    ensures
        r.kind is None,
        r.message@ == not_found_message(
            lib_id@,
            chars(library_of(utf8(lib_id@))),
            library_exists,
            texts(suggestions@),
        ),
{
    let library = library_name(lib_id);
    proof {
        lemma_chars(library@);
    }
    let mut message = String::new();
    if !library_exists {
        message.append("Library '");
        message.append(library);
        message.append("' not found in the project or global sym-lib-table, nor as '");
        message.append(library);
        message.append(".kicad_symdir'/'");
        message.append(library);
        message.append(".kicad_sym' in the installed KiCad symbol libraries (lib_id '");
        message.append(lib_id);
        message.append(
            "'). Register it with register_symbol_library, or set KICAD10_SYMBOL_DIR for a non-standard install.",
        );
    } else {
        message.append("Library symbol '");
        message.append(lib_id);
        message.append("' not found in library '");
        message.append(library);
        message.append("'.");
    }
    if suggestions.len() > 0 {
        let names = list_names(suggestions);
        message.append(" Did you mean: ");
        message.append(names.as_str());
        message.append("? (KiCAD 10 renamed several older symbol names)");
    }
    assert(message@ =~= not_found_message(
        lib_id@,
        library@,
        library_exists,
        texts(suggestions@),
    ));
    ToolError::plain(message)
}

// ── Indentation ──────────────────────────────────────────────────────────────

/// A line without the carriage return before its line feed.
pub open spec fn without_return(line: Seq<u8>) -> Seq<u8> {
    if line.len() > 0 && line.last() == 0x0d {
        line.drop_last()
    } else {
        line
    }
}

/// A line two tabs in; an empty one stays empty.
pub open spec fn tabbed(line: Seq<u8>) -> Seq<u8> {
    if line.len() == 0 {
        line
    } else {
        utf8("\t\t"@) + line
    }
}

/// The line of `s` that begins at offset `i`, without its end.
pub open spec fn line_at(s: Seq<u8>, i: int) -> Seq<u8> {
    match first_at(s, utf8("\n"@), i) {
        Some(n) => without_return(s.subrange(i, n)),
        None => s.subrange(i, s.len() as int),
    }
}

/// The offset behind the line that begins at `i`.
pub open spec fn after_line(s: Seq<u8>, i: int) -> int {
    match first_at(s, utf8("\n"@), i) {
        Some(n) => n + 1,
        None => s.len() as int,
    }
}

/// The lines of `s` from offset `i` on, each two tabs in, with a line feed
/// before each but the first.
pub open spec fn indented_from(s: Seq<u8>, i: int, first: bool) -> Seq<u8>
    decreases s.len() - i + 1,
{
    if i < 0 || i >= s.len() {
        Seq::empty()
    } else {
        proof {
            lemma_first_at(s, utf8("\n"@), i);
        }
        (if first {
            Seq::empty()
        } else {
            utf8("\n"@)
        }) + tabbed(line_at(s, i)) + indented_from(s, after_line(s, i), false)
    }
}

/// A definition with its lines two tabs in.
pub open spec fn indented(s: Seq<u8>) -> Seq<u8> {
    indented_from(s, 0, true)
}

fn take_line(text: &str, i: usize) -> (r: (&str, usize))
    requires
        i < utf8(text@).len(),
        is_char_boundary(utf8(text@), i as int),
    ensures
        utf8(r.0@) == line_at(utf8(text@), i as int),
        r.1 == after_line(utf8(text@), i as int),
        i < r.1 <= utf8(text@).len(),
        is_char_boundary(utf8(text@), r.1 as int),
{
    let ghost s = utf8(text@);
    let total = byte_len(text);
    proof {
        reveal_strlit("\n");
        lemma_one_byte("\n"@);
        lemma_end_boundary(text@);
        lemma_first_at(s, utf8("\n"@), i as int);
    }
    match find_from(text, "\n", i) {
        Some(n) => {
            proof {
                lemma_occurrence_cut(text@, "\n"@, n as int);
            }
            let mut end: usize = n;
            if n > i && text.as_bytes()[n - 1] == 0x0d {
                proof {
                    lemma_ascii_boundary(text@, n - 1);
                    assert(s.subrange(i as int, n as int).drop_last() =~= s.subrange(
                        i as int,
                        n - 1,
                    ));
                }
                end = n - 1;
            }
            (substr(text, i, end), n + 1)
        },
        None => (substr(text, i, total), total),
    }
}

/// A definition with its lines two tabs in, as it stands among the embedded ones.
pub fn indent_lib_symbol(sym_def: &str) -> (r: String)
    ensures
        utf8(r@) == indented(utf8(sym_def@)),
{
    let ghost s = utf8(sym_def@);
    let total = byte_len(sym_def);
    proof {
        lemma_end_boundary(sym_def@);
    }
    let mut out = String::new();
    let mut i: usize = 0;
    let mut first = true;
    assert(utf8(out@) + indented_from(s, 0, true) =~= indented_from(s, 0, true));
    while i < total
        invariant
            i <= total,
            total == s.len(),
            s == utf8(sym_def@),
            is_char_boundary(s, i as int),
            utf8(out@) + indented_from(s, i as int, first) == indented(s),
        decreases total - i,
    {
        let ghost before = out@;
        if !first {
            out.append("\n");
            proof {
                lemma_utf8_add(before, "\n"@);
            }
        }
        let (line, next) = take_line(sym_def, i);
        let ghost mid = out@;
        if line.as_bytes().len() > 0 {
            out.append("\t\t");
            out.append(line);
            proof {
                lemma_utf8_add(mid + "\t\t"@, line@);
                lemma_utf8_add(mid, "\t\t"@);
            }
        }
        assert(utf8(out@) =~= utf8(mid) + tabbed(line_at(s, i as int)));
        assert(utf8(out@) + indented_from(s, next as int, false) =~= utf8(before) + indented_from(
            s,
            i as int,
            first,
        ));
        i = next;
        first = false;
    }
    assert(utf8(out@) + indented_from(s, i as int, first) =~= utf8(out@));
    out
}

// ── Embedding ────────────────────────────────────────────────────────────────

/// The offset of the parenthesis that brings the count of open ones from
/// `depth` to zero, counting every parenthesis from `i` on.
pub open spec fn count_close(s: Seq<u8>, i: int, depth: int) -> Option<int>
    decreases s.len() - i,
{
    if i >= s.len() {
        None
    } else if s[i] == 0x28 {
        count_close(s, i + 1, depth + 1)
    } else if s[i] == 0x29 {
        if depth == 1 {
            Some(i)
        } else {
            count_close(s, i + 1, depth - 1)
        }
    } else {
        count_close(s, i + 1, depth)
    }
}

/// The schematic with a section for embedded definitions: the one it has, or
/// a new one behind its first line that ends in a parenthesis.
pub open spec fn with_section(s: Seq<u8>) -> Seq<u8> {
    if occurs(s, utf8("(lib_symbols"@)) {
        s
    } else {
        match first_at(s, utf8(")\n"@), 0) {
            Some(i) => spliced(s, i + 2, i + 2, utf8("\n\t(lib_symbols\n\t)\n"@)),
            None => s,
        }
    }
}

/// A definition put last into the section for embedded definitions.
pub open spec fn definition_added(s: Seq<u8>, def: Seq<u8>) -> Seq<u8> {
    match first_at(s, utf8("(lib_symbols"@), 0) {
        Some(start) => {
            let at = match count_close(s, start, 0) {
                Some(end) => end,
                None => start,
            };
            spliced(s, at, at, utf8("\n"@) + indented(def) + utf8("\n\t"@))
        },
        None => s,
    }
}

/// The schematic embeds a definition of that name, which may stand on the line
/// of the definition's head or below it.
pub open spec fn embeds(s: Seq<u8>, lib_id: Seq<char>) -> bool {
    occurs(s, utf8("(symbol \""@ + lib_id + "\""@)) || embedded_at(s, lib_id) is Some
}

fn count_close_from(content: &str, start: usize) -> (r: Option<usize>)
    requires
        start < utf8(content@).len(),
    ensures
        match r {
            Some(e) => {
                &&& count_close(utf8(content@), start as int, 0) == Some(e as int)
                &&& e < utf8(content@).len()
                &&& utf8(content@)[e as int] == 0x29
            },
            None => count_close(utf8(content@), start as int, 0) is None,
        },
{
    let s = content.as_bytes();
    let mut i: usize = start;
    let mut opened: usize = 0;
    let mut closed: usize = 0;
    while i < s.len()
        invariant
            start <= i <= s@.len(),
            s@ == utf8(content@),
            opened <= i,
            closed <= i,
            count_close(s@, start as int, 0) == count_close(s@, i as int, opened - closed),
        decreases s@.len() - i,
    {
        if s[i] == 0x28 {
            opened += 1;
        } else if s[i] == 0x29 {
            if opened > closed && opened - closed == 1 {
                return Some(i);
            }
            closed += 1;
        }
        i += 1;
    }
    None
}

/// Embeds a definition that the schematic does not have yet, and says whether
/// it now has one. `resolved` is the definition as its library has it.
pub fn ensure_lib_symbol_in_schematic(
    content: &mut String,
    lib_id: &str,
    resolved: &Option<String>,
) -> (r: bool)
    ensures
        r == (embeds(utf8(old(content)@), lib_id@) || *resolved is Some),
        utf8(final(content)@) == if embeds(utf8(old(content)@), lib_id@) || *resolved is None {
            utf8(old(content)@)
        } else {
            definition_added(with_section(utf8(old(content)@)), utf8((resolved->0)@))
        },
{
    let check = join3("(symbol \"", lib_id, "\"");
    if contains(content.as_str(), check.as_str()) || has_embedded(content.as_str(), lib_id) {
        return true;
    }
    let def = match resolved {
        Some(d) => d,
        None => {
            return false;
        },
    };
    proof {
        reveal_strlit(")\n");
        reveal_strlit("(lib_symbols");
        vstd::utf8::is_ascii_chars_encode_utf8(")\n"@);
        lemma_first_at(utf8(content@), utf8(")\n"@), 0);
    }
    if !contains(content.as_str(), "(lib_symbols") {
        let total = byte_len(content.as_str());
        if let Some(i) = find_from(content.as_str(), ")\n", 0) {
            proof {
                lemma_occurrence_cut(content@, ")\n"@, i as int);
            }
            *content = splice(content.as_str(), i + 2, i + 2, "\n\t(lib_symbols\n\t)\n");
        }
    }
    let ghost s = utf8(content@);
    proof {
        lemma_first_at(s, utf8("(lib_symbols"@), 0);
    }
    if let Some(start) = find_from(content.as_str(), "(lib_symbols", 0) {
        proof {
            lemma_occurrence_cut(content@, "(lib_symbols"@, start as int);
        }
        let at = match count_close_from(content.as_str(), start) {
            Some(e) => {
                proof {
                    lemma_ascii_boundary(content@, e as int);
                }
                e
            },
            None => start,
        };
        let body = indent_lib_symbol(def.as_str());
        let text = join3("\n", body.as_str(), "\n\t");
        proof {
            lemma_utf8_add("\n"@ + body@, "\n\t"@);
            lemma_utf8_add("\n"@, body@);
        }
        *content = splice(content.as_str(), at, at, text.as_str());
    }
    true
}

/// The name of a definition: the first quoted text behind its head.
pub open spec fn symbol_name(block: Seq<u8>) -> Option<Seq<u8>> {
    if !occurs_at(block, utf8("(symbol"@), 0) {
        None
    } else {
        let rest = chars(block.subrange(7, block.len() as int));
        let i = past_spaces(rest, 0);
        if i < rest.len() && rest[i] == '"' {
            let name = utf8(rest.subrange(i + 1, rest.len() as int));
            Some(
                match first_at(name, utf8("\""@), 0) {
                    Some(end) => name.subrange(0, end),
                    None => name,
                },
            )
        } else {
            None
        }
    }
}

/// The name of a definition. It may stand on the line of the head or below it.
pub fn lib_symbol_name(block: &str) -> (r: Option<&str>)
    ensures
        match r {
            Some(n) => symbol_name(utf8(block@)) == Some(utf8(n@)),
            None => symbol_name(utf8(block@)) is None,
        },
{
    proof {
        reveal_strlit("(symbol");
        reveal_strlit("\"");
        vstd::utf8::is_ascii_chars_encode_utf8("(symbol"@);
        lemma_end_boundary(block@);
    }
    if !starts_with(block, "(symbol") {
        return None;
    }
    proof {
        lemma_occurrence_cut(block@, "(symbol"@, 0);
    }
    let rest = substr(block, 7, byte_len(block));
    proof {
        lemma_chars(rest@);
    }
    let i = skip_spaces(rest, 0);
    let n = rest.unicode_len();
    if i < n && rest.get_char(i) == '"' {
        let name = rest.substring_char(i + 1, n);
        proof {
            lemma_first_at(utf8(name@), utf8("\""@), 0);
            lemma_end_boundary(name@);
        }
        match find_from(name, "\"", 0) {
            Some(end) => {
                proof {
                    lemma_occurrence_cut(name@, "\""@, end as int);
                }
                Some(substr(name, 0, end))
            },
            None => Some(name),
        }
    } else {
        None
    }
}

proof fn lemma_section(s: Seq<u8>)
    requires
        occurs(s, utf8("(lib_symbols"@)) || occurs(s, utf8(")\n"@)),
    ensures
        occurs(with_section(s), utf8("(lib_symbols"@)),
{
    if !occurs(s, utf8("(lib_symbols"@)) {
        let p = utf8("(lib_symbols"@);
        let section = utf8("\n\t(lib_symbols\n\t)\n"@);
        reveal_strlit("(lib_symbols");
        reveal_strlit("\n\t(lib_symbols\n\t)\n");
        reveal_strlit(")\n");
        vstd::utf8::is_ascii_chars_encode_utf8("(lib_symbols"@);
        vstd::utf8::is_ascii_chars_encode_utf8("\n\t(lib_symbols\n\t)\n"@);
        vstd::utf8::is_ascii_chars_encode_utf8(")\n"@);
        lemma_first_at(s, utf8(")\n"@), 0);
        let i = first_at(s, utf8(")\n"@), 0)->0 + 2;
        let t = with_section(s);
        assert(section.subrange(2, 14) =~= p);
        assert(t.subrange(i + 2, i + 2 + p.len()) =~= section.subrange(2, 14));
        assert(occurs_at(t, p, i + 2));
        lemma_occurs(t, p);
    }
}

/// A line that begins with a text without line breaks begins with it when it is set in, too.
proof fn lemma_indented_first(def: Seq<u8>, p: Seq<u8>)
    requires
        p.len() > 0,
        occurs_at(def, p, 0),
        forall|i: int| 0 <= i < p.len() ==> #[trigger] p[i] != 0x0a && p[i] != 0x0d,
    ensures
        occurs_at(indented(def), p, 2),
{
    reveal_strlit("\n");
    reveal_strlit("\t\t");
    lemma_one_byte("\n"@);
    vstd::utf8::is_ascii_chars_encode_utf8("\t\t"@);
    lemma_first_at(def, utf8("\n"@), 0);
    let line = line_at(def, 0);
    assert forall|i: int| 0 <= i < p.len() implies def[i] == #[trigger] p[i] by {
        assert(def.subrange(0, p.len() as int)[i] == def[i]);
    }
    if let Some(n) = first_at(def, utf8("\n"@), 0) {
        assert(def.subrange(n, n + 1)[0] == def[n]);
        assert(def[n] == 0x0a);
        if n < p.len() {
            assert(p[n] != 0x0a);
        }
        if n == p.len() {
            assert(def.subrange(0, n).last() == p[n - 1]);
        }
    }
    assert(line.len() >= p.len());
    assert(line.subrange(0, p.len() as int) =~= p);
    let rest = indented_from(def, after_line(def, 0), false);
    assert(indented(def) =~= tabbed(line) + rest);
    assert(indented(def).subrange(2, 2 + p.len() as int) =~= line.subrange(0, p.len() as int));
}

/// A symbol is embedded once: a schematic that was given a definition embeds
/// the symbol from then on, and is left alone when it is asked for again.
pub proof fn law_embedded_once(s: Seq<u8>, lib_id: Seq<char>, def: Seq<u8>)
    requires
        occurs(s, utf8("(lib_symbols"@)) || occurs(s, utf8(")\n"@)),
        occurs_at(def, utf8("(symbol \""@ + lib_id + "\""@), 0),
        !lib_id.contains('\n'),
        !lib_id.contains('\r'),
    ensures
        embeds(definition_added(with_section(s), def), lib_id),
{
    let open = "(symbol \""@;
    let close = "\""@;
    let p = utf8(open + lib_id + close);
    reveal_strlit("(symbol \"");
    reveal_strlit("\"");
    vstd::utf8::is_ascii_chars_encode_utf8(open);
    vstd::utf8::is_ascii_chars_encode_utf8(close);
    lemma_byte_absent(lib_id, '\n');
    lemma_byte_absent(lib_id, '\r');
    lemma_utf8_add(open, lib_id);
    lemma_utf8_add(open + lib_id, close);
    assert(p =~= utf8(open) + utf8(lib_id) + utf8(close));
    lemma_indented_first(def, p);
    lemma_section(s);
    let w = with_section(s);
    let start = first_at(w, utf8("(lib_symbols"@), 0)->0;
    lemma_first_at(w, utf8("(lib_symbols"@), 0);
    lemma_count_close(w, start, 0);
    let at = match count_close(w, start, 0) {
        Some(end) => end,
        None => start,
    };
    reveal_strlit("\n");
    lemma_one_byte("\n"@);
    let text = utf8("\n"@) + indented(def) + utf8("\n\t"@);
    let t = spliced(w, at, at, text);
    assert(t.subrange(at + 3, at + 3 + p.len()) =~= indented(def).subrange(2, 2 + p.len() as int));
    assert(occurs_at(t, p, at + 3));
    lemma_occurs(t, p);
}

proof fn lemma_count_close(s: Seq<u8>, i: int, depth: int)
    requires
        0 <= i,
    ensures
        count_close(s, i, depth) matches Some(e) ==> i <= e < s.len(),
    decreases s.len() - i,
{
    if i < s.len() {
        lemma_count_close(s, i + 1, depth + 1);
        lemma_count_close(s, i + 1, depth - 1);
        lemma_count_close(s, i + 1, depth);
    }
}

} // verus!
