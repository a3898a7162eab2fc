//! The properties of a placed symbol, edited in the text of the schematic.

use vstd::prelude::*;
use vstd::string::{StrSliceExecFns, StringExecFns};
use vstd::utf8::is_char_boundary;
use crate::edit::{all_fit, apply_edits, edit_views, edited, Edit, SexpEdit};
use crate::node::{is_blank, past_blanks};
use crate::numeral::{is_number, is_number_text, PointText};
use crate::quote::{escape, escaped, past_spaces, past_word, skip_spaces, skip_word};
use crate::scan::{block_end, lemma_block_end, span, spans};
use crate::symbols::{
    block_text, find_all_symbol_instance_blocks, instance_block, instance_blocks,
    law_instance_blocks_sound,
};
use crate::text::{
    byte_len, bytes_rfind, chars, contains, find_from, find_hits, first_at, hits, join3, join5,
    last_byte_below, lemma_ascii_boundary, lemma_chars, lemma_edges, lemma_end_boundary,
    lemma_first_at, lemma_hits, lemma_last_byte_below, lemma_occurrence_cut, lemma_occurs,
    lemma_one_byte, occurs, occurs_at, same, substr, utf8,
};

verus! {

/// The new text, or why there is none.
pub open spec fn gives(r: Result<String, String>, expected: Result<Seq<u8>, Seq<char>>) -> bool {
    match r {
        Ok(t) => expected == Ok::<Seq<u8>, Seq<char>>(utf8(t@)),
        Err(m) => expected == Err::<Seq<u8>, Seq<char>>(m@),
    }
}

// ── Existing properties ──────────────────────────────────────────────────────

/// A property with a parameter of its own.
pub open spec fn reserved(name: Seq<char>) -> bool {
    name == "Reference"@ || name == "Value"@ || name == "Footprint"@ || name == "Datasheet"@
}

/// Whether a property has a parameter of its own. Setting such a property as a
/// plain field would let one call set it twice, and a designator set that way
/// would not reach the instances path.
pub fn is_reserved_property(name: &str) -> (r: bool)
    ensures
        r == reserved(name@),
{
    same(name, "Reference") || same(name, "Value") || same(name, "Footprint") || same(
        name,
        "Datasheet",
    )
}

/// The beginning of a property of that name, up to its value.
pub open spec fn property_start(name: Seq<char>) -> Seq<char> {
    "(property \""@ + name + "\" \""@
}

/// The block of a placed symbol holds a property of that name.
pub open spec fn holds(s: Seq<u8>, b: (int, int), name: Seq<char>) -> bool {
    occurs(s.subrange(b.0, b.1), utf8(property_start(name)))
}

/// Some unit of the component carries a property of that name.
pub open spec fn carries(s: Seq<u8>, reference: Seq<char>, name: Seq<char>) -> bool {
    exists|k: int|
        0 <= k < instance_blocks(s, reference).len() && holds(
            s,
            #[trigger] instance_blocks(s, reference)[k],
            name,
        )
}

/// No placed symbol bears that designator.
pub open spec fn no_symbol(reference: Seq<char>) -> Seq<char> {
    "symbol '"@ + reference + "' not found in this schematic"@
}

/// Facts about the blocks of the units of a component.
pub proof fn lemma_units(s: Seq<u8>, reference: Seq<char>)
    ensures
        forall|k: int|
            0 <= k < instance_blocks(s, reference).len() ==> unit_shaped(
                s,
                #[trigger] instance_blocks(s, reference)[k],
            ),
{
    law_instance_blocks_sound(s, reference);
    assert forall|k: int| 0 <= k < instance_blocks(s, reference).len() implies unit_shaped(
        s,
        #[trigger] instance_blocks(s, reference)[k],
    ) by {
        lemma_block_end(s, instance_blocks(s, reference)[k].0);
    }
}

/// A block of a text, between its parentheses.
pub open spec fn unit_shaped(s: Seq<u8>, b: (int, int)) -> bool {
    &&& block_end(s, b.0) == Some(b.1)
    &&& 0 <= b.0
    &&& b.0 + 2 <= b.1 <= s.len()
    &&& s[b.0] == 0x28
    &&& s[b.1 - 1] == 0x29
}

/// Facts about the first placed symbol's block.
pub proof fn lemma_instance_block(s: Seq<u8>, reference: Seq<char>)
    ensures
        instance_block(s, reference) matches Some(b) ==> unit_shaped(s, b),
{
    lemma_units(s, reference);
    if let Some(b) = instance_block(s, reference) {
        assert(instance_blocks(s, reference)[0] == b);
    }
}

pub proof fn lemma_property_start(name: Seq<char>)
    ensures
        property_start(name).len() > 0,
        property_start(name)[0] == '(',
        property_start(name).last() == '"',
        utf8(property_start(name)).len() > 0,
{
    reveal_strlit("(property \"");
    reveal_strlit("\" \"");
    lemma_edges(property_start(name));
}

/// Whether some unit of the component carries a property of that name.
pub fn property_exists(content: &str, reference: &str, name: &str) -> (r: bool)
    ensures
        r == carries(utf8(content@), reference@, name@),
{
    let ghost s = utf8(content@);
    let blocks = find_all_symbol_instance_blocks(content, reference);
    let ghost all = instance_blocks(s, reference@);
    let pattern = join3("(property \"", name, "\" \"");
    proof {
        lemma_units(s, reference@);
    }
    let mut k: usize = 0;
    while k < blocks.len()
        invariant
            k <= blocks@.len(),
            s == utf8(content@),
            spans(blocks@) == all,
            all == instance_blocks(s, reference@),
            pattern@ == property_start(name@),
            forall|j: int| 0 <= j < all.len() ==> unit_shaped(s, #[trigger] all[j]),
            forall|j: int| 0 <= j < k ==> !holds(s, #[trigger] all[j], name@),
        decreases blocks@.len() - k,
    {
        assert(all[k as int] == span(blocks@[k as int]));
        assert(unit_shaped(s, all[k as int]));
        if contains(block_text(content, blocks[k].0, blocks[k].1), pattern.as_str()) {
            return true;
        }
        k += 1;
    }
    false
}

/// What stands in a part of a text stands in the whole.
pub proof fn lemma_within(s: Seq<u8>, a: int, b: int, p: Seq<u8>, i: int)
    requires
        0 <= a <= b <= s.len(),
        occurs_at(s.subrange(a, b), p, i),
    ensures
        occurs_at(s, p, a + i),
        a + i + p.len() <= b,
{
    assert(s.subrange(a, b).subrange(i, i + p.len()) =~= s.subrange(a + i, a + i + p.len()));
}

// ── New properties ───────────────────────────────────────────────────────────

/// The first two words of a text, when both are numbers.
pub open spec fn two_numerals(inner: Seq<char>) -> Option<(Seq<char>, Seq<char>)> {
    let a = past_spaces(inner, 0);
    let b = past_word(inner, a);
    let c = past_spaces(inner, b);
    let d = past_word(inner, c);
    let x = inner.subrange(a, b);
    let y = inner.subrange(c, d);
    if a < b && c < d && is_number(utf8(x)) && is_number(utf8(y)) {
        Some((x, y))
    } else {
        None
    }
}

/// The numbers of the first `(at …)` in a block, as they are written.
pub open spec fn placement(block: Seq<u8>) -> Option<(Seq<char>, Seq<char>)> {
    match first_at(block, utf8("(at "@), 0) {
        Some(at) => match first_at(block, utf8(")"@), at + 4) {
            Some(close) => two_numerals(chars(block.subrange(at + 4, close))),
            None => None,
        },
        None => None,
    }
}

/// The indentation of the line on which the first property of a block stands.
pub open spec fn property_indent(block: Seq<u8>) -> Seq<char> {
    match first_at(block, utf8("(property "@), 0) {
        Some(p) => {
            let line = match last_byte_below(block, 0x0a, p) {
                Some(n) => n + 1,
                None => 0,
            };
            chars(block.subrange(line, past_blanks(block, line)))
        },
        None => "\t\t"@,
    }
}

/// A hidden property at the place `(x, y)`, on lines of its own.
pub open spec fn new_property(
    indent: Seq<char>,
    name: Seq<char>,
    value: Seq<char>,
    x: Seq<char>,
    y: Seq<char>,
) -> Seq<char> {
    "\n"@ + indent + "(property \""@ + name + "\" \""@ + escaped(value, false) + "\"\n"@ + indent
        + "\t(at "@ + x + " "@ + y + " 0)\n"@ + indent + "\t(hide yes)\n"@ + indent + "\t(effects\n"@
        + indent + "\t\t(font\n"@ + indent + "\t\t\t(size 1.27 1.27)\n"@ + indent + "\t\t)\n"@
        + indent + "\t)\n"@ + indent + ")"@
}

/// The numbers at which each unit of a component sits, as they are written.
pub open spec fn placements(s: Seq<u8>, reference: Seq<char>) -> Seq<
    Option<(Seq<char>, Seq<char>)>,
> {
    instance_blocks(s, reference).map_values(|b: (int, int)| placement(s.subrange(b.0, b.1)))
}

fn read_two_numerals(inner: &str) -> (r: Option<(String, String)>)
    ensures
        match r {
            Some((x, y)) => two_numerals(inner@) == Some((x@, y@)),
            None => two_numerals(inner@) is None,
        },
{
    let a = skip_spaces(inner, 0);
    let b = skip_word(inner, a);
    let c = skip_spaces(inner, b);
    let d = skip_word(inner, c);
    if a >= b || c >= d {
        return None;
    }
    let x = inner.substring_char(a, b);
    let y = inner.substring_char(c, d);
    if is_number_text(x) && is_number_text(y) {
        Some((x.to_owned(), y.to_owned()))
    } else {
        None
    }
}

fn read_placement(block: &str) -> (r: Option<(String, String)>)
    ensures
        match r {
            Some((x, y)) => placement(utf8(block@)) == Some((x@, y@)),
            None => placement(utf8(block@)) is None,
        },
{
    proof {
        reveal_strlit("(at ");
        reveal_strlit(")");
        vstd::utf8::is_ascii_chars_encode_utf8("(at "@);
        lemma_first_at(utf8(block@), utf8("(at "@), 0);
    }
    let total = byte_len(block);
    let at = match find_from(block, "(at ", 0) {
        Some(at) => at,
        None => {
            return None;
        },
    };
    proof {
        lemma_occurrence_cut(block@, "(at "@, at as int);
        lemma_first_at(utf8(block@), utf8(")"@), at + 4);
    }
    let close = match find_from(block, ")", at + 4) {
        Some(c) => c,
        None => {
            return None;
        },
    };
    proof {
        lemma_occurrence_cut(block@, ")"@, close as int);
    }
    let inner = substr(block, at + 4, close);
    proof {
        lemma_chars(inner@);
    }
    read_two_numerals(inner)
}

/// Numbers as mathematical values, where they could be read.
pub open spec fn opt_pair(p: Option<PointText>) -> Option<(Seq<char>, Seq<char>)> {
    match p {
        Some(p) => Some((p.x@, p.y@)),
        None => None,
    }
}

/// The numbers at which each unit of a component sits, as they are written.
pub fn placement_numerals(content: &str, reference: &str) -> (r: Vec<Option<PointText>>)
    ensures
        r@.map_values(|p: Option<PointText>| opt_pair(p)) == placements(
            utf8(content@),
            reference@,
        ),
{
    let ghost s = utf8(content@);
    let blocks = find_all_symbol_instance_blocks(content, reference);
    let ghost all = instance_blocks(s, reference@);
    proof {
        lemma_units(s, reference@);
    }
    let mut out: Vec<Option<PointText>> = Vec::new();
    let mut k: usize = 0;
    while k < blocks.len()
        invariant
            k <= blocks@.len(),
            s == utf8(content@),
            spans(blocks@) == all,
            forall|j: int| 0 <= j < all.len() ==> unit_shaped(s, #[trigger] all[j]),
            out@.len() == k,
            forall|j: int|
                0 <= j < k ==> opt_pair(#[trigger] out@[j]) == placement(
                    s.subrange(all[j].0, all[j].1),
                ),
        decreases blocks@.len() - k,
    {
        assert(all[k as int] == span(blocks@[k as int]));
        assert(unit_shaped(s, all[k as int]));
        let here = match read_placement(block_text(content, blocks[k].0, blocks[k].1)) {
            Some((x, y)) => Some(PointText { x, y }),
            None => None,
        };
        out.push(here);
        k += 1;
    }
    assert(out@.map_values(|p: Option<PointText>| opt_pair(p)) =~= placements(s, reference@));
    out
}

fn read_indent(block: &str) -> (r: String)
    ensures
        r@ == property_indent(utf8(block@)),
{
    proof {
        reveal_strlit("(property ");
        lemma_first_at(utf8(block@), utf8("(property "@), 0);
        lemma_end_boundary(block@);
    }
    match find_from(block, "(property ", 0) {
        Some(p) => {
            proof {
                lemma_occurrence_cut(block@, "(property "@, p as int);
                lemma_last_byte_below(utf8(block@), 0x0a, p as int);
            }
            let line = match bytes_rfind(block.as_bytes(), 0x0a, p) {
                Some(n) => {
                    proof {
                        lemma_ascii_boundary(block@, n as int);
                    }
                    n + 1
                },
                None => 0,
            };
            let mut end: usize = line;
            proof {
                crate::alike::lemma_blanks(utf8(block@), line as int);
                vstd::utf8::is_ascii_chars_encode_utf8("(property "@);
                assert(utf8(block@).subrange(p as int, p + utf8("(property "@).len())[0]
                    == utf8("(property "@)[0]);
                if past_blanks(utf8(block@), line as int) > p {
                    assert(is_blank(utf8(block@)[p as int]));
                }
            }
            let bytes = block.as_bytes();
            while end < p && (bytes[end] == 0x20 || bytes[end] == 0x09 || bytes[end] == 0x0a
                || bytes[end] == 0x0d)
                invariant
                    line <= end <= p,
                    p < bytes@.len(),
                    bytes@ == utf8(block@),
                    bytes@[p as int] == 0x28,
                    is_char_boundary(utf8(block@), end as int),
                    past_blanks(bytes@, line as int) == past_blanks(bytes@, end as int),
                decreases p - end,
            {
                proof {
                    lemma_ascii_boundary(block@, end as int);
                }
                end += 1;
            }
            let indent = substr(block, line, end);
            proof {
                lemma_chars(indent@);
            }
            indent.to_owned()
        },
        None => "\t\t".to_owned(),
    }
}

fn write_property(indent: &str, name: &str, value: &str, x: &str, y: &str) -> (r: String)
    ensures
        r@ == new_property(indent@, name@, value@, x@, y@),
{
    let text = escape(value, false);
    let mut r = String::new();
    r.append("\n");
    r.append(indent);
    r.append("(property \"");
    r.append(name);
    r.append("\" \"");
    r.append(text.as_str());
    r.append("\"\n");
    r.append(indent);
    r.append("\t(at ");
    r.append(x);
    r.append(" ");
    r.append(y);
    r.append(" 0)\n");
    r.append(indent);
    r.append("\t(hide yes)\n");
    r.append(indent);
    r.append("\t(effects\n");
    r.append(indent);
    r.append("\t\t(font\n");
    r.append(indent);
    r.append("\t\t\t(size 1.27 1.27)\n");
    r.append(indent);
    r.append("\t\t)\n");
    r.append(indent);
    r.append("\t)\n");
    r.append(indent);
    r.append(")");
    assert(r@ =~= new_property(indent@, name@, value@, x@, y@));
    r
}

// ── Fields of a component ────────────────────────────────────────────────────

/// Where the value of a property begins in a unit that holds the property.
pub open spec fn value_start(s: Seq<u8>, b: (int, int), name: Seq<char>) -> int {
    b.0 + first_at(s.subrange(b.0, b.1), utf8(property_start(name)), 0)->0 + utf8(
        property_start(name),
    ).len()
}

/// The quote that ends the value of a property of a unit.
pub open spec fn value_end(s: Seq<u8>, b: (int, int), name: Seq<char>) -> Option<int> {
    first_at(s, utf8("\""@), value_start(s, b, name))
}

/// The edit that gives a property of a unit another value.
pub open spec fn value_edit(s: Seq<u8>, b: (int, int), name: Seq<char>, value: Seq<char>) -> Edit {
    Edit {
        start: value_start(s, b, name),
        end: value_end(s, b, name)->0,
        text: utf8(value),
    }
}

/// The edit that adds a property to a unit, as the last thing in its block.
pub open spec fn add_edit(
    s: Seq<u8>,
    b: (int, int),
    name: Seq<char>,
    value: Seq<char>,
    place: PointText,
) -> Edit {
    Edit {
        start: b.1 - 1,
        end: b.1 - 1,
        text: utf8(
            new_property(
                property_indent(s.subrange(b.0, b.1)),
                name,
                value,
                place.x@,
                place.y@,
            ),
        ),
    }
}

/// What a change to a field does: whether it sets the field on the units that
/// carry it, and whether it adds the field to those on which it is not set.
#[derive(Debug, Clone, Copy, PartialEq, Eq, Structural)]
pub struct Reach {
    pub set: bool,
    pub add: bool,
}

impl Reach {
    /// A unit that carries the field or does not has it set.
    pub open spec fn sets(self, held: bool) -> bool {
        held && self.set
    }

    /// A unit that carries the field or does not has it added.
    pub open spec fn adds(self, held: bool) -> bool {
        self.add && !self.sets(held)
    }
}

/// The edits that change a field on the first `n` units. `places` shows the
/// numbers at which each unit sits.
pub open spec fn field_edits(
    s: Seq<u8>,
    blocks: Seq<(int, int)>,
    n: int,
    name: Seq<char>,
    value: Seq<char>,
    places: Seq<PointText>,
    reach: Reach,
) -> Seq<Edit>
    decreases n,
{
    if n <= 0 {
        Seq::empty()
    } else {
        let before = field_edits(s, blocks, n - 1, name, value, places, reach);
        let b = blocks[n - 1];
        let held = holds(s, b, name);
        if reach.sets(held) {
            before.push(value_edit(s, b, name, value))
        } else if reach.adds(held) {
            before.push(add_edit(s, b, name, value, places[n - 1]))
        } else {
            before
        }
    }
}

/// Why a field of a unit cannot be changed, if it cannot.
pub open spec fn unit_fault(
    s: Seq<u8>,
    b: (int, int),
    reference: Seq<char>,
    name: Seq<char>,
    reach: Reach,
) -> Option<Seq<char>> {
    let held = holds(s, b, name);
    if reach.sets(held) && value_end(s, b, name) is None {
        Some("'"@ + name + "' property on '"@ + reference + "' is malformed"@)
    } else if reach.adds(held) && placement(s.subrange(b.0, b.1)) is None {
        Some("'"@ + reference + "' has no readable (at …) placement"@)
    } else {
        None
    }
}

/// The first reason, from the unit at `k` on, for which a field cannot be changed.
pub open spec fn first_fault(
    s: Seq<u8>,
    blocks: Seq<(int, int)>,
    k: int,
    reference: Seq<char>,
    name: Seq<char>,
    reach: Reach,
) -> Option<Seq<char>>
    decreases blocks.len() - k,
{
    if k >= blocks.len() {
        None
    } else if unit_fault(s, blocks[k], reference, name, reach) is Some {
        unit_fault(s, blocks[k], reference, name, reach)
    } else {
        first_fault(s, blocks, k + 1, reference, name, reach)
    }
}

/// The schematic with a field of a component changed on its units, or why it
/// cannot be.
pub open spec fn field_changed(
    s: Seq<u8>,
    reference: Seq<char>,
    name: Seq<char>,
    value: Seq<char>,
    places: Seq<PointText>,
    reach: Reach,
) -> Result<Seq<u8>, Seq<char>> {
    let blocks = instance_blocks(s, reference);
    match first_fault(s, blocks, 0, reference, name, reach) {
        Some(why) => Err(why),
        None => if blocks.len() == 0 {
            Err(no_symbol(reference))
        } else if !reach.add && !carries(s, reference, name) {
            Err("'"@ + reference + "' has no '"@ + name + "' property"@)
        } else {
            Ok(
                edited(
                    s,
                    field_edits(s, blocks, blocks.len() as int, name, value, places, reach),
                ),
            )
        },
    }
}

/// The schematic with the value of a property replaced on every unit that
/// carries it, or why it cannot be.
pub open spec fn value_replaced(
    s: Seq<u8>,
    reference: Seq<char>,
    field: Seq<char>,
    new_val: Seq<char>,
) -> Result<Seq<u8>, Seq<char>> {
    field_changed(
        s,
        reference,
        field,
        new_val,
        Seq::empty(),
        (Reach { set: true, add: false }),
    )
}

/// The schematic with a property added to every unit, as the last thing in its
/// block, or why it cannot be. `places` shows the numbers at which each unit
/// sits.
pub open spec fn property_added(
    s: Seq<u8>,
    reference: Seq<char>,
    name: Seq<char>,
    value: Seq<char>,
    places: Seq<PointText>,
) -> Result<Seq<u8>, Seq<char>> {
    field_changed(s, reference, name, value, places, (Reach { set: false, add: true }))
}

/// The schematic with a field on every unit of a component: in place where a
/// unit carries it, else added; or why it cannot be.
pub open spec fn property_set(
    s: Seq<u8>,
    reference: Seq<char>,
    name: Seq<char>,
    value: Seq<char>,
    places: Seq<PointText>,
) -> Result<Seq<u8>, Seq<char>> {
    field_changed(s, reference, name, value, places, (Reach { set: true, add: true }))
}

/// Adds to `edits` the one that changes a field on a unit, if there is one.
fn push_unit_edit(
    content: &str,
    block: (usize, usize),
    reference: &str,
    name: &str,
    value: &str,
    place: Option<&PointText>,
    reach: Reach,
    edits: &mut Vec<SexpEdit>,
) -> (r: Result<(), String>)
    requires
        unit_shaped(utf8(content@), span(block)),
        all_fit(edit_views(old(edits)@), utf8(content@)),
        reach.add ==> place is Some,
    ensures
        ({
            let s = utf8(content@);
            let b = span(block);
            let before = edit_views(old(edits)@);
            &&& match r {
                Ok(_) => unit_fault(s, b, reference@, name@, reach) is None,
                Err(why) => unit_fault(s, b, reference@, name@, reach) == Some(why@),
            }
            &&& r is Ok ==> edit_views(final(edits)@) == if reach.sets(holds(s, b, name@)) {
                before.push(value_edit(s, b, name@, value@))
            } else if reach.adds(holds(s, b, name@)) {
                before.push(add_edit(s, b, name@, value@, *place->0))
            } else {
                before
            }
            &&& all_fit(edit_views(final(edits)@), s)
        }),
{
    let ghost s = utf8(content@);
    let ghost before = edits@;
    let (start, end) = block;
    let total = byte_len(content);
    let text = block_text(content, start, end);
    let pattern = join3("(property \"", name, "\" \"");
    proof {
        lemma_property_start(name@);
        reveal_strlit("\"");
        lemma_one_byte("\""@);
        lemma_first_at(utf8(text@), utf8(pattern@), 0);
        lemma_occurs(utf8(text@), utf8(pattern@));
        lemma_ascii_boundary(content@, end - 1);
    }
    let held = if reach.set {
        find_from(text, pattern.as_str(), 0)
    } else {
        None
    };
    match held {
        Some(offset) => {
            proof {
                lemma_within(s, start as int, end as int, utf8(pattern@), offset as int);
                lemma_occurrence_cut(content@, pattern@, start + offset);
            }
            let from = start + offset + byte_len(pattern.as_str());
            match find_from(content, "\"", from) {
                Some(to) => {
                    proof {
                        lemma_first_at(s, utf8("\""@), from as int);
                        lemma_occurrence_cut(content@, "\""@, to as int);
                    }
                    edits.push(SexpEdit::replace(from, to, value.to_owned()));
                    assert(edit_views(edits@) =~= edit_views(before).push(
                        value_edit(s, span(block), name@, value@),
                    ));
                    Ok(())
                },
                None => Err(
                    join5("'", name, "' property on '", reference, "' is malformed"),
                ),
            }
        },
        None => match (reach.add, place) {
            (true, Some(place)) => {
                if read_placement(text).is_none() {
                    return Err(join3("'", reference, "' has no readable (at …) placement"));
                }
                let indent = read_indent(text);
                let property = write_property(
                    indent.as_str(),
                    name,
                    value,
                    place.x.as_str(),
                    place.y.as_str(),
                );
                edits.push(SexpEdit::insert(end - 1, property));
                assert(edit_views(edits@) =~= edit_views(before).push(
                    add_edit(s, span(block), name@, value@, *place),
                ));
                Ok(())
            },
            _ => Ok(()),
        },
    }
}

/// A fault of an earlier unit comes before those of later ones.
pub proof fn lemma_first_fault(
    s: Seq<u8>,
    blocks: Seq<(int, int)>,
    i: int,
    k: int,
    reference: Seq<char>,
    name: Seq<char>,
    reach: Reach,
)
    requires
        0 <= i <= k <= blocks.len(),
        forall|j: int|
            i <= j < k ==> unit_fault(s, #[trigger] blocks[j], reference, name, reach) is None,
    ensures
        first_fault(s, blocks, i, reference, name, reach) == first_fault(
            s,
            blocks,
            k,
            reference,
            name,
            reach,
        ),
    decreases k - i,
{
    if i < k {
        assert(unit_fault(s, blocks[i], reference, name, reach) is None);
        lemma_first_fault(s, blocks, i + 1, k, reference, name, reach);
    }
}

/// Changes a field of a component on its units.
fn change_field(
    content: &str,
    reference: &str,
    name: &str,
    value: &str,
    places: &Vec<PointText>,
    reach: Reach,
) -> (r: Result<String, String>)
    requires
        reach.add ==> places@.len() == instance_blocks(utf8(content@), reference@).len(),
    ensures
        gives(r, field_changed(utf8(content@), reference@, name@, value@, places@, reach)),
{
    let ghost s = utf8(content@);
    let blocks = find_all_symbol_instance_blocks(content, reference);
    let ghost all = instance_blocks(s, reference@);
    if blocks.len() == 0 {
        assert(spans(blocks@).len() == 0);
        return Err(join3("symbol '", reference, "' not found in this schematic"));
    }
    proof {
        lemma_units(s, reference@);
    }
    let mut edits: Vec<SexpEdit> = Vec::new();
    let mut k: usize = 0;
    assert(edit_views(edits@) =~= Seq::<Edit>::empty());
    while k < blocks.len()
        invariant
            k <= blocks@.len(),
            s == utf8(content@),
            spans(blocks@) == all,
            all.len() == blocks@.len(),
            all.len() > 0,
            all == instance_blocks(s, reference@),
            reach.add ==> places@.len() == all.len(),
            forall|j: int| 0 <= j < all.len() ==> unit_shaped(s, #[trigger] all[j]),
            forall|j: int|
                0 <= j < k ==> unit_fault(s, #[trigger] all[j], reference@, name@, reach) is None,
            edit_views(edits@) == field_edits(s, all, k as int, name@, value@, places@, reach),
            all_fit(edit_views(edits@), s),
        decreases blocks@.len() - k,
    {
        assert(all[k as int] == span(blocks@[k as int]));
        assert(unit_shaped(s, all[k as int]));
        let place = if reach.add {
            Some(&places[k])
        } else {
            None
        };
        if let Err(why) = push_unit_edit(
            content,
            blocks[k],
            reference,
            name,
            value,
            place,
            reach,
            &mut edits,
        ) {
            proof {
                lemma_first_fault(s, all, 0, k as int, reference@, name@, reach);
            }
            return Err(why);
        }
        k += 1;
    }
    proof {
        lemma_first_fault(s, all, 0, all.len() as int, reference@, name@, reach);
    }
    if !reach.add && !property_exists(content, reference, name) {
        return Err(join5("'", reference, "' has no '", name, "' property"));
    }
    Ok(apply_edits(content, edits))
}

/// Replaces the value of a property on every unit of a component that carries
/// it, and nothing else.
pub fn update_property_value(content: &str, reference: &str, field: &str, new_val: &str) -> (r:
    Result<String, String>)
    ensures
        gives(r, value_replaced(utf8(content@), reference@, field@, new_val@)),
{
    let places: Vec<PointText> = Vec::new();
    assert(places@ =~= Seq::<PointText>::empty());
    change_field(
        content,
        reference,
        field,
        new_val,
        &places,
        Reach { set: true, add: false },
    )
}

/// Adds a property to every unit of a component: hidden, at the unit's own
/// place, and indented as the block's other properties are. `places` shows the
/// numbers at which each unit sits.
pub fn append_property(
    content: &str,
    reference: &str,
    name: &str,
    value: &str,
    places: &Vec<PointText>,
) -> (r: Result<String, String>)
    requires
        places@.len() == instance_blocks(utf8(content@), reference@).len(),
    ensures
        gives(r, property_added(utf8(content@), reference@, name@, value@, places@)),
{
    change_field(content, reference, name, value, places, Reach { set: false, add: true })
}

/// Puts a field on every unit of a component: in place where the unit carries
/// it, else added. `places` shows the numbers at which each unit sits.
pub fn set_property(
    content: &str,
    reference: &str,
    name: &str,
    value: &str,
    places: &Vec<PointText>,
) -> (r: Result<String, String>)
    requires
        places@.len() == instance_blocks(utf8(content@), reference@).len(),
    ensures
        gives(r, property_set(utf8(content@), reference@, name@, value@, places@)),
{
    change_field(content, reference, name, value, places, Reach { set: true, add: true })
}

// ── Designators in the instances path ────────────────────────────────────────

/// A designator as the instances path holds it.
pub open spec fn path_reference(reference: Seq<char>) -> Seq<char> {
    "(reference \""@ + reference + "\")"@
}

/// What is `width` bytes long at `i` lies inside one of the blocks.
pub open spec fn within(blocks: Seq<(int, int)>, i: int, width: int) -> bool {
    exists|k: int|
        0 <= k < blocks.len() && (#[trigger] blocks[k]).0 <= i && i + width <= blocks[k].1
}

/// Those of the first `n` offsets at which `width` bytes lie inside a block.
pub open spec fn inside(at: Seq<int>, n: int, blocks: Seq<(int, int)>, width: int) -> Seq<int>
    decreases n,
{
    if n <= 0 {
        Seq::empty()
    } else if within(blocks, at[n - 1], width) {
        inside(at, n - 1, blocks, width).push(at[n - 1])
    } else {
        inside(at, n - 1, blocks, width)
    }
}

/// The edit that puts `new` over the `width` bytes at `at`.
pub open spec fn hit_edit(at: int, width: int, new: Seq<u8>) -> Edit {
    Edit { start: at, end: at + width, text: new }
}

/// The edits that put `new` over each occurrence of `gone` in the blocks.
pub open spec fn entry_edits(
    s: Seq<u8>,
    blocks: Seq<(int, int)>,
    gone: Seq<u8>,
    new: Seq<u8>,
) -> Seq<Edit> {
    let at = hits(s, gone, 0);
    inside(at, at.len() as int, blocks, gone.len() as int).map_values(
        |i: int| hit_edit(i, gone.len() as int, new),
    )
}

/// The edits that rename the designator of a component in its instances path.
pub open spec fn rename_edits(s: Seq<u8>, old_ref: Seq<char>, new_ref: Seq<char>) -> Seq<Edit> {
    entry_edits(
        s,
        instance_blocks(s, new_ref),
        utf8(path_reference(old_ref)),
        utf8(path_reference(new_ref)),
    )
}

/// The schematic with the designator renamed in the instances path of every
/// unit, and how often, or why it cannot be.
pub open spec fn path_renamed(s: Seq<u8>, old_ref: Seq<char>, new_ref: Seq<char>) -> Result<
    (Seq<u8>, int),
    Seq<char>,
> {
    let es = rename_edits(s, old_ref, new_ref);
    if instance_blocks(s, new_ref).len() == 0 {
        Err("symbol '"@ + old_ref + "' not found after the rename"@)
    } else if es.len() == 0 {
        Err(
            "'"@ + new_ref + "' has no (reference \""@ + old_ref
                + "\") in its instances path — the property was renamed but the netlist still reads the old designator"@,
        )
    } else {
        Ok((edited(s, es), es.len() as int))
    }
}

proof fn lemma_path_reference(reference: Seq<char>)
    ensures
        path_reference(reference).len() > 0,
        path_reference(reference)[0] == '(',
        path_reference(reference).last() == ')',
{
    reveal_strlit("(reference \"");
    reveal_strlit("\")");
}

/// The edits that put `new` over each occurrence of `gone` in the blocks.
fn collect_entry_edits(content: &str, blocks: &Vec<(usize, usize)>, gone: &str, new: &str) -> (r:
    Vec<SexpEdit>)
    requires
        gone@.len() > 0,
        gone@[0] <= '\u{7f}',
        gone@.last() <= '\u{7f}',
    ensures
        edit_views(r@) == entry_edits(utf8(content@), spans(blocks@), utf8(gone@), utf8(new@)),
        all_fit(edit_views(r@), utf8(content@)),
{
    let ghost s = utf8(content@);
    let ghost all = spans(blocks@);
    proof {
        lemma_edges(gone@);
    }
    let total = byte_len(content);
    let width = byte_len(gone);
    let found = find_hits(content, gone);
    let ghost at = hits(s, utf8(gone@), 0);
    proof {
        lemma_hits(s, utf8(gone@), 0);
    }
    let mut edits: Vec<SexpEdit> = Vec::new();
    let mut k: usize = 0;
    let ghost wanted = |i: int| hit_edit(i, width as int, utf8(new@));
    assert(edit_views(edits@) =~= inside(at, 0, all, width as int).map_values(wanted));
    while k < found.len()
        invariant
            k <= found@.len(),
            s == utf8(content@),
            total == s.len(),
            all == spans(blocks@),
            width == utf8(gone@).len(),
            gone@.len() > 0,
            gone@[0] <= '\u{7f}',
            gone@.last() <= '\u{7f}',
            at == hits(s, utf8(gone@), 0),
            found@.map_values(|i: usize| i as int) == at,
            forall|j: int| 0 <= j < at.len() ==> occurs_at(s, utf8(gone@), #[trigger] at[j]),
            wanted == (|i: int| hit_edit(i, width as int, utf8(new@))),
            edit_views(edits@) == inside(at, k as int, all, width as int).map_values(wanted),
            all_fit(edit_views(edits@), s),
        decreases found@.len() - k,
    {
        assert(at[k as int] == found@[k as int] as int);
        proof {
            assert(occurs_at(s, utf8(gone@), at[k as int]));
            lemma_occurrence_cut(content@, gone@, at[k as int]);
        }
        let from = found[k];
        let mut held = false;
        let mut j: usize = 0;
        while j < blocks.len()
            invariant
                j <= blocks@.len(),
                all == spans(blocks@),
                from + width <= total,
                held == exists|i: int|
                    0 <= i < j && (#[trigger] all[i]).0 <= from && from + width <= all[i].1,
            decreases blocks@.len() - j,
        {
            assert(all[j as int] == span(blocks@[j as int]));
            if blocks[j].0 <= from && from + width <= blocks[j].1 {
                held = true;
            }
            j += 1;
        }
        assert(held == within(all, from as int, width as int));
        let ghost so_far = edits@;
        if held {
            edits.push(SexpEdit::replace(from, from + width, new.to_owned()));
            proof {
                let before = inside(at, k as int, all, width as int);
                assert(edit_views(edits@) =~= edit_views(so_far).push(wanted(from as int)));
                assert(before.push(at[k as int]).map_values(wanted) =~= before.map_values(
                    wanted,
                ).push(wanted(at[k as int])));
            }
        }
        k += 1;
    }
    edits
}

/// Renames the designator in the instances path of every unit of a component
/// that already bears its new name, and counts how often.
///
/// KiCad reads the designator for its netlist from the instances path, and
/// each unit is placed with a path of its own.
pub fn rewrite_instance_references(content: &str, old_ref: &str, new_ref: &str) -> (r: Result<
    (String, usize),
    String,
>)
    ensures
        match r {
            Ok((out, count)) => path_renamed(utf8(content@), old_ref@, new_ref@) == Ok::<
                (Seq<u8>, int),
                Seq<char>,
            >((utf8(out@), count as int)),
            Err(m) => path_renamed(utf8(content@), old_ref@, new_ref@) == Err::<
                (Seq<u8>, int),
                Seq<char>,
            >(m@),
        },
{
    let blocks = find_all_symbol_instance_blocks(content, new_ref);
    if blocks.len() == 0 {
        assert(spans(blocks@).len() == 0);
        return Err(join3("symbol '", old_ref, "' not found after the rename"));
    }
    assert(spans(blocks@).len() > 0);
    let search = join3("(reference \"", old_ref, "\")");
    let replacement = join3("(reference \"", new_ref, "\")");
    proof {
        lemma_path_reference(old_ref@);
    }
    let edits = collect_entry_edits(content, &blocks, search.as_str(), replacement.as_str());
    let count = edits.len();
    assert(edit_views(edits@).len() == count);
    if count == 0 {
        return Err(
            join5(
                "'",
                new_ref,
                "' has no (reference \"",
                old_ref,
                "\") in its instances path — the property was renamed but the netlist still reads the old designator",
            ),
        );
    }
    Ok((apply_edits(content, edits), count))
}

} // verus!
