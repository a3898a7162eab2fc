//! Swapping a placed component for another symbol.

use vstd::prelude::*;
use vstd::string::StringExecFns;
use crate::args::ToolError;
use crate::edit::{all_fit, apply_edits, edit_views, edited, Edit, SexpEdit};
use crate::library::{
    definition_added, embeds, ensure_lib_symbol_in_schematic, law_embedded_once,
    lib_symbol_not_found_error, library_of, not_found_message, with_section,
};
use crate::numeral::{decimal, decimal_text};
use crate::properties::{lemma_instance_block, lemma_within};
use crate::scan::block_end;
use crate::symbols::{block_text, find_symbol_instance_block, instance_block, lemma_block_cut};
use crate::text::{
    byte_len, chars, find_from, first_at, join3, lemma_first_at, lemma_occurrence_cut,
    lemma_one_byte, occurs, occurs_at, splice, spliced, substr, texts, utf8,
};

verus! {

// ── Units ────────────────────────────────────────────────────────────────────

/// What to say of a unit that the symbol does not have.
pub open spec fn invalid_unit(unit: nat, lib_id: Seq<char>, count: nat) -> Seq<char> {
    "Invalid unit "@ + decimal(unit) + " for '"@ + lib_id + "': the symbol has "@ + decimal(count)
        + " unit(s) (valid: 1..="@ + decimal(count) + ")."@
}

/// The unit is one that the symbol has, or the refusal that says how many it has.
pub fn check_unit(unit: u32, lib_id: &str, count: u32) -> (r: Result<(), ToolError>)
    ensures
        match r {
            Ok(_) => 1 <= unit <= count,
            Err(e) => !(1 <= unit <= count) && e.kind is None && e.message@ == invalid_unit(
                unit as nat,
                lib_id@,
                count as nat,
            ),
        },
{
    if unit >= 1 && unit <= count {
        return Ok(());
    }
    let asked = decimal_text(unit as u64);
    let has = decimal_text(count as u64);
    let mut message = String::new();
    message.append("Invalid unit ");
    message.append(asked.as_str());
    message.append(" for '");
    message.append(lib_id);
    message.append("': the symbol has ");
    message.append(has.as_str());
    message.append(" unit(s) (valid: 1..=");
    message.append(has.as_str());
    message.append(").");
    assert(message@ =~= invalid_unit(unit as nat, lib_id@, count as nat));
    Err(ToolError::plain(message))
}

/// The ranges of a block, from `from` on, that hold unit numbers.
pub open spec fn unit_ranges(block: Seq<u8>, from: int) -> Seq<(int, int)>
    decreases block.len() - from + 1,
{
    if from < 0 {
        Seq::empty()
    } else {
        match first_at(block, utf8("(unit "@), from) {
            Some(p) => match first_at(block, utf8(")"@), p + 6) {
                Some(c) => {
                    proof {
                        lemma_first_at(block, utf8("(unit "@), from);
                        lemma_first_at(block, utf8(")"@), p + 6);
                    }
                    seq![(p + 6, c)] + unit_ranges(block, c)
                },
                None => Seq::empty(),
            },
            None => Seq::empty(),
        }
    }
}

/// The edits that set every unit number of a block.
pub open spec fn unit_edits(s: Seq<u8>, b: (int, int), unit: nat) -> Seq<Edit> {
    unit_ranges(s.subrange(b.0, b.1), 0).map_values(
        |r: (int, int)| Edit { start: b.0 + r.0, end: b.0 + r.1, text: utf8(decimal(unit)) },
    )
}

/// The schematic with every unit number of a placed symbol set: its own, and
/// that in its instances path.
pub open spec fn unit_set(s: Seq<u8>, reference: Seq<char>, unit: nat) -> Seq<u8> {
    match instance_block(s, reference) {
        Some(b) => edited(s, unit_edits(s, b, unit)),
        None => s,
    }
}

fn find_unit_edits(content: &str, start: usize, end: usize, unit: u32) -> (r: Vec<SexpEdit>)
    requires
        block_end(utf8(content@), start as int) == Some(end as int),
    ensures
        edit_views(r@) == unit_edits(utf8(content@), (start as int, end as int), unit as nat),
        all_fit(edit_views(r@), utf8(content@)),
{
    let ghost s = utf8(content@);
    let total = byte_len(content);
    let block = block_text(content, start, end);
    let ghost b = utf8(block@);
    let number = decimal_text(unit as u64);
    let ghost wanted = unit_edits(s, (start as int, end as int), unit as nat);
    let ghost f = |r: (int, int)|
        Edit { start: start + r.0, end: start + r.1, text: utf8(decimal(unit as nat)) };
    proof {
        lemma_block_cut(content@, start as int, end as int);
        reveal_strlit("(unit ");
        reveal_strlit(")");
        vstd::utf8::is_ascii_chars_encode_utf8("(unit "@);
        lemma_one_byte(")"@);
    }
    let mut edits: Vec<SexpEdit> = Vec::new();
    let mut from: usize = 0;
    let mut more = true;
    assert(unit_edits(s, (start as int, end as int), unit as nat) =~= unit_ranges(b, 0).map_values(
        f,
    ));
    assert(edit_views(edits@) + unit_ranges(b, 0).map_values(f) =~= wanted);
    while more
        invariant
            s == utf8(content@),
            total == s.len(),
            start <= end <= s.len(),
            b == utf8(block@),
            b == s.subrange(start as int, end as int),
            from <= b.len(),
            number@ == decimal(unit as nat),
            utf8("(unit "@).len() == 6,
            "(unit "@.len() == 6,
            "(unit "@[0] == '(',
            "(unit "@.last() == ' ',
            ")"@.len() == 1,
            ")"@[0] == ')',
            utf8(")"@).len() == 1,
            f == (|r: (int, int)|
                Edit { start: start + r.0, end: start + r.1, text: utf8(decimal(unit as nat)) }),
            more ==> edit_views(edits@) + unit_ranges(b, from as int).map_values(f) == wanted,
            !more ==> edit_views(edits@) == wanted,
            all_fit(edit_views(edits@), s),
        decreases b.len() - from + if more { 1int } else { 0int },
    {
        let ghost before = edits@;
        let ghost rest = unit_ranges(b, from as int);
        more = false;
        proof {
            lemma_first_at(b, utf8("(unit "@), from as int);
            assert(rest.len() == 0 ==> edit_views(edits@) + rest.map_values(f) =~= edit_views(
                edits@,
            ));
        }
        if let Some(p) = find_from(block, "(unit ", from) {
            proof {
                lemma_within(s, start as int, end as int, utf8("(unit "@), p as int);
                lemma_occurrence_cut(content@, "(unit "@, start + p);
                lemma_first_at(b, utf8(")"@), p + 6);
            }
            if let Some(c) = find_from(block, ")", p + 6) {
                proof {
                    lemma_within(s, start as int, end as int, utf8(")"@), c as int);
                    lemma_occurrence_cut(content@, ")"@, start + c);
                }
                edits.push(SexpEdit::replace(start + (p + 6), start + c, number.clone()));
                proof {
                    let e = f((p + 6, c as int));
                    assert(rest =~= seq![(p + 6, c as int)] + unit_ranges(b, c as int));
                    assert(edit_views(edits@) =~= edit_views(before).push(e));
                    assert(edit_views(edits@) + unit_ranges(b, c as int).map_values(f)
                        =~= edit_views(before) + rest.map_values(f));
                }
                from = c;
                more = true;
            }
        }
    }
    edits
}

// ── Replacing ────────────────────────────────────────────────────────────────

/// The bytes that name the symbol of a placed component, or why there are none.
pub open spec fn lib_id_range(s: Seq<u8>, reference: Seq<char>) -> Result<(int, int), Seq<char>> {
    match instance_block(s, reference) {
        Some(b) => match first_at(s.subrange(b.0, b.1), utf8("(lib_id \""@), 0) {
            Some(o) => match first_at(s, utf8("\""@), b.0 + o + 9) {
                Some(end) => Ok((b.0 + o + 9, end)),
                None => Err("Malformed lib_id"@),
            },
            None => Err("Could not find lib_id in symbol block"@),
        },
        None => Err("Component '"@ + reference + "' not found"@),
    }
}

/// The schematic with the component named after another symbol, and its unit
/// set where one is asked for.
pub open spec fn renamed_symbol(
    s: Seq<u8>,
    reference: Seq<char>,
    range: (int, int),
    new_lib_id: Seq<char>,
    unit: Option<u32>,
) -> Seq<u8> {
    let named = spliced(s, range.0, range.1, utf8(new_lib_id));
    match unit {
        Some(u) => unit_set(named, reference, u as nat),
        None => named,
    }
}

/// What the libraries have of a symbol.
pub struct SymbolLookup {
    /// Its definition, flattened, where there is one.
    pub definition: Option<String>,
    /// How many units it has.
    pub unit_count: u32,
    /// Whether its library is there at all.
    pub library_exists: bool,
    /// Symbols with like names.
    pub suggestions: Vec<String>,
}

/// The schematic with a component replaced and the symbol it had, or why it
/// cannot be: there is no such component, the unit is out of range, or no
/// library has the symbol and the schematic does not embed it.
pub open spec fn replaced(
    s: Seq<u8>,
    reference: Seq<char>,
    new_lib_id: Seq<char>,
    unit: Option<u32>,
    lookup: SymbolLookup,
) -> Result<(Seq<u8>, Seq<u8>), Seq<char>> {
    match lib_id_range(s, reference) {
        Ok(range) => {
            let swapped = renamed_symbol(s, reference, range, new_lib_id, unit);
            let old_lib_id = s.subrange(range.0, range.1);
            if unit matches Some(u) && !(1 <= u <= lookup.unit_count) {
                Err(invalid_unit((unit->0) as nat, new_lib_id, lookup.unit_count as nat))
            } else if embeds(swapped, new_lib_id) {
                Ok((swapped, old_lib_id))
            } else {
                match lookup.definition {
                    Some(def) => Ok(
                        (definition_added(with_section(swapped), utf8(def@)), old_lib_id),
                    ),
                    None => Err(
                        not_found_message(
                            new_lib_id,
                            chars(library_of(utf8(new_lib_id))),
                            lookup.library_exists,
                            texts(lookup.suggestions@),
                        ),
                    ),
                }
            }
        },
        Err(why) => Err(why),
    }
}

fn find_lib_id(content: &str, reference: &str) -> (r: Result<(usize, usize), ToolError>)
    ensures
        match r {
            Ok((a, b)) => {
                &&& lib_id_range(utf8(content@), reference@) == Ok::<(int, int), Seq<char>>(
                    (a as int, b as int),
                )
                &&& a <= b <= utf8(content@).len()
                &&& vstd::utf8::is_char_boundary(utf8(content@), a as int)
                &&& vstd::utf8::is_char_boundary(utf8(content@), b as int)
            },
            Err(e) => e.kind is None && lib_id_range(utf8(content@), reference@) == Err::<
                (int, int),
                Seq<char>,
            >(e.message@),
        },
{
    let ghost s = utf8(content@);
    let total = byte_len(content);
    let (start, end) = match find_symbol_instance_block(content, reference) {
        Some(b) => b,
        None => {
            return Err(ToolError::plain(join3("Component '", reference, "' not found")));
        },
    };
    proof {
        lemma_instance_block(s, reference@);
        reveal_strlit("(lib_id \"");
        reveal_strlit("\"");
        vstd::utf8::is_ascii_chars_encode_utf8("(lib_id \""@);
    }
    let block = block_text(content, start, end);
    proof {
        lemma_first_at(utf8(block@), utf8("(lib_id \""@), 0);
    }
    let rel = match find_from(block, "(lib_id \"", 0) {
        Some(o) => o,
        None => {
            return Err(ToolError::plain("Could not find lib_id in symbol block".to_owned()));
        },
    };
    proof {
        lemma_within(s, start as int, end as int, utf8("(lib_id \""@), rel as int);
        lemma_occurrence_cut(content@, "(lib_id \""@, start + rel);
    }
    let from = start + rel + 9;
    proof {
        lemma_first_at(s, utf8("\""@), from as int);
    }
    match find_from(content, "\"", from) {
        Some(to) => {
            proof {
                lemma_occurrence_cut(content@, "\""@, to as int);
            }
            Ok((from, to))
        },
        None => Err(ToolError::plain("Malformed lib_id".to_owned())),
    }
}

/// Replaces the symbol of a placed component, and its unit where one is asked
/// for. The definition of the new symbol is embedded; where that cannot be,
/// the component would vanish from the netlist, so the request is refused.
pub fn replace_component(
    content: &str,
    reference: &str,
    new_lib_id: &str,
    unit: Option<u32>,
    lookup: &SymbolLookup,
) -> (r: Result<(String, String), ToolError>)
    ensures
        match r {
            Ok((out, old_lib_id)) => replaced(
                utf8(content@),
                reference@,
                new_lib_id@,
                unit,
                *lookup,
            ) == Ok::<(Seq<u8>, Seq<u8>), Seq<char>>((utf8(out@), utf8(old_lib_id@))),
            Err(e) => e.kind is None && replaced(
                utf8(content@),
                reference@,
                new_lib_id@,
                unit,
                *lookup,
            ) == Err::<(Seq<u8>, Seq<u8>), Seq<char>>(e.message@),
        },
{
    let (from, to) = match find_lib_id(content, reference) {
        Ok(range) => range,
        Err(e) => {
            return Err(e);
        },
    };
    let old_lib_id = substr(content, from, to).to_owned();
    let mut out = splice(content, from, to, new_lib_id);
    if let Some(u) = unit {
        if let Err(e) = check_unit(u, new_lib_id, lookup.unit_count) {
            return Err(e);
        }
        if let Some((start, end)) = find_symbol_instance_block(out.as_str(), reference) {
            proof {
                lemma_instance_block(utf8(out@), reference@);
            }
            let edits = find_unit_edits(out.as_str(), start, end, u);
            out = apply_edits(out.as_str(), edits);
        }
    }
    if !ensure_lib_symbol_in_schematic(&mut out, new_lib_id, &lookup.definition) {
        return Err(
            lib_symbol_not_found_error(new_lib_id, lookup.library_exists, &lookup.suggestions),
        );
    }
    Ok((out, old_lib_id))
}

/// A component that was replaced has its definition: the schematic embeds the
/// symbol it is now named after.
pub proof fn law_replaced_is_embedded(
    s: Seq<u8>,
    reference: Seq<char>,
    new_lib_id: Seq<char>,
    unit: Option<u32>,
    lookup: SymbolLookup,
)
    requires
        replaced(s, reference, new_lib_id, unit, lookup) is Ok,
        lib_id_range(s, reference) matches Ok(range) ==> {
            let swapped = renamed_symbol(s, reference, range, new_lib_id, unit);
            occurs(swapped, utf8("(lib_symbols"@)) || occurs(swapped, utf8(")\n"@))
        },
        lookup.definition matches Some(def) ==> occurs_at(
            utf8(def@),
            utf8("(symbol \""@ + new_lib_id + "\""@),
            0,
        ),
        !new_lib_id.contains('\n'),
        !new_lib_id.contains('\r'),
    ensures
        embeds((replaced(s, reference, new_lib_id, unit, lookup)->Ok_0).0, new_lib_id),
{
    let range = lib_id_range(s, reference)->Ok_0;
    let swapped = renamed_symbol(s, reference, range, new_lib_id, unit);
    if !embeds(swapped, new_lib_id) {
        law_embedded_once(swapped, new_lib_id, utf8((lookup.definition->0)@));
    }
}

} // verus!
