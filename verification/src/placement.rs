//! Symbols as a schematic holds them: placing them, finding them, and putting
//! their fields where the library anchors them.

use vstd::prelude::*;
use crate::args::ToolError;
use crate::library::{lib_symbol_not_found_error, library_of, not_found_message};
use crate::node::{head, lemma_trees, lemma_trees_push, same_tree, trees, Sexp, SexpNode};
use crate::num::Num;
use crate::pins::{answers, pins_where, symbol_at, NoPins, PlacedSymbol};
use crate::replace::{check_unit, invalid_unit};
use crate::text::{
    byte_len, bytes_rfind, chars, contains, join3, last_byte_below, lemma_ascii_boundary,
    lemma_chars, lemma_end_boundary, lemma_last_byte_below, occurs, occurs_at, same, starts_with,
    substr, texts, utf8,
};

verus! {

// ── Properties ───────────────────────────────────────────────────────────────

/// A property of a placed symbol: its name, its value, and how it is drawn.
pub struct Property {
    pub name: String,
    pub value: String,
    pub sub_nodes: Vec<SexpNode>,
}

/// A property as a mathematical value.
#[verifier::ext_equal]
pub struct Field {
    pub name: Seq<char>,
    pub value: Seq<char>,
    pub sub_nodes: Seq<Sexp>,
}

impl View for Property {
    type V = Field;

    open spec fn view(&self) -> Field {
        Field { name: self.name@, value: self.value@, sub_nodes: trees(self.sub_nodes@) }
    }
}

/// Properties as mathematical values.
pub open spec fn fields(v: Seq<Property>) -> Seq<Field> {
    v.map_values(|p: Property| p@)
}

/// A place on the sheet: coordinates and rotation, as they are written.
pub struct PlaceText {
    pub x: String,
    pub y: String,
    pub rotation: String,
}

/// A bare word.
pub open spec fn word(s: Seq<char>) -> Sexp {
    Sexp::Atom(utf8(s))
}

/// The `(at …)` list of a place.
pub open spec fn at_list(place: PlaceText) -> Sexp {
    Sexp::List(seq![word("at"@), word(place.x@), word(place.y@), word(place.rotation@)])
}

/// The `(effects …)` list of a field: the default font, and how the text is
/// justified. Centred text is not justified at all.
pub open spec fn effects_list(justify: Seq<Seq<char>>) -> Sexp {
    let font = Sexp::List(
        seq![word("font"@), Sexp::List(seq![word("size"@), word("1.27"@), word("1.27"@)])],
    );
    if justify.len() == 0 {
        Sexp::List(seq![word("effects"@), font])
    } else {
        Sexp::List(
            seq![
                word("effects"@),
                font,
                Sexp::List(
                    seq![word("justify"@)] + justify.map_values(|t: Seq<char>| word(t)),
                ),
            ],
        )
    }
}

/// How a field is drawn: at its place, hidden or not, in the default font.
pub open spec fn drawn(place: PlaceText, hide: bool, justify: Seq<Seq<char>>) -> Seq<Sexp> {
    if hide {
        seq![
            at_list(place),
            Sexp::List(seq![word("hide"@), word("yes"@)]),
            effects_list(justify),
        ]
    } else {
        seq![at_list(place), effects_list(justify)]
    }
}

fn atom(s: &str) -> (r: SexpNode)
    ensures
        r.tree() == word(s@),
{
    SexpNode::Atom(s.to_owned())
}

fn list2(a: SexpNode, b: SexpNode) -> (r: SexpNode)
    ensures
        r.tree() == Sexp::List(seq![a.tree(), b.tree()]),
{
    let v = vec![a, b];
    proof {
        lemma_trees(v@);
        assert(trees(v@) =~= seq![a.tree(), b.tree()]);
    }
    SexpNode::List(v)
}

fn list3(a: SexpNode, b: SexpNode, c: SexpNode) -> (r: SexpNode)
    ensures
        r.tree() == Sexp::List(seq![a.tree(), b.tree(), c.tree()]),
{
    let v = vec![a, b, c];
    proof {
        lemma_trees(v@);
        assert(trees(v@) =~= seq![a.tree(), b.tree(), c.tree()]);
    }
    SexpNode::List(v)
}

fn at_node(place: &PlaceText) -> (r: SexpNode)
    ensures
        r.tree() == at_list(*place),
{
    let v = vec![
        atom("at"),
        atom(place.x.as_str()),
        atom(place.y.as_str()),
        atom(place.rotation.as_str()),
    ];
    proof {
        lemma_trees(v@);
        assert(trees(v@) =~= seq![
            word("at"@),
            word(place.x@),
            word(place.y@),
            word(place.rotation@),
        ]);
    }
    SexpNode::List(v)
}

fn effects_node(justify: &Vec<String>) -> (r: SexpNode)
    ensures
        r.tree() == effects_list(texts(justify@)),
{
    let font = list2(atom("font"), list3(atom("size"), atom("1.27"), atom("1.27")));
    if justify.len() == 0 {
        return list2(atom("effects"), font);
    }
    let ghost all = texts(justify@);
    let mut tokens: Vec<SexpNode> = vec![atom("justify")];
    let mut i: usize = 0;
    proof {
        lemma_trees(tokens@);
        assert(trees(tokens@) =~= seq![word("justify"@)] + all.take(0).map_values(
            |t: Seq<char>| word(t),
        ));
    }
    while i < justify.len()
        invariant
            i <= justify@.len(),
            all == texts(justify@),
            trees(tokens@) == seq![word("justify"@)] + all.take(i as int).map_values(
                |t: Seq<char>| word(t),
            ),
        decreases justify@.len() - i,
    {
        let token = atom(justify[i].as_str());
        proof {
            lemma_trees_push(tokens@, token);
            assert(all.take(i + 1) =~= all.take(i as int).push(justify@[i as int]@));
            assert(seq![word("justify"@)] + all.take(i + 1).map_values(|t: Seq<char>| word(t))
                =~= (seq![word("justify"@)] + all.take(i as int).map_values(
                |t: Seq<char>| word(t),
            )).push(word(justify@[i as int]@)));
        }
        tokens.push(token);
        i += 1;
    }
    assert(all.take(i as int) =~= all);
    list3(atom("effects"), font, SexpNode::List(tokens))
}

/// A field of a placed symbol at a place on the sheet. The place is always
/// written: without one KiCad draws the field at the origin of the sheet.
pub fn positioned_property(
    name: &str,
    value: &str,
    place: &PlaceText,
    hide: bool,
    justify: &Vec<String>,
) -> (r: Property)
    ensures
        r@ == (Field {
            name: name@,
            value: value@,
            sub_nodes: drawn(*place, hide, texts(justify@)),
        }),
{
    let at = at_node(place);
    let effects = effects_node(justify);
    let ghost at_tree = at.tree();
    let ghost effects_tree = effects.tree();
    let sub_nodes = if hide {
        let hidden = list2(atom("hide"), atom("yes"));
        vec![at, hidden, effects]
    } else {
        vec![at, effects]
    };
    proof {
        lemma_trees(sub_nodes@);
        assert(trees(sub_nodes@) =~= drawn(*place, hide, texts(justify@)));
    }
    Property { name: name.to_owned(), value: value.to_owned(), sub_nodes }
}

/// The first list headed `at` among nodes, from index `i` on.
pub open spec fn at_index(nodes: Seq<Sexp>, i: int) -> Option<int>
    decreases nodes.len() - i,
{
    if i >= nodes.len() {
        None
    } else if head(nodes[i]) == Some(utf8("at"@)) {
        Some(i)
    } else {
        at_index(nodes, i + 1)
    }
}

/// A field with its place set: its first `(at …)` replaced, or a new one put first.
pub open spec fn moved_field(f: Field, place: PlaceText) -> Field {
    Field {
        sub_nodes: match at_index(f.sub_nodes, 0) {
            Some(i) => f.sub_nodes.update(i, at_list(place)),
            None => f.sub_nodes.insert(0, at_list(place)),
        },
        ..f
    }
}

/// A field is at a place already.
pub open spec fn is_at(f: Field, place: PlaceText) -> bool {
    at_index(f.sub_nodes, 0) matches Some(i) && f.sub_nodes[i] == at_list(place)
}

pub proof fn lemma_at_index(nodes: Seq<Sexp>, i: int)
    requires
        0 <= i,
    ensures
        match at_index(nodes, i) {
            Some(k) => i <= k < nodes.len() && head(nodes[k]) == Some(utf8("at"@)) && forall|j: int|
                i <= j < k ==> head(#[trigger] nodes[j]) != Some(utf8("at"@)),
            None => forall|j: int|
                i <= j < nodes.len() ==> head(#[trigger] nodes[j]) != Some(utf8("at"@)),
        },
    decreases nodes.len() - i,
{
    if i < nodes.len() && head(nodes[i]) != Some(utf8("at"@)) {
        lemma_at_index(nodes, i + 1);
    }
}

/// Sets the place of a field, and says whether that changed anything.
pub fn set_property_at(prop: &mut Property, place: &PlaceText) -> (r: bool)
    ensures
        r == !is_at(old(prop)@, *place),
        final(prop)@ == moved_field(old(prop)@, *place),
{
    let at = at_node(place);
    let ghost before = prop@;
    proof {
        lemma_trees(prop.sub_nodes@);
    }
    let mut i: usize = 0;
    while i < prop.sub_nodes.len()
        invariant
            i <= prop.sub_nodes@.len(),
            prop@ == before,
            old(prop)@ == before,
            at.tree() == at_list(*place),
            trees(prop.sub_nodes@).len() == prop.sub_nodes@.len(),
            forall|k: int|
                0 <= k < prop.sub_nodes@.len() ==> #[trigger] trees(prop.sub_nodes@)[k]
                    == prop.sub_nodes@[k].tree(),
            at_index(before.sub_nodes, 0) == at_index(before.sub_nodes, i as int),
        decreases prop.sub_nodes@.len() - i,
    {
        assert(before.sub_nodes[i as int] == prop.sub_nodes@[i as int].tree());
        if prop.sub_nodes[i].is_headed("at") {
            if same_tree(&prop.sub_nodes[i], &at) {
                assert(moved_field(before, *place).sub_nodes =~= before.sub_nodes);
                return false;
            }
            prop.sub_nodes[i] = at;
            proof {
                lemma_trees(prop.sub_nodes@);
                assert(trees(prop.sub_nodes@) =~= before.sub_nodes.update(
                    i as int,
                    at_list(*place),
                ));
            }
            return true;
        }
        i += 1;
    }
    prop.sub_nodes.insert(0, at);
    proof {
        lemma_trees(prop.sub_nodes@);
        assert(trees(prop.sub_nodes@) =~= before.sub_nodes.insert(0, at_list(*place)));
    }
    true
}

/// A field that was put at a place is there, and putting it there again
/// changes nothing.
pub proof fn law_move_field_once(f: Field, place: PlaceText)
    ensures
        is_at(moved_field(f, place), place),
        moved_field(moved_field(f, place), place) == moved_field(f, place),
        moved_field(f, place).name == f.name,
        moved_field(f, place).value == f.value,
{
    let nodes = f.sub_nodes;
    let moved = moved_field(f, place).sub_nodes;
    lemma_at_index(nodes, 0);
    lemma_at_index(moved, 0);
    assert(head(at_list(place)) == Some(utf8("at"@)));
    match at_index(nodes, 0) {
        Some(i) => {
            assert(moved[i] == at_list(place));
            assert forall|j: int| 0 <= j < i implies head(#[trigger] moved[j]) != Some(
                utf8("at"@),
            ) by {
                assert(moved[j] == nodes[j]);
            }
        },
        None => {
            assert(moved[0] == at_list(place));
        },
    }
    assert(moved_field(moved_field(f, place), place).sub_nodes =~= moved);
}

// ── Symbols ──────────────────────────────────────────────────────────────────

/// The entry under which KiCad reads a designator.
pub struct InstanceEntry {
    pub project: String,
    pub path: String,
    pub reference: String,
    pub unit: u32,
}

/// A placed symbol.
pub struct Symbol {
    pub lib_id: String,
    pub x: Num,
    pub y: Num,
    pub rotation: Option<Num>,
    pub mirror: Option<String>,
    pub unit: u32,
    pub uuid: String,
    pub properties: Vec<Property>,
    pub instances: Vec<InstanceEntry>,
}

/// The first property of that name, from index `i` on.
pub open spec fn field_index(fs: Seq<Field>, name: Seq<char>, i: int) -> Option<int>
    decreases fs.len() - i,
{
    if i >= fs.len() {
        None
    } else if fs[i].name == name {
        Some(i)
    } else {
        field_index(fs, name, i + 1)
    }
}

/// The value of the first property of that name.
pub open spec fn field_value(fs: Seq<Field>, name: Seq<char>) -> Option<Seq<char>> {
    match field_index(fs, name, 0) {
        Some(i) => Some(fs[i].value),
        None => None,
    }
}

/// What `field_index` finds: the first property of that name.
pub proof fn lemma_field_index(fs: Seq<Field>, name: Seq<char>, i: int)
    requires
        0 <= i,
    ensures
        match field_index(fs, name, i) {
            Some(k) => i <= k < fs.len() && fs[k].name == name && forall|j: int|
                i <= j < k ==> (#[trigger] fs[j]).name != name,
            None => forall|j: int| i <= j < fs.len() ==> (#[trigger] fs[j]).name != name,
        },
    decreases fs.len() - i,
{
    if i < fs.len() && fs[i].name != name {
        lemma_field_index(fs, name, i + 1);
    }
}

fn find_field(properties: &Vec<Property>, name: &str) -> (r: Option<usize>)
    ensures
        match r {
            Some(i) => i < properties@.len() && field_index(fields(properties@), name@, 0) == Some(
                i as int,
            ),
            None => field_index(fields(properties@), name@, 0) is None,
        },
{
    let ghost fs = fields(properties@);
    let mut i: usize = 0;
    while i < properties.len()
        invariant
            i <= properties@.len(),
            fs == fields(properties@),
            field_index(fs, name@, 0) == field_index(fs, name@, i as int),
        decreases properties@.len() - i,
    {
        assert(fs[i as int] == properties@[i as int]@);
        if same(properties[i].name.as_str(), name) {
            return Some(i);
        }
        i += 1;
    }
    None
}

impl Symbol {
    /// The value of a property.
    pub fn field(&self, name: &str) -> (r: Option<&str>)
        ensures
            match r {
                Some(v) => field_value(fields(self.properties@), name@) == Some(v@),
                None => field_value(fields(self.properties@), name@) is None,
            },
    {
        match find_field(&self.properties, name) {
            Some(i) => {
                assert(fields(self.properties@)[i as int] == self.properties@[i as int]@);
                Some(self.properties[i].value.as_str())
            },
            None => None,
        }
    }

    /// The designator of the symbol.
    pub open spec fn designator(&self) -> Option<Seq<char>> {
        field_value(fields(self.properties@), "Reference"@)
    }

    /// The mirroring of the symbol names an axis.
    pub open spec fn mirrored(&self, axis: Seq<char>) -> bool {
        self.mirror matches Some(m) && occurs(utf8(m@), utf8(axis))
    }

    /// Whether the mirroring of the symbol names an axis.
    pub fn mirrors(&self, axis: &str) -> (r: bool)
        ensures
            r == self.mirrored(axis@),
    {
        match &self.mirror {
            Some(m) => contains(m.as_str(), axis),
            None => false,
        }
    }
}

/// The first symbol, from index `i` on, that bears a designator.
pub open spec fn symbol_index(all: Seq<Symbol>, reference: Seq<char>, i: int) -> Option<int>
    decreases all.len() - i,
{
    if i >= all.len() {
        None
    } else if all[i].designator() == Some(reference) {
        Some(i)
    } else {
        symbol_index(all, reference, i + 1)
    }
}

/// The first symbol that bears a designator, or the refusal that names it.
pub fn find_component(symbols: &Vec<Symbol>, reference: &str) -> (r: Result<usize, ToolError>)
    ensures
        match r {
            Ok(i) => i < symbols@.len() && symbol_index(symbols@, reference@, 0) == Some(i as int),
            Err(e) => symbol_index(symbols@, reference@, 0) is None && e.kind is None && e.message@
                == "Component '"@ + reference@ + "' not found"@,
        },
{
    let mut i: usize = 0;
    while i < symbols.len()
        invariant
            i <= symbols@.len(),
            symbol_index(symbols@, reference@, 0) == symbol_index(symbols@, reference@, i as int),
        decreases symbols@.len() - i,
    {
        if let Some(r) = symbols[i].field("Reference") {
            if same(r, reference) {
                return Ok(i);
            }
        }
        i += 1;
    }
    Err(ToolError::plain(join3("Component '", reference, "' not found")))
}

/// The symbols from index `i` on that do not bear a designator, in order.
pub open spec fn others(all: Seq<Symbol>, reference: Seq<char>, i: int) -> Seq<Symbol>
    decreases all.len() - i,
{
    if i >= all.len() {
        Seq::empty()
    } else if all[i].designator() == Some(reference) {
        others(all, reference, i + 1)
    } else {
        seq![all[i]] + others(all, reference, i + 1)
    }
}

proof fn lemma_others(all: Seq<Symbol>, reference: Seq<char>, i: int)
    requires
        0 <= i,
    ensures
        symbol_index(others(all, reference, i), reference, 0) is None,
        symbol_index(all, reference, i) is None ==> others(all, reference, i) == all.skip(
            if i <= all.len() {
                i
            } else {
                all.len() as int
            },
        ),
    decreases all.len() - i,
{
    if i < all.len() {
        lemma_others(all, reference, i + 1);
        let rest = others(all, reference, i + 1);
        if all[i].designator() != Some(reference) {
            lemma_index_behind(rest, all[i], reference, 0);
            assert(all.skip(i) =~= seq![all[i]] + all.skip(i + 1));
        }
    } else {
        assert(all.skip(all.len() as int) =~= Seq::empty());
    }
}

proof fn lemma_index_behind(rest: Seq<Symbol>, first: Symbol, reference: Seq<char>, i: int)
    requires
        0 <= i,
        symbol_index(rest, reference, i) is None,
        first.designator() != Some(reference),
    ensures
        symbol_index(seq![first] + rest, reference, i + 1) is None,
        i == 0 ==> symbol_index(seq![first] + rest, reference, 0) is None,
    decreases rest.len() - i,
{
    let all = seq![first] + rest;
    if i < rest.len() {
        assert(all[i + 1] == rest[i]);
        lemma_index_behind(rest, first, reference, i + 1);
    }
    if i == 0 {
        assert(all[0] == first);
    }
}

/// A deleted component is gone, with all its units, and deleting it from a
/// schematic that does not have it would change nothing.
pub proof fn law_deleted_is_gone(all: Seq<Symbol>, reference: Seq<char>)
    ensures
        symbol_index(others(all, reference, 0), reference, 0) is None,
        symbol_index(all, reference, 0) is None ==> others(all, reference, 0) == all,
{
    lemma_others(all, reference, 0);
    assert(all.skip(0) =~= all);
}

/// Takes every symbol that bears a designator out of a schematic: each unit of
/// a component is placed as a symbol of its own, and one that stayed behind
/// would be an orphan.
pub fn delete_component(symbols: &mut Vec<Symbol>, reference: &str) -> (r: Result<(), ToolError>)
    ensures
        match r {
            Ok(_) => symbol_index(old(symbols)@, reference@, 0) is Some && final(symbols)@
                == others(old(symbols)@, reference@, 0),
            Err(e) => symbol_index(old(symbols)@, reference@, 0) is None && final(symbols)@ == old(
                symbols,
            )@ && e.kind is None && e.message@ == "Component '"@ + reference@
                + "' not found in schematic"@,
        },
{
    if find_component(symbols, reference).is_err() {
        return Err(ToolError::plain(join3("Component '", reference, "' not found in schematic")));
    }
    let ghost all = symbols@;
    let mut i: usize = 0;
    assert(all.skip(0) =~= all);
    while i < symbols.len()
        invariant
            i <= symbols@.len(),
            symbols@.take(i as int) + others(symbols@, reference@, i as int) == others(
                all,
                reference@,
                0,
            ),
        decreases symbols@.len() - i,
    {
        let ghost now = symbols@;
        let borne = match symbols[i].field("Reference") {
            Some(r) => same(r, reference),
            None => false,
        };
        if borne {
            symbols.remove(i);
            proof {
                lemma_others_removed(now, reference@, i as int, i + 1);
                assert(symbols@.take(i as int) =~= now.take(i as int));
            }
        } else {
            proof {
                assert(now.take(i + 1) + others(now, reference@, i + 1) =~= now.take(i as int)
                    + others(now, reference@, i as int));
            }
            i += 1;
        }
    }
    assert(symbols@.take(i as int) + others(symbols@, reference@, i as int) =~= symbols@);
    Ok(())
}

/// Taking out a symbol leaves those behind it.
proof fn lemma_others_removed(all: Seq<Symbol>, reference: Seq<char>, i: int, k: int)
    requires
        0 <= i < k,
        i < all.len(),
    ensures
        others(all.remove(i), reference, k - 1) == others(all, reference, k),
    decreases all.len() - k,
{
    if k < all.len() {
        assert(all.remove(i)[k - 1] == all[k]);
        lemma_others_removed(all, reference, i, k + 1);
    }
}

/// What is reported of a component.
pub struct ComponentReport<'a> {
    pub reference: &'a str,
    pub value: &'a str,
    pub footprint: &'a str,
    pub lib_id: &'a str,
    pub x: Num,
    pub y: Num,
    pub rotation: Num,
    pub mirror_x: bool,
    pub mirror_y: bool,
    pub uuid: &'a str,
    /// Every property of the component, in order.
    pub properties: &'a Vec<Property>,
    /// The symbol among those placed whose pins are the component's, or what
    /// stands in the way of reporting them.
    pub pins: Result<usize, NoPins<'a>>,
}

/// A text, or another where there is none.
pub open spec fn text_or(t: Option<Seq<char>>, other: Seq<char>) -> Seq<char> {
    match t {
        Some(s) => s,
        None => other,
    }
}

/// The report on a component: what it lacks is reported as a question mark,
/// as nothing, or as no rotation. Its pins are those of the symbol that is
/// placed where it stands.
pub fn component_report<'a>(sym: &'a Symbol, placed: &'a Vec<PlacedSymbol>) -> (r:
    ComponentReport<'a>)
    ensures
        r.reference@ == text_or(field_value(fields(sym.properties@), "Reference"@), "?"@),
        r.value@ == text_or(field_value(fields(sym.properties@), "Value"@), ""@),
        r.footprint@ == text_or(field_value(fields(sym.properties@), "Footprint"@), ""@),
        r.lib_id@ == sym.lib_id@,
        r.x == sym.x,
        r.y == sym.y,
        r.rotation == match sym.rotation {
            Some(a) => a,
            None => Num { bits: 0 },
        },
        r.mirror_x == sym.mirrored("x"@),
        r.mirror_y == sym.mirrored("y"@),
        r.uuid@ == sym.uuid@,
        fields(r.properties@) == fields(sym.properties@),
        answers(
            r.pins,
            placed@,
            symbol_at(
                placed@,
                text_or(field_value(fields(sym.properties@), "Reference"@), "?"@),
                sym.x,
                sym.y,
            ),
        ),
{
    let reference = match sym.field("Reference") {
        Some(t) => t,
        None => "?",
    };
    ComponentReport {
        reference,
        value: match sym.field("Value") {
            Some(t) => t,
            None => "",
        },
        footprint: match sym.field("Footprint") {
            Some(t) => t,
            None => "",
        },
        lib_id: sym.lib_id.as_str(),
        x: sym.x,
        y: sym.y,
        rotation: match sym.rotation {
            Some(a) => a,
            None => Num { bits: 0 },
        },
        mirror_x: sym.mirrors("x"),
        mirror_y: sym.mirrors("y"),
        uuid: sym.uuid.as_str(),
        properties: &sym.properties,
        pins: pins_where(placed, reference, sym.x, sym.y),
    }
}

// ── Placing ──────────────────────────────────────────────────────────────────

/// The name a symbol has in its library: what follows the last colon.
pub open spec fn name_of(lib_id: Seq<u8>) -> Seq<u8> {
    match last_byte_below(lib_id, 0x3a, lib_id.len() as int) {
        Some(i) => lib_id.subrange(i + 1, lib_id.len() as int),
        None => lib_id,
    }
}

/// The name a symbol has in its library.
pub fn symbol_base_name(lib_id: &str) -> (r: &str)
    ensures
        utf8(r@) == name_of(utf8(lib_id@)),
{
    let n = byte_len(lib_id);
    proof {
        lemma_last_byte_below(utf8(lib_id@), 0x3a, n as int);
        lemma_end_boundary(lib_id@);
    }
    match bytes_rfind(lib_id.as_bytes(), 0x3a, n) {
        Some(i) => {
            proof {
                lemma_ascii_boundary(lib_id@, i as int);
            }
            substr(lib_id, i + 1, n)
        },
        None => lib_id,
    }
}

/// Where a symbol and its fields go, and how the library justifies these.
pub struct Placement {
    pub x: Num,
    pub y: Num,
    pub rotation: Num,
    pub reference_at: PlaceText,
    pub value_at: PlaceText,
    /// The place of the symbol itself, unrotated, for fields that are hidden.
    pub origin: PlaceText,
    pub reference_justify: Vec<String>,
    pub value_justify: Vec<String>,
}

/// What is to be placed.
pub struct NewComponent {
    pub lib_id: String,
    pub reference: String,
    pub value: Option<String>,
    pub unit: u32,
    pub uuid: String,
    pub project_name: String,
    pub instance_path: String,
}

/// What the libraries and the schematic have of a symbol.
pub struct Definition {
    /// The schematic embeds the definition, if need be since just now.
    pub embedded: bool,
    pub unit_count: u32,
    pub library_exists: bool,
    pub suggestions: Vec<String>,
}

/// The designator of a power symbol is never drawn.
pub open spec fn hides_reference(lib_id: Seq<char>, reference: Seq<char>) -> bool {
    occurs_at(utf8(lib_id), utf8("power:"@), 0) || occurs_at(utf8(reference), utf8("#PWR"@), 0)
}

/// The value of a new component: the one asked for, or the name of its symbol.
pub open spec fn new_value(new: NewComponent) -> Seq<char> {
    match new.value {
        Some(v) => v@,
        None => chars(name_of(utf8(new.lib_id@))),
    }
}

/// The fields of a new component. Reference and Value stand where the library
/// anchors them; Footprint and Datasheet are hidden at the symbol.
pub open spec fn new_fields(new: NewComponent, at: Placement) -> Seq<Field> {
    seq![
        Field {
            name: "Reference"@,
            value: new.reference@,
            sub_nodes: drawn(
                at.reference_at,
                hides_reference(new.lib_id@, new.reference@),
                texts(at.reference_justify@),
            ),
        },
        Field {
            name: "Value"@,
            value: new_value(new),
            sub_nodes: drawn(at.value_at, false, texts(at.value_justify@)),
        },
        Field {
            name: "Footprint"@,
            value: Seq::empty(),
            sub_nodes: drawn(at.origin, true, Seq::empty()),
        },
        Field {
            name: "Datasheet"@,
            value: Seq::empty(),
            sub_nodes: drawn(at.origin, true, Seq::empty()),
        },
    ]
}

/// The symbol is the new component, placed.
pub open spec fn is_placed_as(sym: Symbol, new: NewComponent, at: Placement) -> bool {
    &&& sym.lib_id@ == new.lib_id@
    &&& sym.x == at.x
    &&& sym.y == at.y
    &&& sym.rotation == Some(at.rotation)
    &&& sym.mirror is None
    &&& sym.unit == new.unit
    &&& sym.uuid@ == new.uuid@
    &&& fields(sym.properties@) == new_fields(new, at)
    &&& sym.instances@.len() == 1
    &&& sym.instances@[0].project@ == new.project_name@
    &&& sym.instances@[0].path@ == new.instance_path@
    &&& sym.instances@[0].reference@ == new.reference@
    &&& sym.instances@[0].unit == new.unit
}

/// Places a component: last among the symbols, with its fields at their
/// places and its designator under the instance path. Refused where no
/// definition can be embedded, and where the symbol has no such unit: KiCad
/// would draw the first unit in its place.
pub fn place_one_component(
    symbols: &mut Vec<Symbol>,
    new: &NewComponent,
    at: &Placement,
    def: &Definition,
) -> (r: Result<String, ToolError>)
    ensures
        match r {
            Ok(value) => {
                &&& def.embedded && 1 <= new.unit <= def.unit_count
                &&& value@ == new_value(*new)
                &&& final(symbols)@.len() == old(symbols)@.len() + 1
                &&& final(symbols)@.drop_last() == old(symbols)@
                &&& is_placed_as(final(symbols)@.last(), *new, *at)
            },
            Err(e) => {
                &&& e.kind is None
                &&& final(symbols)@ == old(symbols)@
                &&& if !def.embedded {
                    e.message@ == not_found_message(
                        new.lib_id@,
                        chars(library_of(utf8(new.lib_id@))),
                        def.library_exists,
                        texts(def.suggestions@),
                    )
                } else {
                    &&& !(1 <= new.unit <= def.unit_count)
                    &&& e.message@ == invalid_unit(
                        new.unit as nat,
                        new.lib_id@,
                        def.unit_count as nat,
                    )
                }
            },
        },
{
    if !def.embedded {
        return Err(
            lib_symbol_not_found_error(
                new.lib_id.as_str(),
                def.library_exists,
                &def.suggestions,
            ),
        );
    }
    if let Err(e) = check_unit(new.unit, new.lib_id.as_str(), def.unit_count) {
        return Err(e);
    }
    let value = match &new.value {
        Some(v) => v.clone(),
        None => {
            let base = symbol_base_name(new.lib_id.as_str());
            proof {
                lemma_chars(base@);
            }
            base.to_owned()
        },
    };
    let hide = starts_with(new.lib_id.as_str(), "power:") || starts_with(
        new.reference.as_str(),
        "#PWR",
    );
    let centred: Vec<String> = Vec::new();
    proof {
        reveal_strlit("");
        assert(""@ =~= Seq::empty());
        assert(texts(centred@) =~= Seq::empty());
    }
    let properties = vec![
        positioned_property(
            "Reference",
            new.reference.as_str(),
            &at.reference_at,
            hide,
            &at.reference_justify,
        ),
        positioned_property("Value", value.as_str(), &at.value_at, false, &at.value_justify),
        positioned_property("Footprint", "", &at.origin, true, &centred),
        positioned_property("Datasheet", "", &at.origin, true, &centred),
    ];
    assert(fields(properties@) =~= new_fields(*new, *at));
    let entry = InstanceEntry {
        project: new.project_name.clone(),
        path: new.instance_path.clone(),
        reference: new.reference.clone(),
        unit: new.unit,
    };
    let sym = Symbol {
        lib_id: new.lib_id.clone(),
        x: at.x,
        y: at.y,
        rotation: Some(at.rotation),
        mirror: None,
        unit: new.unit,
        uuid: new.uuid.clone(),
        properties,
        instances: vec![entry],
    };
    symbols.push(sym);
    assert(symbols@.drop_last() =~= old(symbols)@);
    Ok(value)
}

/// A component that was placed is found by its designator, unless one that was
/// there before bears it too; and taking it out again leaves what was there.
pub proof fn law_placed_then_found(
    before: Seq<Symbol>,
    sym: Symbol,
    new: NewComponent,
    at: Placement,
)
    requires
        is_placed_as(sym, new, at),
    ensures
        symbol_index(before.push(sym), new.reference@, 0) == match symbol_index(
            before,
            new.reference@,
            0,
        ) {
            Some(i) => Some(i),
            None => Some(before.len() as int),
        },
        before.push(sym).remove(before.len() as int) == before,
{
    let fs = fields(sym.properties@);
    assert(fs[0].name == "Reference"@);
    assert(field_index(fs, "Reference"@, 0) == Some(0int));
    assert(sym.designator() == Some(new.reference@));
    lemma_index_pushed(before, sym, new.reference@, 0);
    assert(before.push(sym).remove(before.len() as int) =~= before);
}

proof fn lemma_index_pushed(before: Seq<Symbol>, sym: Symbol, reference: Seq<char>, i: int)
    requires
        0 <= i <= before.len(),
        sym.designator() == Some(reference),
    ensures
        symbol_index(before.push(sym), reference, i) == match symbol_index(before, reference, i) {
            Some(k) => Some(k),
            None => Some(before.len() as int),
        },
    decreases before.len() - i,
{
    if i < before.len() {
        assert(before.push(sym)[i] == before[i]);
        lemma_index_pushed(before, sym, reference, i + 1);
    } else {
        assert(before.push(sym)[i] == sym);
    }
}

} // verus!
