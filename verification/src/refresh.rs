//! Refreshing embedded definitions from their libraries.

use vstd::prelude::*;
use vstd::string::StrSliceExecFns;
use crate::edit::{
    all_fit, apply_edits, edit_views, edited, fits, law_untouched_text_stays, Edit, SexpEdit,
};
use crate::library::{indent_lib_symbol, indented, lib_symbol_name, symbol_name};
use crate::node::{
    found_text, head, lemma_trees, parse_sexp, parsed, same_bytes, same_tree, trees, Sexp, SexpNode,
};
use crate::numeral::{node_xy, point, Point, PointText};
use crate::quote::{past_spaces, skip_spaces};
use crate::scan::{
    block_end, direct_children, find_direct_child_blocks, lemma_direct_children,
    lemma_direct_children_apart, span, spans,
};
use crate::symbols::{block_text, lemma_block_cut};
use crate::text::{chars, join5, lemma_chars, lemma_utf8_injective, occurs_at, texts, utf8};

verus! {

// ── Pins ─────────────────────────────────────────────────────────────────────

/// Where a pin of a definition attaches: its number, and its place as written.
pub struct PinAnchor {
    pub number: String,
    pub at: PointText,
}

/// A pin anchor as a mathematical value.
pub struct Anchor {
    pub number: Seq<u8>,
    pub at: Point,
}

impl View for PinAnchor {
    type V = Anchor;

    open spec fn view(&self) -> Anchor {
        Anchor { number: utf8(self.number@), at: self.at@ }
    }
}

/// Pin anchors as mathematical values.
pub open spec fn anchor_views(v: Seq<PinAnchor>) -> Seq<Anchor> {
    v.map_values(|a: PinAnchor| a@)
}

/// The anchor of a pin that has a readable place.
pub open spec fn pin_anchor(pin: Sexp) -> Option<Anchor> {
    match point(pin, utf8("at"@)) {
        Some(at) => Some(
            Anchor {
                number: match found_text(pin, utf8("number"@)) {
                    Some(n) => n,
                    None => utf8("?"@),
                },
                at,
            },
        ),
        None => None,
    }
}

/// The anchors of the pins among the first `n` of `items`, in order.
pub open spec fn own_anchors(items: Seq<Sexp>, n: int) -> Seq<Anchor>
    decreases n,
{
    if n <= 0 {
        Seq::empty()
    } else {
        match pin_anchor(items[n - 1]) {
            Some(a) => if head(items[n - 1]) == Some(utf8("pin"@)) {
                own_anchors(items, n - 1).push(a)
            } else {
                own_anchors(items, n - 1)
            },
            None => own_anchors(items, n - 1),
        }
    }
}

/// Every pin anchor of a definition: its own first, then those of the symbols
/// it holds, the last of these first. Anchors that repeat are kept.
pub open spec fn anchors(def: Sexp) -> Seq<Anchor>
    decreases def, 0int,
{
    match def {
        Sexp::List(items) => own_anchors(items, items.len() as int) + nested_anchors(
            items,
            items.len() as int,
        ),
        _ => Seq::empty(),
    }
}

/// The anchors of the symbols among the first `n` of `items`, the last first.
pub open spec fn nested_anchors(items: Seq<Sexp>, n: int) -> Seq<Anchor>
    decreases items, n,
{
    if n <= 0 || n > items.len() {
        Seq::empty()
    } else if head(items[n - 1]) == Some(utf8("symbol"@)) {
        anchors(items[n - 1]) + nested_anchors(items, n - 1)
    } else {
        nested_anchors(items, n - 1)
    }
}

fn read_pin_anchor(pin: &SexpNode) -> (r: Option<PinAnchor>)
    ensures
        match r {
            Some(a) => pin_anchor(pin.tree()) == Some(a@),
            None => pin_anchor(pin.tree()) is None,
        },
{
    match node_xy(pin, "at") {
        Some(at) => {
            let number = match pin.find_str("number") {
                Some(n) => n.to_owned(),
                None => "?".to_owned(),
            };
            Some(PinAnchor { number, at })
        },
        None => None,
    }
}

fn collect_anchors(def: &SexpNode, out: &mut Vec<PinAnchor>)
    ensures
        anchor_views(final(out)@) == anchor_views(old(out)@) + anchors(def.tree()),
    decreases def,
{
    match def {
        SexpNode::List(items) => {
            let ghost all = trees(items@);
            let ghost at_first = anchor_views(out@);
            proof {
                lemma_trees(items@);
            }
            let mut i: usize = 0;
            assert(at_first + own_anchors(all, 0) =~= at_first);
            while i < items.len()
                invariant
                    i <= items@.len(),
                    all.len() == items@.len(),
                    forall|k: int| 0 <= k < items@.len() ==> #[trigger] all[k] == items@[k].tree(),
                    anchor_views(out@) == at_first + own_anchors(all, i as int),
                decreases items@.len() - i,
            {
                let ghost before = out@;
                assert(all[i as int] == items@[i as int].tree());
                if items[i].is_headed("pin") {
                    if let Some(a) = read_pin_anchor(&items[i]) {
                        out.push(a);
                        assert(anchor_views(out@) =~= anchor_views(before).push(a@));
                        assert(at_first + own_anchors(all, i as int).push(a@) =~= (at_first + own_anchors(
                            all,
                            i as int,
                        )).push(a@));
                    }
                }
                i += 1;
            }
            let ghost own = anchor_views(out@);
            let ghost n = all.len() as int;
            assert(own + nested_anchors(all, n) =~= at_first + anchors(def.tree()));
            while i > 0
                invariant
                    i <= items@.len(),
                    n == items@.len(),
                    all.len() == n,
                    *def == SexpNode::List(*items),
                    forall|k: int| 0 <= k < items@.len() ==> #[trigger] all[k] == items@[k].tree(),
                    anchor_views(out@) + nested_anchors(all, i as int) == own + nested_anchors(all, n),
                decreases i,
            {
                let ghost before = anchor_views(out@);
                i -= 1;
                assert(all[i as int] == items@[i as int].tree());
                if items[i].is_headed("symbol") {
                    assert(decreases_to!(def => def->List_0));
                    collect_anchors(&items[i], out);
                    assert(before + (anchors(all[i as int]) + nested_anchors(all, i as int)) =~= before
                        + anchors(all[i as int]) + nested_anchors(all, i as int));
                }
            }
            assert(anchor_views(out@) + nested_anchors(all, 0) =~= anchor_views(out@));
        },
        _ => {
            assert(anchor_views(out@) + anchors(def.tree()) =~= anchor_views(out@));
        },
    }
}

/// Every pin anchor of a definition, at any depth.
pub fn pin_anchors(def: &SexpNode) -> (r: Vec<PinAnchor>)
    ensures
        anchor_views(r@) == anchors(def.tree()),
{
    let mut out: Vec<PinAnchor> = Vec::new();
    collect_anchors(def, &mut out);
    assert(Seq::<Anchor>::empty() + anchors(def.tree()) =~= anchors(def.tree()));
    out
}

// ── Moved pins ───────────────────────────────────────────────────────────────

/// How the places of pins compare: `near[o][n]` says that pin `o` of the old
/// definition and pin `n` of the new one share a place, and the rest show
/// each place.
pub struct PinPlaces {
    pub near: Vec<Vec<bool>>,
    pub old_shown: Vec<(String, String)>,
    pub new_shown: Vec<(String, String)>,
}

impl PinPlaces {
    /// There is a place for every pin of the two definitions.
    pub open spec fn covers(&self, old_pins: int, new_pins: int) -> bool {
        &&& self.near@.len() == old_pins
        &&& forall|o: int| 0 <= o < old_pins ==> (#[trigger] self.near@[o])@.len() == new_pins
        &&& self.old_shown@.len() == old_pins
        &&& self.new_shown@.len() == new_pins
    }
}

/// The first of the new pins left, from position `i` on, that takes the place
/// of old pin `o`: same number, same place.
pub open spec fn kept_at(
    old_pins: Seq<Anchor>,
    new_pins: Seq<Anchor>,
    places: PinPlaces,
    o: int,
    left: Seq<int>,
    i: int,
) -> Option<int>
    decreases left.len() - i,
{
    if i >= left.len() {
        None
    } else if new_pins[left[i]].number == old_pins[o].number && places.near@[o]@[left[i]] {
        Some(i)
    } else {
        kept_at(old_pins, new_pins, places, o, left, i + 1)
    }
}

/// The first of the new pins left, from position `i` on, with the number of old pin `o`.
pub open spec fn renumbered_at(
    old_pins: Seq<Anchor>,
    new_pins: Seq<Anchor>,
    o: int,
    left: Seq<int>,
    i: int,
) -> Option<int>
    decreases left.len() - i,
{
    if i >= left.len() {
        None
    } else if new_pins[left[i]].number == old_pins[o].number {
        Some(i)
    } else {
        renumbered_at(old_pins, new_pins, o, left, i + 1)
    }
}

/// A place as it is shown.
pub open spec fn shown(p: (String, String)) -> Seq<char> {
    "("@ + p.0@ + ", "@ + p.1@ + ")"@
}

/// Pins compared so far: the new pins still left, by index, and what became
/// of old pins that none of them replaces.
#[verifier::ext_equal]
pub struct Compared {
    pub left: Seq<int>,
    pub moves: Seq<Seq<char>>,
}

/// The first `n` old pins compared with the new ones, each new pin standing
/// for one old pin at most.
pub open spec fn compared(
    old_pins: Seq<Anchor>,
    new_pins: Seq<Anchor>,
    places: PinPlaces,
    n: int,
) -> Compared
    decreases n,
{
    if n <= 0 {
        Compared { left: Seq::new(new_pins.len(), |i: int| i), moves: Seq::empty() }
    } else {
        let before = compared(old_pins, new_pins, places, n - 1);
        let o = n - 1;
        let name = "pin "@ + chars(old_pins[o].number);
        match kept_at(old_pins, new_pins, places, o, before.left, 0) {
            Some(i) => Compared {
                left: before.left.update(i, before.left.last()).drop_last(),
                moves: before.moves,
            },
            None => Compared {
                left: before.left,
                moves: before.moves.push(
                    match renumbered_at(old_pins, new_pins, o, before.left, 0) {
                        Some(i) => name + " moved from "@ + shown(places.old_shown@[o]) + " to "@
                            + shown(places.new_shown@[before.left[i]]),
                        None => name + " at "@ + shown(places.old_shown@[o]) + " was removed"@,
                    },
                ),
            },
        }
    }
}

/// What became of the pins of a definition that another one does not have in
/// their places. New pins are no moves: nothing attaches to a pin that was
/// not there.
pub open spec fn pin_moves(
    old_pins: Seq<Anchor>,
    new_pins: Seq<Anchor>,
    places: PinPlaces,
) -> Seq<Seq<char>> {
    compared(old_pins, new_pins, places, old_pins.len() as int).moves
}

fn show(p: &(String, String)) -> (r: String)
    ensures
        r@ == shown(*p),
{
    join5("(", p.0.as_str(), ", ", p.1.as_str(), ")")
}

/// What became of the pins of one definition in another.
pub fn moved_pin_anchors(
    old_pins: &Vec<PinAnchor>,
    new_pins: &Vec<PinAnchor>,
    places: &PinPlaces,
) -> (r: Vec<String>)
    requires
        places.covers(old_pins@.len() as int, new_pins@.len() as int),
    ensures
        texts(r@) == pin_moves(anchor_views(old_pins@), anchor_views(new_pins@), *places),
{
    let ghost before = anchor_views(old_pins@);
    let ghost after = anchor_views(new_pins@);
    let mut left: Vec<usize> = Vec::new();
    let mut i: usize = 0;
    while i < new_pins.len()
        invariant
            i <= new_pins@.len(),
            left@.len() == i,
            forall|k: int| 0 <= k < i ==> #[trigger] left@[k] == k,
        decreases new_pins@.len() - i,
    {
        left.push(i);
        i += 1;
    }
    let mut moves: Vec<String> = Vec::new();
    let mut o: usize = 0;
    proof {
        assert(left@.map_values(|k: usize| k as int) =~= compared(before, after, *places, 0).left);
        assert(texts(moves@) =~= compared(before, after, *places, 0).moves);
    }
    while o < old_pins.len()
        invariant
            o <= old_pins@.len(),
            before == anchor_views(old_pins@),
            after == anchor_views(new_pins@),
            places.covers(old_pins@.len() as int, new_pins@.len() as int),
            forall|k: int| 0 <= k < left@.len() ==> #[trigger] left@[k] < new_pins@.len(),
            left@.map_values(|k: usize| k as int) == compared(before, after, *places, o as int).left,
            texts(moves@) == compared(before, after, *places, o as int).moves,
        decreases old_pins@.len() - o,
    {
        let ghost now = left@.map_values(|k: usize| k as int);
        let ghost so_far = moves@;
        assert(before[o as int] == old_pins@[o as int]@);
        assert(places.near@[o as int]@.len() == new_pins@.len());
        let mut same_number: Option<usize> = None;
        let mut kept: Option<usize> = None;
        let mut k: usize = 0;
        while k < left.len() && kept.is_none()
            invariant
                k <= left@.len(),
                o < old_pins@.len(),
                before == anchor_views(old_pins@),
                after == anchor_views(new_pins@),
                now == left@.map_values(|k: usize| k as int),
                before[o as int] == old_pins@[o as int]@,
                places.covers(old_pins@.len() as int, new_pins@.len() as int),
                places.near@[o as int]@.len() == new_pins@.len(),
                forall|k: int| 0 <= k < left@.len() ==> #[trigger] left@[k] < new_pins@.len(),
                match kept {
                    Some(p) => p < left@.len() && kept_at(
                        before,
                        after,
                        *places,
                        o as int,
                        now,
                        0,
                    ) == Some(p as int),
                    None => kept_at(before, after, *places, o as int, now, 0) == kept_at(
                        before,
                        after,
                        *places,
                        o as int,
                        now,
                        k as int,
                    ),
                },
                kept is None ==> match same_number {
                    Some(p) => p < left@.len() && renumbered_at(before, after, o as int, now, 0)
                        == Some(p as int),
                    None => renumbered_at(before, after, o as int, now, 0) == renumbered_at(
                        before,
                        after,
                        o as int,
                        now,
                        k as int,
                    ),
                },
            decreases left@.len() - k + if kept is None { 1int } else { 0int },
        {
            let n = left[k];
            assert(now[k as int] == n as int);
            assert(after[n as int] == new_pins@[n as int]@);
            if same_bytes(new_pins[n].number.as_str(), old_pins[o].number.as_str()) {
                if places.near[o][n] {
                    kept = Some(k);
                }
                if same_number.is_none() {
                    same_number = Some(k);
                }
            }
            k += 1;
        }
        match kept {
            Some(p) => {
                let ghost was = left@;
                left.swap_remove(p);
                assert(left@.map_values(|k: usize| k as int) =~= now.update(p as int, now.last()).drop_last());
            },
            None => {
                let from = show(&places.old_shown[o]);
                let number = old_pins[o].number.as_str();
                proof {
                    lemma_chars(number@);
                }
                let note = match same_number {
                    Some(p) => {
                        let to = show(&places.new_shown[left[p]]);
                        assert(now[p as int] == left@[p as int] as int);
                        crate::text::join6(
                            "pin ",
                            number,
                            " moved from ",
                            from.as_str(),
                            " to ",
                            to.as_str(),
                        )
                    },
                    None => join5("pin ", number, " at ", from.as_str(), " was removed"),
                };
                moves.push(note);
                assert(texts(moves@) =~= texts(so_far).push(note@));
            },
        }
        o += 1;
    }
    moves
}

// ── Refreshing ───────────────────────────────────────────────────────────────

/// What came of refreshing one definition.
pub enum ReembedOutcome {
    Updated,
    /// The embedded copy already matches the library.
    Unchanged,
    /// The library no longer has the symbol.
    Unresolved,
    /// The schematic has no copy to replace.
    NotEmbedded,
    /// The library moved or removed pins, so the copy was left alone: wires
    /// and labels attach where pins are. Says what became of each such pin.
    PinsMoved(Vec<String>),
}

/// An outcome as a mathematical value.
pub enum Outcome {
    Updated,
    Unchanged,
    Unresolved,
    NotEmbedded,
    PinsMoved(Seq<Seq<char>>),
}

impl View for ReembedOutcome {
    type V = Outcome;

    open spec fn view(&self) -> Outcome {
        match self {
            ReembedOutcome::Updated => Outcome::Updated,
            ReembedOutcome::Unchanged => Outcome::Unchanged,
            ReembedOutcome::Unresolved => Outcome::Unresolved,
            ReembedOutcome::NotEmbedded => Outcome::NotEmbedded,
            ReembedOutcome::PinsMoved(pins) => Outcome::PinsMoved(texts(pins@)),
        }
    }
}

/// Outcomes as mathematical values.
pub open spec fn outcome_views(v: Seq<ReembedOutcome>) -> Seq<Outcome> {
    v.map_values(|o: ReembedOutcome| o@)
}

/// What a library has for a symbol: its definition, where it has one, and how
/// the places of its pins compare with those of the embedded copy.
pub struct LibraryCopy {
    pub definition: Option<String>,
    pub places: PinPlaces,
}

/// A definition as it replaces an embedded copy, whose own indentation stays.
pub open spec fn fresh_copy(def: Seq<u8>) -> Seq<u8> {
    let text = chars(indented(def));
    utf8(text.subrange(past_spaces(text, 0), text.len() as int))
}

/// The first of the blocks, from index `i` on, that defines a symbol of that name.
pub open spec fn defined_at(s: Seq<u8>, blocks: Seq<(int, int)>, name: Seq<u8>, i: int) -> Option<
    (int, int),
>
    decreases blocks.len() - i,
{
    if i >= blocks.len() {
        None
    } else if symbol_name(s.subrange(blocks[i].0, blocks[i].1)) == Some(name) {
        Some(blocks[i])
    } else {
        defined_at(s, blocks, name, i + 1)
    }
}

/// The embedded copy of a symbol.
pub open spec fn embedded_at(s: Seq<u8>, lib_id: Seq<char>) -> Option<(int, int)> {
    defined_at(s, direct_children(s, utf8("lib_symbols"@)), utf8(lib_id), 0)
}

/// The embedded copy and the library's definition, where both can be read.
pub open spec fn both_read(s: Seq<u8>, lib_id: Seq<char>, copy: LibraryCopy) -> Option<(Sexp, Sexp)> {
    match (embedded_at(s, lib_id), copy.definition) {
        (Some(b), Some(def)) => match (parsed(s.subrange(b.0, b.1)), parsed(fresh_copy(utf8(def@)))) {
            (Some(embedded), Some(library)) => Some((embedded, library)),
            _ => None,
        },
        _ => None,
    }
}

/// The places of pins are known wherever two definitions are compared.
pub open spec fn copy_fits(s: Seq<u8>, lib_id: Seq<char>, copy: LibraryCopy) -> bool {
    both_read(s, lib_id, copy) matches Some((embedded, library)) ==> copy.places.covers(
        anchors(embedded).len() as int,
        anchors(library).len() as int,
    )
}

/// What comes of refreshing one definition. Two that read alike are alike,
/// however they are laid out; pins are compared only where both can be read.
pub open spec fn refreshed(s: Seq<u8>, lib_id: Seq<char>, copy: LibraryCopy, allow: bool) -> Outcome {
    if embedded_at(s, lib_id) is None {
        Outcome::NotEmbedded
    } else if copy.definition is None {
        Outcome::Unresolved
    } else {
        match both_read(s, lib_id, copy) {
            Some((embedded, library)) => {
                let moves = pin_moves(anchors(embedded), anchors(library), copy.places);
                if embedded == library {
                    Outcome::Unchanged
                } else if !allow && moves.len() > 0 {
                    Outcome::PinsMoved(moves)
                } else {
                    Outcome::Updated
                }
            },
            None => Outcome::Updated,
        }
    }
}

/// The edit that refreshes a definition.
pub open spec fn refresh_edit(s: Seq<u8>, lib_id: Seq<char>, copy: LibraryCopy) -> Edit {
    let b = embedded_at(s, lib_id)->0;
    Edit { start: b.0, end: b.1, text: fresh_copy(utf8((copy.definition->0)@)) }
}

/// The outcome for each symbol, in order.
pub open spec fn outcomes(
    s: Seq<u8>,
    lib_ids: Seq<Seq<char>>,
    copies: Seq<LibraryCopy>,
    allow: bool,
) -> Seq<Outcome> {
    Seq::new(lib_ids.len(), |i: int| refreshed(s, lib_ids[i], copies[i], allow))
}

/// The edits for those of the first `n` symbols that are updated.
pub open spec fn refresh_edits(
    s: Seq<u8>,
    lib_ids: Seq<Seq<char>>,
    copies: Seq<LibraryCopy>,
    allow: bool,
    n: int,
) -> Seq<Edit>
    decreases n,
{
    if n <= 0 {
        Seq::empty()
    } else {
        let before = refresh_edits(s, lib_ids, copies, allow, n - 1);
        if refreshed(s, lib_ids[n - 1], copies[n - 1], allow) is Updated {
            before.push(refresh_edit(s, lib_ids[n - 1], copies[n - 1]))
        } else {
            before
        }
    }
}

/// What `defined_at` finds is one of the blocks.
proof fn lemma_defined_at(s: Seq<u8>, blocks: Seq<(int, int)>, name: Seq<u8>, i: int)
    requires
        0 <= i,
    ensures
        defined_at(s, blocks, name, i) matches Some(b) ==> exists|k: int|
            i <= k < blocks.len() && #[trigger] blocks[k] == b,
    decreases blocks.len() - i,
{
    if i < blocks.len() && symbol_name(s.subrange(blocks[i].0, blocks[i].1)) != Some(name) {
        lemma_defined_at(s, blocks, name, i + 1);
    }
}

/// An embedded copy is a block.
pub proof fn lemma_embedded_at(s: Seq<u8>, lib_id: Seq<char>)
    ensures
        embedded_at(s, lib_id) matches Some(b) ==> block_end(s, b.0) == Some(b.1),
{
    lemma_direct_children(s, utf8("lib_symbols"@));
    lemma_defined_at(s, direct_children(s, utf8("lib_symbols"@)), utf8(lib_id), 0);
}

/// A definition as it replaces an embedded copy.
pub fn fresh_definition(def: &str) -> (r: String)
    ensures
        utf8(r@) == fresh_copy(utf8(def@)),
{
    let text = indent_lib_symbol(def);
    proof {
        lemma_chars(text@);
    }
    let i = skip_spaces(text.as_str(), 0);
    let n = text.as_str().unicode_len();
    text.as_str().substring_char(i, n).to_owned()
}

fn find_definition(content: &str, blocks: &Vec<(usize, usize)>, lib_id: &str) -> (r: Option<
    (usize, usize),
>)
    requires
        spans(blocks@) == direct_children(utf8(content@), utf8("lib_symbols"@)),
    ensures
        match r {
            Some(b) => embedded_at(utf8(content@), lib_id@) == Some(span(b)),
            None => embedded_at(utf8(content@), lib_id@) is None,
        },
{
    let ghost s = utf8(content@);
    let ghost all = direct_children(s, utf8("lib_symbols"@));
    proof {
        lemma_direct_children(s, utf8("lib_symbols"@));
    }
    let mut i: usize = 0;
    while i < blocks.len()
        invariant
            i <= blocks@.len(),
            s == utf8(content@),
            all == direct_children(s, utf8("lib_symbols"@)),
            spans(blocks@) == all,
            forall|k: int|
                0 <= k < all.len() ==> block_end(s, (#[trigger] all[k]).0) == Some(all[k].1),
            embedded_at(s, lib_id@) == defined_at(s, all, utf8(lib_id@), i as int),
        decreases blocks@.len() - i,
    {
        assert(all[i as int] == span(blocks@[i as int]));
        let (start, end) = blocks[i];
        if let Some(name) = lib_symbol_name(block_text(content, start, end)) {
            if same_bytes(name, lib_id) {
                return Some((start, end));
            }
        }
        i += 1;
    }
    None
}

/// Whether the schematic embeds a copy of a symbol.
pub fn has_embedded(content: &str, lib_id: &str) -> (r: bool)
    ensures
        r == embedded_at(utf8(content@), lib_id@) is Some,
{
    let blocks = find_direct_child_blocks(content, "lib_symbols");
    find_definition(content, &blocks, lib_id).is_some()
}

/// The embedded copy of a symbol, where there is one that can be read.
pub fn embedded_definition(content: &str, lib_id: &str) -> (r: Option<SexpNode>)
    ensures
        match r {
            Some(n) => embedded_at(utf8(content@), lib_id@) matches Some(b) && parsed(
                utf8(content@).subrange(b.0, b.1),
            ) == Some(n.tree()),
            None => embedded_at(utf8(content@), lib_id@) matches Some(b) ==> parsed(
                utf8(content@).subrange(b.0, b.1),
            ) is None,
        },
{
    let blocks = find_direct_child_blocks(content, "lib_symbols");
    match find_definition(content, &blocks, lib_id) {
        Some((start, end)) => {
            proof {
                lemma_embedded_at(utf8(content@), lib_id@);
            }
            match parse_sexp(block_text(content, start, end)) {
                Ok(n) => Some(n),
                Err(_) => None,
            }
        },
        None => None,
    }
}

fn refresh_one(
    content: &str,
    blocks: &Vec<(usize, usize)>,
    lib_id: &str,
    copy: &LibraryCopy,
    allow_pin_moves: bool,
) -> (r: (ReembedOutcome, Option<SexpEdit>))
    requires
        spans(blocks@) == direct_children(utf8(content@), utf8("lib_symbols"@)),
        copy_fits(utf8(content@), lib_id@, *copy),
    ensures
        r.0@ == refreshed(utf8(content@), lib_id@, *copy, allow_pin_moves),
        match r.1 {
            Some(e) => r.0 is Updated && e@ == refresh_edit(utf8(content@), lib_id@, *copy),
            None => !(r.0 is Updated),
        },
{
    let ghost s = utf8(content@);
    let (start, end) = match find_definition(content, blocks, lib_id) {
        Some(b) => b,
        None => {
            return (ReembedOutcome::NotEmbedded, None);
        },
    };
    let def = match &copy.definition {
        Some(d) => d,
        None => {
            return (ReembedOutcome::Unresolved, None);
        },
    };
    proof {
        lemma_embedded_at(s, lib_id@);
    }
    let fresh = fresh_definition(def.as_str());
    let now = parse_sexp(block_text(content, start, end));
    let newer = parse_sexp(fresh.as_str());
    if let (Ok(embedded), Ok(library)) = (&now, &newer) {
        assert(both_read(s, lib_id@, *copy) == Some((embedded.tree(), library.tree())));
        if same_tree(embedded, library) {
            return (ReembedOutcome::Unchanged, None);
        }
        if !allow_pin_moves {
            let old_pins = pin_anchors(embedded);
            let new_pins = pin_anchors(library);
            let moved = moved_pin_anchors(&old_pins, &new_pins, &copy.places);
            if moved.len() > 0 {
                return (ReembedOutcome::PinsMoved(moved), None);
            }
        }
    }
    (ReembedOutcome::Updated, Some(SexpEdit::replace(start, end, fresh)))
}

/// Replaces the embedded copy of each symbol with what its library has now,
/// and says what came of each. A copy whose pins the library moved or removed
/// is left alone unless moves are allowed.
pub fn reembed_lib_symbols(
    content: &str,
    lib_ids: &Vec<String>,
    allow_pin_moves: bool,
    copies: &Vec<LibraryCopy>,
) -> (r: (String, Vec<ReembedOutcome>))
    requires
        copies@.len() == lib_ids@.len(),
        forall|i: int, j: int|
            0 <= i < j < lib_ids@.len() ==> (#[trigger] lib_ids@[i])@ != (#[trigger] lib_ids@[j])@,
        forall|i: int|
            0 <= i < lib_ids@.len() ==> copy_fits(
                utf8(content@),
                (#[trigger] lib_ids@[i])@,
                copies@[i],
            ),
    ensures
        outcome_views(r.1@) == outcomes(
            utf8(content@),
            texts(lib_ids@),
            copies@,
            allow_pin_moves,
        ),
        utf8(r.0@) == edited(
            utf8(content@),
            refresh_edits(
                utf8(content@),
                texts(lib_ids@),
                copies@,
                allow_pin_moves,
                lib_ids@.len() as int,
            ),
        ),
{
    let ghost s = utf8(content@);
    let ghost ids = texts(lib_ids@);
    let blocks = find_direct_child_blocks(content, "lib_symbols");
    let mut results: Vec<ReembedOutcome> = Vec::new();
    let mut edits: Vec<SexpEdit> = Vec::new();
    let mut i: usize = 0;
    assert(edit_views(edits@) =~= refresh_edits(s, ids, copies@, allow_pin_moves, 0));
    while i < lib_ids.len()
        invariant
            i <= lib_ids@.len(),
            s == utf8(content@),
            ids == texts(lib_ids@),
            copies@.len() == lib_ids@.len(),
            spans(blocks@) == direct_children(s, utf8("lib_symbols"@)),
            forall|i: int|
                0 <= i < lib_ids@.len() ==> copy_fits(s, (#[trigger] lib_ids@[i])@, copies@[i]),
            results@.len() == i,
            forall|k: int|
                0 <= k < i ==> (#[trigger] results@[k])@ == refreshed(
                    s,
                    ids[k],
                    copies@[k],
                    allow_pin_moves,
                ),
            edit_views(edits@) == refresh_edits(s, ids, copies@, allow_pin_moves, i as int),
            all_fit(edit_views(edits@), s),
        decreases lib_ids@.len() - i,
    {
        assert(ids[i as int] == lib_ids@[i as int]@);
        let ghost before = edits@;
        let (outcome, edit) = refresh_one(
            content,
            &blocks,
            lib_ids[i].as_str(),
            &copies[i],
            allow_pin_moves,
        );
        if let Some(e) = edit {
            proof {
                lemma_embedded_at(s, ids[i as int]);
                lemma_block_cut(content@, e@.start, e@.end);
            }
            edits.push(e);
            assert(edit_views(edits@) =~= edit_views(before).push(e@));
        }
        results.push(outcome);
        i += 1;
    }
    assert(outcome_views(results@) =~= outcomes(s, ids, copies@, allow_pin_moves));
    (apply_edits(content, edits), results)
}

/// Where no symbol is updated the schematic stays as it is.
pub proof fn law_no_update_no_change(
    s: Seq<u8>,
    lib_ids: Seq<Seq<char>>,
    copies: Seq<LibraryCopy>,
    allow: bool,
)
    requires
        copies.len() == lib_ids.len(),
        forall|i: int|
            0 <= i < lib_ids.len() ==> !(#[trigger] outcomes(s, lib_ids, copies, allow)[i] is Updated),
    ensures
        edited(s, refresh_edits(s, lib_ids, copies, allow, lib_ids.len() as int)) == s,
{
    lemma_no_refresh_edits(s, lib_ids, copies, allow, lib_ids.len() as int);
    crate::edit::lemma_no_edit(s);
}

proof fn lemma_no_refresh_edits(
    s: Seq<u8>,
    lib_ids: Seq<Seq<char>>,
    copies: Seq<LibraryCopy>,
    allow: bool,
    n: int,
)
    requires
        n <= lib_ids.len(),
        forall|i: int|
            0 <= i < lib_ids.len() ==> !(#[trigger] outcomes(s, lib_ids, copies, allow)[i] is Updated),
    ensures
        refresh_edits(s, lib_ids, copies, allow, n) == Seq::<Edit>::empty(),
    decreases n,
{
    if n > 0 {
        lemma_no_refresh_edits(s, lib_ids, copies, allow, n - 1);
        assert(!(outcomes(s, lib_ids, copies, allow)[n - 1] is Updated));
    }
}

/// A way of assigning new pins to old ones: each keeps its number and its
/// place, and no new pin stands for two.
pub open spec fn pins_kept(
    old_pins: Seq<Anchor>,
    new_pins: Seq<Anchor>,
    places: PinPlaces,
    to: Seq<int>,
) -> bool {
    &&& to.len() == old_pins.len()
    &&& forall|o: int|
        0 <= o < to.len() ==> {
            &&& 0 <= #[trigger] to[o] < new_pins.len()
            &&& new_pins[to[o]].number == old_pins[o].number
            &&& places.near@[o]@[to[o]]
        }
    &&& forall|o: int, p: int| 0 <= o < p < to.len() ==> to[o] != to[p]
}

proof fn lemma_kept_at(
    old_pins: Seq<Anchor>,
    new_pins: Seq<Anchor>,
    places: PinPlaces,
    o: int,
    left: Seq<int>,
    i: int,
)
    requires
        0 <= i,
    ensures
        kept_at(old_pins, new_pins, places, o, left, i) matches Some(k) ==> i <= k < left.len()
            && new_pins[left[k]].number == old_pins[o].number && places.near@[o]@[left[k]],
    decreases left.len() - i,
{
    if i < left.len() && !(new_pins[left[i]].number == old_pins[o].number
        && places.near@[o]@[left[i]]) {
        lemma_kept_at(old_pins, new_pins, places, o, left, i + 1);
    }
}

/// Moves only accumulate.
proof fn lemma_moves_grow(
    old_pins: Seq<Anchor>,
    new_pins: Seq<Anchor>,
    places: PinPlaces,
    k: int,
    n: int,
)
    requires
        0 <= k <= n,
    ensures
        compared(old_pins, new_pins, places, k).moves.len() <= compared(
            old_pins,
            new_pins,
            places,
            n,
        ).moves.len(),
    decreases n - k,
{
    if k < n {
        lemma_moves_grow(old_pins, new_pins, places, k, n - 1);
    }
}

/// While nothing moved, the pins compared so far are assigned, and the new
/// pins left are none of those assigned.
proof fn lemma_compared_keeps(
    old_pins: Seq<Anchor>,
    new_pins: Seq<Anchor>,
    places: PinPlaces,
    n: int,
) -> (to: Seq<int>)
    requires
        0 <= n <= old_pins.len(),
        compared(old_pins, new_pins, places, n).moves.len() == 0,
    ensures
        pins_kept(old_pins.take(n), new_pins, places, to),
        ({
            let left = compared(old_pins, new_pins, places, n).left;
            &&& forall|i: int| 0 <= i < left.len() ==> 0 <= #[trigger] left[i] < new_pins.len()
            &&& forall|i: int, j: int| 0 <= i < j < left.len() ==> left[i] != left[j]
            &&& forall|i: int, o: int|
                0 <= i < left.len() && 0 <= o < to.len() ==> #[trigger] left[i] != #[trigger] to[o]
        }),
    decreases n,
{
    if n == 0 {
        Seq::empty()
    } else {
        lemma_moves_grow(old_pins, new_pins, places, n - 1, n);
        let before = lemma_compared_keeps(old_pins, new_pins, places, n - 1);
        let o = n - 1;
        let left = compared(old_pins, new_pins, places, n - 1).left;
        let now = compared(old_pins, new_pins, places, n).left;
        lemma_kept_at(old_pins, new_pins, places, o, left, 0);
        let i = kept_at(old_pins, new_pins, places, o, left, 0)->0;
        let to = before.push(left[i]);
        assert(now == left.update(i, left.last()).drop_last());
        assert forall|k: int| 0 <= k < now.len() implies 0 <= #[trigger] now[k] < new_pins.len()
            && now[k] != left[i] by {
            if k == i {
                assert(now[k] == left[left.len() - 1]);
            } else {
                assert(now[k] == left[k]);
            }
        }
        assert forall|k: int, o: int| 0 <= k < now.len() && 0 <= o < to.len() implies #[trigger] now[k]
            != #[trigger] to[o] by {
            if o < before.len() {
                assert(to[o] == before[o]);
                if k == i {
                    assert(left[left.len() - 1] != before[o]);
                } else {
                    assert(left[k] != before[o]);
                }
            }
        }
        assert forall|p: int| 0 <= p < to.len() implies {
            &&& 0 <= #[trigger] to[p] < new_pins.len()
            &&& new_pins[to[p]].number == old_pins.take(n)[p].number
            &&& places.near@[p]@[to[p]]
        } by {
            if p < before.len() {
                assert(to[p] == before[p]);
                assert(old_pins.take(n - 1)[p] == old_pins[p]);
            }
        }
        assert forall|p: int, q: int| 0 <= p < q < to.len() implies to[p] != to[q] by {
            assert(to[p] == before[p]);
            if q < before.len() {
                assert(to[q] == before[q]);
            } else {
                assert(left[i] != before[p]);
            }
        }
        to
    }
}

/// A definition whose pins are reported as unmoved keeps them all: every old
/// pin has a new one of its own with its number and in its place, so that
/// what is attached to it stays attached.
pub proof fn law_no_moves_keeps_pins(
    old_pins: Seq<Anchor>,
    new_pins: Seq<Anchor>,
    places: PinPlaces,
)
    requires
        places.covers(old_pins.len() as int, new_pins.len() as int),
        pin_moves(old_pins, new_pins, places).len() == 0,
    ensures
        exists|to: Seq<int>| pins_kept(old_pins, new_pins, places, to),
{
    let to = lemma_compared_keeps(old_pins, new_pins, places, old_pins.len() as int);
    assert(old_pins.take(old_pins.len() as int) =~= old_pins);
    assert(pins_kept(old_pins, new_pins, places, to));
}

/// Without leave to move pins, a copy that can be read is updated only where
/// every pin of it stays.
pub proof fn law_update_keeps_pins(s: Seq<u8>, lib_id: Seq<char>, copy: LibraryCopy)
    requires
        copy_fits(s, lib_id, copy),
        refreshed(s, lib_id, copy, false) is Updated,
        both_read(s, lib_id, copy) is Some,
    ensures
        both_read(s, lib_id, copy) matches Some((embedded, library)) && exists|to: Seq<int>|
            pins_kept(anchors(embedded), anchors(library), copy.places, to),
{
    let (embedded, library) = both_read(s, lib_id, copy)->0;
    law_no_moves_keeps_pins(anchors(embedded), anchors(library), copy.places);
}

/// A text can be read and defines a symbol of that name.
pub open spec fn defines(def: Seq<u8>, lib_id: Seq<char>) -> bool {
    &&& parsed(def) is Some
    &&& symbol_name(def) == Some(utf8(lib_id))
}

/// What `defined_at` finds is the first block of that name.
pub proof fn lemma_defined_index(s: Seq<u8>, blocks: Seq<(int, int)>, name: Seq<u8>, i: int) -> (k: int)
    requires
        0 <= i,
        defined_at(s, blocks, name, i) is Some,
    ensures
        i <= k < blocks.len(),
        blocks[k] == defined_at(s, blocks, name, i)->0,
        forall|j: int|
            i <= j < k ==> symbol_name(
                s.subrange((#[trigger] blocks[j]).0, blocks[j].1),
            ) != Some(name),
    decreases blocks.len() - i,
{
    if symbol_name(s.subrange(blocks[i].0, blocks[i].1)) == Some(name) {
        i
    } else {
        lemma_defined_index(s, blocks, name, i + 1)
    }
}

/// The edit refreshes one of the first `n` symbols, one that is updated.
pub open spec fn refreshes(
    s: Seq<u8>,
    lib_ids: Seq<Seq<char>>,
    copies: Seq<LibraryCopy>,
    allow: bool,
    n: int,
    e: Edit,
) -> bool {
    exists|i: int|
        #![trigger lib_ids[i]]
        0 <= i < n && refreshed(s, lib_ids[i], copies[i], allow) is Updated && e == refresh_edit(
            s,
            lib_ids[i],
            copies[i],
        )
}

pub proof fn lemma_refresh_edits(
    s: Seq<u8>,
    lib_ids: Seq<Seq<char>>,
    copies: Seq<LibraryCopy>,
    allow: bool,
    n: int,
)
    requires
        n <= lib_ids.len(),
    ensures
        forall|k: int|
            0 <= k < refresh_edits(s, lib_ids, copies, allow, n).len() ==> refreshes(
                s,
                lib_ids,
                copies,
                allow,
                n,
                #[trigger] refresh_edits(s, lib_ids, copies, allow, n)[k],
            ),
    decreases n,
{
    if n > 0 {
        lemma_refresh_edits(s, lib_ids, copies, allow, n - 1);
        let before = refresh_edits(s, lib_ids, copies, allow, n - 1);
        let now = refresh_edits(s, lib_ids, copies, allow, n);
        assert forall|k: int| 0 <= k < now.len() implies refreshes(
            s,
            lib_ids,
            copies,
            allow,
            n,
            #[trigger] now[k],
        ) by {
            if k < before.len() {
                assert(now[k] == before[k]);
                assert(refreshes(s, lib_ids, copies, allow, n - 1, before[k]));
            } else {
                assert(lib_ids[n - 1] == lib_ids[n - 1]);
            }
        }
    }
}

/// A copy that is not updated, because its pins would move or for any other
/// reason, stands in the schematic byte for byte as it was, whatever becomes
/// of the others.
pub proof fn law_refused_copy_stays(
    content: Seq<char>,
    lib_ids: Seq<Seq<char>>,
    copies: Seq<LibraryCopy>,
    allow: bool,
    k: int,
)
    requires
        copies.len() == lib_ids.len(),
        forall|i: int, j: int|
            0 <= i < j < lib_ids.len() ==> #[trigger] lib_ids[i] != #[trigger] lib_ids[j],
        0 <= k < lib_ids.len(),
        !(outcomes(utf8(content), lib_ids, copies, allow)[k] is Updated),
        embedded_at(utf8(content), lib_ids[k]) is Some,
    ensures
        ({
            let b = embedded_at(utf8(content), lib_ids[k])->0;
            exists|at: int|
                occurs_at(
                    edited(
                        utf8(content),
                        refresh_edits(
                            utf8(content),
                            lib_ids,
                            copies,
                            allow,
                            lib_ids.len() as int,
                        ),
                    ),
                    utf8(content).subrange(b.0, b.1),
                    at,
                )
        }),
{
    let s = utf8(content);
    let tag = utf8("lib_symbols"@);
    let all = direct_children(s, tag);
    let b = embedded_at(s, lib_ids[k])->0;
    let es = refresh_edits(s, lib_ids, copies, allow, lib_ids.len() as int);
    let kept = lemma_defined_index(s, all, utf8(lib_ids[k]), 0);
    lemma_defined_name(s, all, utf8(lib_ids[k]), 0);
    lemma_direct_children(s, tag);
    lemma_direct_children_apart(s, tag);
    lemma_block_cut(content, b.0, b.1);
    lemma_refresh_edits(s, lib_ids, copies, allow, lib_ids.len() as int);
    assert forall|m: int| 0 <= m < es.len() implies {
        &&& fits(#[trigger] es[m], s)
        &&& es[m].end <= b.0 || b.1 <= es[m].start
    } by {
        assert(refreshes(s, lib_ids, copies, allow, lib_ids.len() as int, es[m]));
        let i = choose|i: int|
            #![trigger lib_ids[i]]
            0 <= i < lib_ids.len() && refreshed(s, lib_ids[i], copies[i], allow) is Updated && es[m]
                == refresh_edit(s, lib_ids[i], copies[i]);
        let other = lemma_defined_index(s, all, utf8(lib_ids[i]), 0);
        lemma_defined_name(s, all, utf8(lib_ids[i]), 0);
        lemma_block_cut(content, all[other].0, all[other].1);
        assert(!(refreshed(s, lib_ids[k], copies[k], allow) is Updated));
        assert(i != k);
        if other == kept {
            lemma_utf8_injective(lib_ids[i], lib_ids[k]);
        }
    }
    law_untouched_text_stays(s, es, b.0, b.1);
}

/// What `defined_at` finds has that name.
pub proof fn lemma_defined_name(s: Seq<u8>, blocks: Seq<(int, int)>, name: Seq<u8>, i: int)
    ensures
        defined_at(s, blocks, name, i) matches Some(b) ==> symbol_name(s.subrange(b.0, b.1)) == Some(
            name,
        ),
    decreases blocks.len() - i,
{
    if i < blocks.len() {
        lemma_defined_name(s, blocks, name, i + 1);
    }
}

/// What comes of refreshing a definition: nothing where the schematic embeds no
/// copy, or no library has the symbol any more. A copy that reads as the
/// library's does is unchanged, and any other is updated, unless pins moved
/// and that is not allowed.
pub proof fn law_refresh_outcome(s: Seq<u8>, lib_id: Seq<char>, copy: LibraryCopy, allow: bool)
    ensures
        refreshed(s, lib_id, copy, allow) is NotEmbedded <==> embedded_at(s, lib_id) is None,
        refreshed(s, lib_id, copy, allow) is Unresolved <==> embedded_at(s, lib_id) is Some
            && copy.definition is None,
        refreshed(s, lib_id, copy, allow) is Unchanged <==> (both_read(
            s,
            lib_id,
            copy,
        ) matches Some((embedded, library)) && embedded == library),
        refreshed(s, lib_id, copy, allow) is PinsMoved <==> !allow && (both_read(
            s,
            lib_id,
            copy,
        ) matches Some((embedded, library)) && embedded != library && pin_moves(
            anchors(embedded),
            anchors(library),
            copy.places,
        ).len() > 0),
        refreshed(s, lib_id, copy, true) is Updated <==> embedded_at(s, lib_id) is Some
            && copy.definition is Some && (both_read(s, lib_id, copy) matches Some((x, y)) ==> x != y),
{
}

/// A pin of a new definition takes the place of an old one.
pub open spec fn takes_place(
    old_pins: Seq<Anchor>,
    new_pins: Seq<Anchor>,
    places: PinPlaces,
    o: int,
    k: int,
) -> bool {
    new_pins[k].number == old_pins[o].number && places.near@[o]@[k]
}

/// Where every pin of a definition has one pin of the other in its place, and
/// no two have the same, nothing is reported as moved. Pins that are new are
/// no moves.
pub proof fn law_pins_in_place_are_no_moves(
    old_pins: Seq<Anchor>,
    new_pins: Seq<Anchor>,
    places: PinPlaces,
    to: Seq<int>,
)
    requires
        to.len() == old_pins.len(),
        forall|o: int| 0 <= o < to.len() ==> 0 <= #[trigger] to[o] < new_pins.len(),
        forall|o: int, k: int|
            0 <= o < to.len() && 0 <= k < new_pins.len() ==> (#[trigger] takes_place(
                old_pins,
                new_pins,
                places,
                o,
                k,
            ) <==> k == to[o]),
        forall|o: int, q: int|
            0 <= o < q < to.len() ==> #[trigger] to[o] != #[trigger] to[q],
    ensures
        pin_moves(old_pins, new_pins, places).len() == 0,
{
    lemma_in_place(old_pins, new_pins, places, to, old_pins.len() as int);
}

proof fn lemma_in_place(
    old_pins: Seq<Anchor>,
    new_pins: Seq<Anchor>,
    places: PinPlaces,
    to: Seq<int>,
    n: int,
)
    requires
        0 <= n <= old_pins.len(),
        to.len() == old_pins.len(),
        forall|o: int| 0 <= o < to.len() ==> 0 <= #[trigger] to[o] < new_pins.len(),
        forall|o: int, k: int|
            0 <= o < to.len() && 0 <= k < new_pins.len() ==> (#[trigger] takes_place(
                old_pins,
                new_pins,
                places,
                o,
                k,
            ) <==> k == to[o]),
        forall|o: int, q: int|
            0 <= o < q < to.len() ==> #[trigger] to[o] != #[trigger] to[q],
    ensures
        ({
            let c = compared(old_pins, new_pins, places, n);
            &&& c.moves.len() == 0
            &&& forall|i: int| 0 <= i < c.left.len() ==> 0 <= #[trigger] c.left[i] < new_pins.len()
            &&& forall|o: int| n <= o < to.len() ==> c.left.contains(#[trigger] to[o])
        }),
    decreases n,
{
    let c = compared(old_pins, new_pins, places, n);
    if n == 0 {
        assert forall|o: int| 0 <= o < to.len() implies c.left.contains(#[trigger] to[o]) by {
            assert(c.left[to[o]] == to[o]);
        }
    } else {
        lemma_in_place(old_pins, new_pins, places, to, n - 1);
        let left = compared(old_pins, new_pins, places, n - 1).left;
        let o = n - 1;
        assert(left.contains(to[o]));
        let k = choose|k: int| 0 <= k < left.len() && left[k] == to[o];
        lemma_kept(old_pins, new_pins, places, to, o, left, 0, k);
        let i = kept_at(old_pins, new_pins, places, o, left, 0)->0;
        assert forall|q: int| n <= q < to.len() implies c.left.contains(#[trigger] to[q]) by {
            assert(left.contains(to[q]));
            let m = choose|m: int| 0 <= m < left.len() && left[m] == to[q];
            assert(to[o] != to[q]);
            if m == left.len() - 1 {
                assert(c.left[i] == to[q]);
            } else {
                assert(c.left[m] == to[q]);
            }
        }
        assert forall|m: int| 0 <= m < c.left.len() implies 0 <= #[trigger] c.left[m]
            < new_pins.len() by {
            if m == i {
                assert(c.left[m] == left[left.len() - 1]);
            } else {
                assert(c.left[m] == left[m]);
            }
        }
    }
}

proof fn lemma_kept(
    old_pins: Seq<Anchor>,
    new_pins: Seq<Anchor>,
    places: PinPlaces,
    to: Seq<int>,
    o: int,
    left: Seq<int>,
    i: int,
    k: int,
)
    requires
        0 <= i <= k < left.len(),
        0 <= o < to.len(),
        left[k] == to[o],
        forall|m: int| 0 <= m < left.len() ==> 0 <= #[trigger] left[m] < new_pins.len(),
        forall|p: int|
            0 <= p < new_pins.len() ==> (#[trigger] takes_place(old_pins, new_pins, places, o, p)
                <==> p == to[o]),
    ensures
        kept_at(old_pins, new_pins, places, o, left, i) matches Some(m) && i <= m < left.len()
            && left[m] == to[o],
    decreases k - i,
{
    assert(takes_place(old_pins, new_pins, places, o, left[i]) <==> left[i] == to[o]);
    if left[i] != to[o] {
        lemma_kept(old_pins, new_pins, places, to, o, left, i + 1, k);
    }
}

} // verus!
