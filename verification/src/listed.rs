//! What the lists hold that symbols, pins, sheets and refreshes are reported
//! in, and what arguments, places and the order of texts come to.

use vstd::prelude::*;
use crate::args::{member, number_arg, texts_among, Json};
use crate::components::{item_ids, notes_joined, unit_id, unit_ids};
use crate::graft::unmarked;
use crate::library::{library_of, symbol_name};
use crate::node::{first_headed, found, found_text, head, parsed, Sexp};
use crate::num::Num;
use crate::numeral::is_number;
use crate::pins::{
    agreement, answers, chosen_quarter, defined_below, ends_below, junctions_below, pins_below,
    stub_is, symbol_at, symbol_from, symbol_there, Agreement, NoPins, PinEnd, PinPlace, PinSight,
    PlacedSymbol, StubDirection,
};
use crate::placement::{
    field_value, fields, is_placed_as, lemma_field_index, name_of, others, symbol_index, Field,
    NewComponent, Placement, Symbol,
};
use crate::project::{
    last_component, library_dirs, missing_field, path_from, reached, sheet_path, slashed, stem,
    Cause, DirCandidate, MAX_SHEET_DEPTH, ProjectView, SheetFile, SheetRef,
};
use crate::properties::{placement, two_numerals};
use crate::quote::{is_space, past_spaces, past_word};
use crate::refresh::{defined_at, embedded_at, lemma_defined_index, lemma_defined_name, Outcome};
use crate::region::{count_below, first_bad, number_good, RegionKind};
use crate::reset::precedes;
use crate::scan::direct_children;
use crate::symbols::instance_blocks;
use crate::text::{
    chars, first_at, lemma_byte_absent, lemma_chars, lemma_first_at, lemma_last_byte_below,
    lemma_one_byte, lemma_utf8_add, occurs_at, texts, utf8,
};
use crate::update::{
    first_missing, lib_ids_of, moved_ids, unchanged_ids, update_errors, updated_ids, InstanceRef,
};

verus! {

// ── Arguments ────────────────────────────────────────────────────────────────

/// A member of an object is the value of the first entry with its name; there
/// is none where no entry has it, nor in anything but an object.
pub proof fn law_member_is_the_first(entries: Vec<(String, Json)>, key: Seq<char>, i: int)
    requires
        0 <= i < entries@.len(),
        entries@[i].0@ == key,
        forall|k: int| 0 <= k < i ==> (#[trigger] entries@[k]).0@ != key,
    ensures
        member(Json::Object(entries), key) == Some(entries@[i].1),
{
    lemma_member_from(entries@, key, 0, i);
}

/// What no entry names is no member.
pub proof fn law_no_such_member(entries: Vec<(String, Json)>, key: Seq<char>)
    requires
        forall|k: int| 0 <= k < entries@.len() ==> (#[trigger] entries@[k]).0@ != key,
    ensures
        member(Json::Object(entries), key) is None,
{
    lemma_member_from(entries@, key, 0, entries@.len() as int);
}

proof fn lemma_member_from(entries: Seq<(String, Json)>, key: Seq<char>, from: int, i: int)
    requires
        0 <= from <= i <= entries.len(),
        forall|k: int| from <= k < i ==> (#[trigger] entries[k]).0@ != key,
        i < entries.len() ==> entries[i].0@ == key,
    ensures
        crate::args::member_from(entries, key, from) == if i < entries.len() {
            Some(entries[i].1)
        } else {
            None
        },
    decreases i - from,
{
    if from < i {
        assert(entries[from].0@ != key);
        lemma_member_from(entries, key, from + 1, i);
    }
}

/// The texts of a list are taken in order, and what is not a text is passed over.
pub proof fn law_texts_are_taken_in_order(a: Seq<Json>, b: Seq<Json>)
    ensures
        texts_among(a + b, (a + b).len() as int) == texts_among(a, a.len() as int) + texts_among(
            b,
            b.len() as int,
        ),
        a.len() == 1 ==> (a[0] matches Json::Text(t) ==> texts_among(a, 1) == seq![t@]),
        a.len() == 1 && !(a[0] is Text) ==> texts_among(a, 1).len() == 0,
{
    lemma_texts_joined(a, b, b.len() as int);
    reveal_with_fuel(texts_among, 2);
    if a.len() == 1 {
        if let Json::Text(t) = a[0] {
            assert(Seq::<Seq<char>>::empty().push(t@) =~= seq![t@]);
        }
    }
}

proof fn lemma_texts_first(a: Seq<Json>, b: Seq<Json>, n: int)
    requires
        n <= a.len(),
    ensures
        texts_among(a + b, n) == texts_among(a, n),
    decreases n,
{
    if n > 0 {
        lemma_texts_first(a, b, n - 1);
        assert((a + b)[n - 1] == a[n - 1]);
    }
}

proof fn lemma_texts_joined(a: Seq<Json>, b: Seq<Json>, n: int)
    requires
        0 <= n <= b.len(),
    ensures
        texts_among(a + b, a.len() + n) == texts_among(a, a.len() as int) + texts_among(b, n),
    decreases n,
{
    if n > 0 {
        lemma_texts_joined(a, b, n - 1);
        assert((a + b)[a.len() + n - 1] == b[n - 1]);
        assert(texts_among(a + b, a.len() + n) =~= texts_among(a, a.len() as int) + texts_among(
            b,
            n,
        ));
    } else {
        lemma_texts_first(a, b, a.len() as int);
        assert(texts_among(a, a.len() as int) + texts_among(b, 0) =~= texts_among(
            a,
            a.len() as int,
        ));
    }
}

// ── Pins ─────────────────────────────────────────────────────────────────────

/// The pins of a sheet are those of its symbols, one symbol behind the other:
/// the pins of some symbols and of more are the pins of both, those of one
/// symbol are those of its definition, and one without a definition has none.
pub proof fn law_pins_one_symbol_behind_the_other(a: Seq<PlacedSymbol>, b: Seq<PlacedSymbol>)
    ensures
        pins_below(a + b, (a + b).len() as int) == pins_below(a, a.len() as int) + pins_below(
            b,
            b.len() as int,
        ),
        a.len() == 1 && a[0].definition is None ==> pins_below(a, 1).len() == 0,
        a.len() == 1 ==> (a[0].definition matches Some(def) ==> pins_below(a, 1) == def.pins@),
{
    lemma_pins_joined(a, b, b.len() as int);
    reveal_with_fuel(pins_below, 2);
    if a.len() == 1 {
        if let Some(def) = a[0].definition {
            assert(Seq::<PinPlace>::empty() + def.pins@ =~= def.pins@);
        }
    }
}

proof fn lemma_pins_first(a: Seq<PlacedSymbol>, b: Seq<PlacedSymbol>, n: int)
    requires
        n <= a.len(),
    ensures
        pins_below(a + b, n) == pins_below(a, n),
    decreases n,
{
    if n > 0 {
        lemma_pins_first(a, b, n - 1);
        assert((a + b)[n - 1] == a[n - 1]);
    }
}

proof fn lemma_pins_joined(a: Seq<PlacedSymbol>, b: Seq<PlacedSymbol>, n: int)
    requires
        0 <= n <= b.len(),
    ensures
        pins_below(a + b, a.len() + n) == pins_below(a, a.len() as int) + pins_below(b, n),
    decreases n,
{
    if n > 0 {
        lemma_pins_joined(a, b, n - 1);
        assert((a + b)[a.len() + n - 1] == b[n - 1]);
        assert(pins_below(a + b, a.len() + n) =~= pins_below(a, a.len() as int) + pins_below(b, n));
    } else {
        lemma_pins_first(a, b, a.len() as int);
        assert(pins_below(a, a.len() as int) + pins_below(b, 0) =~= pins_below(a, a.len() as int));
    }
}

/// Where a component's pins connect goes by its units, one behind the other:
/// each pin of a unit with a definition is there with its place, and what
/// bears another designator adds none.
pub proof fn law_ends_one_unit_behind_the_other(
    a: Seq<PlacedSymbol>,
    b: Seq<PlacedSymbol>,
    reference: Seq<char>,
)
    ensures
        ends_below(a + b, reference, (a + b).len() as int) == ends_below(
            a,
            reference,
            a.len() as int,
        ) + ends_below(b, reference, b.len() as int),
        a.len() == 1 && (a[0].reference@ != reference || a[0].definition is None) ==> ends_below(
            a,
            reference,
            1,
        ).len() == 0,
        a.len() == 1 && a[0].reference@ == reference ==> (a[0].definition matches Some(def) ==> {
            &&& ends_below(a, reference, 1).len() == def.pins@.len()
            &&& forall|k: int|
                0 <= k < def.pins@.len() ==> #[trigger] ends_below(a, reference, 1)[k] == (
                    def.pins@[k].x,
                    def.pins@[k].y,
                )
        }),
{
    lemma_ends_joined(a, b, reference, b.len() as int);
    reveal_with_fuel(ends_below, 2);
}

proof fn lemma_ends_first(a: Seq<PlacedSymbol>, b: Seq<PlacedSymbol>, r: Seq<char>, n: int)
    requires
        n <= a.len(),
    ensures
        ends_below(a + b, r, n) == ends_below(a, r, n),
    decreases n,
{
    if n > 0 {
        lemma_ends_first(a, b, r, n - 1);
        assert((a + b)[n - 1] == a[n - 1]);
    }
}

proof fn lemma_ends_joined(a: Seq<PlacedSymbol>, b: Seq<PlacedSymbol>, r: Seq<char>, n: int)
    requires
        0 <= n <= b.len(),
    ensures
        ends_below(a + b, r, a.len() + n) == ends_below(a, r, a.len() as int) + ends_below(
            b,
            r,
            n,
        ),
    decreases n,
{
    if n > 0 {
        lemma_ends_joined(a, b, r, n - 1);
        assert((a + b)[a.len() + n - 1] == b[n - 1]);
        assert(ends_below(a + b, r, a.len() + n) =~= ends_below(a, r, a.len() as int) + ends_below(
            b,
            r,
            n,
        ));
    } else {
        lemma_ends_first(a, b, r, a.len() as int);
        assert(ends_below(a, r, a.len() as int) + ends_below(b, r, 0) =~= ends_below(
            a,
            r,
            a.len() as int,
        ));
    }
}

/// The symbols with pins to report are those that have a definition, in order.
pub proof fn law_symbols_with_definitions(all: Seq<PlacedSymbol>, n: int)
    requires
        0 <= n <= all.len(),
    ensures
        forall|i: int|
            #[trigger] defined_below(all, n).contains(i) <==> 0 <= i < n && all[i].definition
                is Some,
        forall|i: int, j: int|
            0 <= i < j < defined_below(all, n).len() ==> #[trigger] defined_below(all, n)[i]
                < #[trigger] defined_below(all, n)[j],
    decreases n,
{
    if n > 0 {
        law_symbols_with_definitions(all, n - 1);
        let before = defined_below(all, n - 1);
        let now = defined_below(all, n);
        assert forall|i: int| #[trigger] now.contains(i) <==> 0 <= i < n && all[i].definition
            is Some by {
            assert(before.contains(i) <==> 0 <= i < n - 1 && all[i].definition is Some);
            if before.contains(i) {
                let k = choose|k: int| 0 <= k < before.len() && before[k] == i;
                assert(now[k] == i);
            }
            if i == n - 1 && all[i].definition is Some {
                assert(now[before.len() as int] == i);
            }
            if now.contains(i) {
                let k = choose|k: int| 0 <= k < now.len() && now[k] == i;
                if k < before.len() {
                    assert(before[k] == i);
                }
            }
        }
        assert forall|i: int, j: int| 0 <= i < j < now.len() implies #[trigger] now[i]
            < #[trigger] now[j] by {
            assert(now[i] == before[i]);
            assert(before.contains(before[i]));
            if j < before.len() {
                assert(now[j] == before[j]);
            }
        }
    }
}

/// The way that pins at a point lead is that of every pin there, and there is
/// none where no pin is, nor where two of them lead different ways.
pub proof fn law_pins_agree(pins: Seq<PinSight>, n: int)
    requires
        0 <= n <= pins.len(),
    ensures
        agreement(pins, n) is Nothing <==> forall|i: int|
            0 <= i < n ==> !(#[trigger] pins[i]).here,
        agreement(pins, n) matches Agreement::One(d) ==> {
            &&& exists|i: int| 0 <= i < n && (#[trigger] pins[i]).here && pins[i].outward == d
            &&& forall|i: int|
                0 <= i < n && (#[trigger] pins[i]).here ==> pins[i].outward == d
                    || pins[i].outward.equals(d)
        },
        agreement(pins, n) is Disagree <==> exists|i: int, j: int|
            0 <= i < j < n && (#[trigger] pins[i]).here && (#[trigger] pins[j]).here
                && !pins[i].outward.equals(pins[j].outward),
    decreases n,
{
    if n > 0 {
        law_pins_agree(pins, n - 1);
        let last = pins[n - 1];
        match agreement(pins, n - 1) {
            Agreement::Nothing => {
                if last.here {
                    assert(agreement(pins, n) == Agreement::One(last.outward));
                    assert(pins[n - 1].here);
                }
            },
            Agreement::One(d) => {
                let i = choose|i: int|
                    0 <= i < n - 1 && (#[trigger] pins[i]).here && pins[i].outward == d;
                assert(pins[i].here);
                if last.here {
                    if d.equals(last.outward) {
                        assert forall|a: int, b: int|
                            0 <= a < b < n && (#[trigger] pins[a]).here && (
                            #[trigger] pins[b]).here implies pins[a].outward.equals(
                            pins[b].outward,
                        ) by {
                            if b == n - 1 {
                                assert(pins[a].outward == d || pins[a].outward.equals(d));
                            }
                        }
                    } else {
                        assert(pins[n - 1].here);
                    }
                }
            },
            Agreement::Disagree => {
                let (i, j) = choose|i: int, j: int|
                    0 <= i < j < n - 1 && (#[trigger] pins[i]).here && (#[trigger] pins[j]).here
                        && !pins[i].outward.equals(pins[j].outward);
                assert(pins[i].here && pins[j].here);
            },
        }
    }
}

/// A stub that is asked for by name goes that way, whatever way the pin leads.
/// One that is left to the pin goes the way the pin leads, right where that is
/// not known. On the sheet y grows downward.
pub proof fn law_stub_goes_as_asked(d: StubDirection, outward: Option<Num>)
    ensures
        stub_is(d, chosen_quarter("right"@, outward)) ==> d.name@ == "right"@ && d.dx == 1 && d.dy
            == 0 && d.angle == 0,
        stub_is(d, chosen_quarter("up"@, outward)) ==> d.name@ == "up"@ && d.dx == 0 && d.dy == -1
            && d.angle == 90,
        stub_is(d, chosen_quarter("left"@, outward)) ==> d.name@ == "left"@ && d.dx == -1 && d.dy
            == 0 && d.angle == 180,
        stub_is(d, chosen_quarter("down"@, outward)) ==> d.name@ == "down"@ && d.dx == 0 && d.dy
            == 1 && d.angle == 270,
        outward is None && stub_is(d, chosen_quarter("auto"@, outward)) ==> d.name@ == "right"@
            && d.dx == 1 && d.dy == 0 && d.angle == 0,
        forall|a: Num|
            #![trigger chosen_quarter("auto"@, Some(a))]
            stub_is(d, chosen_quarter("auto"@, Some(a))) ==> {
                &&& d.angle == 90 <==> a.equals(Num { bits: 0x4056_8000_0000_0000 })
                &&& d.angle == 180 <==> a.equals(Num { bits: 0x4066_8000_0000_0000 })
                &&& d.angle == 270 <==> a.equals(Num { bits: 0x4070_e000_0000_0000 })
                &&& d.angle == 0 || d.angle == 90 || d.angle == 180 || d.angle == 270
                &&& d.angle == 0 <==> d.dx == 1 && d.dy == 0
                &&& d.angle == 90 <==> d.dx == 0 && d.dy == -1
                &&& d.angle == 180 <==> d.dx == -1 && d.dy == 0
                &&& d.angle == 270 <==> d.dx == 0 && d.dy == 1
            },
{
    reveal_strlit("right");
    reveal_strlit("up");
    reveal_strlit("left");
    reveal_strlit("down");
    reveal_strlit("auto");
    assert("right"@[0] == 'r' && "up"@[0] == 'u' && "left"@[0] == 'l' && "down"@[0] == 'd'
        && "auto"@[0] == 'a');
}

/// A pin inside a wire goes without a junction of its own only where one is
/// there already, or where another end at the same place is given one.
pub proof fn law_no_pin_goes_without(ends: Seq<PinEnd>, near: Seq<Vec<bool>>, i: int)
    requires
        0 <= i < ends.len(),
        ends[i].mid_wire,
        !ends[i].on_junction,
        !junctions_below(ends, near, ends.len() as int).contains(i),
    ensures
        exists|k: int|
            0 <= k < junctions_below(ends, near, ends.len() as int).len()
                && near[i]@[#[trigger] junctions_below(ends, near, ends.len() as int)[k]],
{
    crate::pins::law_junctions(ends, near, ends.len() as int);
    let chosen = junctions_below(ends, near, ends.len() as int);
    assert(ends[i].mid_wire);
    assert(crate::pins::near_chosen(near, chosen, i));
    let k = choose|k: int| 0 <= k < chosen.len() && near[i]@[#[trigger] chosen[k]];
    assert(near[i]@[chosen[k]]);
}

/// The symbol whose pins are asked for is the first with that designator.
pub proof fn law_first_with_the_designator(all: Seq<PlacedSymbol>, reference: Seq<char>, i: int)
    requires
        0 <= i <= all.len(),
        forall|k: int| 0 <= k < i ==> (#[trigger] all[k]).reference@ != reference,
        i < all.len() ==> all[i].reference@ == reference,
    ensures
        symbol_from(all, reference, 0) == if i < all.len() {
            Some(i)
        } else {
            None
        },
{
    lemma_symbol_from(all, reference, 0, i);
}

proof fn lemma_symbol_from(all: Seq<PlacedSymbol>, reference: Seq<char>, from: int, i: int)
    requires
        0 <= from <= i <= all.len(),
        forall|k: int| from <= k < i ==> (#[trigger] all[k]).reference@ != reference,
        i < all.len() ==> all[i].reference@ == reference,
    ensures
        symbol_from(all, reference, from) == if i < all.len() {
            Some(i)
        } else {
            None
        },
    decreases i - from,
{
    if from < i {
        assert(all[from].reference@ != reference);
        lemma_symbol_from(all, reference, from + 1, i);
    }
}

/// A unit that stands at the place is preferred to one that does not; among
/// several the first is taken, and where none stands there the first with the
/// designator is.
pub proof fn law_unit_at_the_place(
    all: Seq<PlacedSymbol>,
    reference: Seq<char>,
    x: Num,
    y: Num,
    i: int,
)
    requires
        0 <= i <= all.len(),
        forall|k: int|
            0 <= k < i ==> (#[trigger] all[k]).reference@ != reference || all[k].x != x || all[k].y
                != y,
        i < all.len() ==> all[i].reference@ == reference && all[i].x == x && all[i].y == y,
    ensures
        symbol_at(all, reference, x, y) == if i < all.len() {
            Some(i)
        } else {
            symbol_from(all, reference, 0)
        },
{
    lemma_symbol_there(all, reference, x, y, 0, i);
}

proof fn lemma_symbol_there(
    all: Seq<PlacedSymbol>,
    reference: Seq<char>,
    x: Num,
    y: Num,
    from: int,
    i: int,
)
    requires
        0 <= from <= i <= all.len(),
        forall|k: int|
            from <= k < i ==> (#[trigger] all[k]).reference@ != reference || all[k].x != x
                || all[k].y != y,
        i < all.len() ==> all[i].reference@ == reference && all[i].x == x && all[i].y == y,
    ensures
        symbol_there(all, reference, x, y, from) == if i < all.len() {
            Some(i)
        } else {
            None
        },
    decreases i - from,
{
    if from < i {
        assert(all[from].reference@ != reference || all[from].x != x || all[from].y != y);
        lemma_symbol_there(all, reference, x, y, from + 1, i);
    }
}

/// The pins of a symbol are reported unless it has no definition, or one
/// without pins that extends another.
pub proof fn law_pins_are_reported(r: Result<usize, NoPins>, all: Seq<PlacedSymbol>, i: int)
    requires
        answers(r, all, Some(i)),
        0 <= i < all.len(),
    ensures
        r is Ok <==> (all[i].definition matches Some(def) && (def.pins@.len() > 0 || def.extends
            is None)),
        r matches Ok(k) ==> k == i,
        r matches Err(NoPins::NotEmbedded(name)) ==> all[i].definition is None && name@
            == all[i].lib_symbol_name@,
        r matches Err(NoPins::Stub(name, parent)) ==> name@ == all[i].lib_symbol_name@ && (
        all[i].definition matches Some(def) && def.pins@.len() == 0 && (
        def.extends matches Some(p) && p@ == parent@)),
        r matches Err(why) ==> !(why is NotFound),
{
}

// ── Components ───────────────────────────────────────────────────────────────

/// The component that is found is the first symbol whose first property
/// named Reference has that value.
pub proof fn law_component_is_the_first(all: Seq<Symbol>, reference: Seq<char>, i: int)
    requires
        0 <= i <= all.len(),
        forall|k: int| 0 <= k < i ==> !bears_designator(#[trigger] all[k], reference),
        i < all.len() ==> bears_designator(all[i], reference),
    ensures
        symbol_index(all, reference, 0) == if i < all.len() {
            Some(i)
        } else {
            None
        },
{
    lemma_symbol_index(all, reference, 0, i);
}

/// The property at index `j` is a symbol's first that is named Reference, and
/// has that value.
pub open spec fn designates(sym: Symbol, reference: Seq<char>, j: int) -> bool {
    &&& 0 <= j < sym.properties@.len()
    &&& sym.properties@[j].name@ == "Reference"@
    &&& sym.properties@[j].value@ == reference
    &&& forall|k: int| 0 <= k < j ==> (#[trigger] sym.properties@[k]).name@ != "Reference"@
}

/// A symbol bears a designator.
pub open spec fn bears_designator(sym: Symbol, reference: Seq<char>) -> bool {
    exists|j: int| #[trigger] designates(sym, reference, j)
}

proof fn lemma_designator(sym: Symbol, reference: Seq<char>)
    ensures
        bears_designator(sym, reference) <==> sym.designator() == Some(reference),
{
    let fs = fields(sym.properties@);
    lemma_field_index(fs, "Reference"@, 0);
    assert(forall|k: int|
        0 <= k < fs.len() ==> (#[trigger] fs[k]).name == sym.properties@[k].name@ && fs[k].value
            == sym.properties@[k].value@);
    if sym.designator() == Some(reference) {
        let j = crate::placement::field_index(fs, "Reference"@, 0)->0;
        assert forall|k: int| 0 <= k < j implies (#[trigger] sym.properties@[k]).name@
            != "Reference"@ by {
            assert(fs[k].name != "Reference"@);
        }
        assert(designates(sym, reference, j));
    }
    if bears_designator(sym, reference) {
        let j = choose|j: int| #[trigger] designates(sym, reference, j);
        assert(fs[j].name == "Reference"@);
        let k = crate::placement::field_index(fs, "Reference"@, 0)->0;
        assert(fs[k].name == sym.properties@[k].name@);
        assert(k == j);
    }
}

proof fn lemma_symbol_index(all: Seq<Symbol>, reference: Seq<char>, from: int, i: int)
    requires
        0 <= from <= i <= all.len(),
        forall|k: int| from <= k < i ==> !bears_designator(#[trigger] all[k], reference),
        i < all.len() ==> bears_designator(all[i], reference),
    ensures
        symbol_index(all, reference, from) == if i < all.len() {
            Some(i)
        } else {
            None
        },
    decreases i - from,
{
    if from < all.len() {
        lemma_designator(all[from], reference);
    }
    if from < i {
        assert(!bears_designator(all[from], reference));
        lemma_symbol_index(all, reference, from + 1, i);
    }
}

/// Deleting a component takes out every symbol that bears its designator and
/// keeps all others, in their order.
pub proof fn law_deletion_keeps_the_others(a: Seq<Symbol>, b: Seq<Symbol>, reference: Seq<char>)
    ensures
        others(a + b, reference, 0) == others(a, reference, 0) + others(b, reference, 0),
        a.len() == 1 && bears_designator(a[0], reference) ==> others(a, reference, 0).len() == 0,
        a.len() == 1 && !bears_designator(a[0], reference) ==> others(a, reference, 0) == a,
{
    lemma_others_joined(a, b, reference, 0);
    reveal_with_fuel(others, 2);
    if a.len() == 1 {
        lemma_designator(a[0], reference);
        assert(seq![a[0]] + Seq::<Symbol>::empty() =~= a);
    }
}

proof fn lemma_others_joined(a: Seq<Symbol>, b: Seq<Symbol>, reference: Seq<char>, i: int)
    requires
        0 <= i <= a.len(),
    ensures
        others(a + b, reference, i) == others(a, reference, i) + others(b, reference, 0),
    decreases a.len() - i,
{
    if i < a.len() {
        lemma_others_joined(a, b, reference, i + 1);
        assert((a + b)[i] == a[i]);
        assert(others(a + b, reference, i) =~= others(a, reference, i) + others(b, reference, 0));
    } else {
        lemma_others_behind(a, b, reference, 0);
        assert(others(a, reference, i) + others(b, reference, 0) =~= others(b, reference, 0));
    }
}

proof fn lemma_others_behind(a: Seq<Symbol>, b: Seq<Symbol>, reference: Seq<char>, i: int)
    requires
        0 <= i <= b.len(),
    ensures
        others(a + b, reference, a.len() + i) == others(b, reference, i),
    decreases b.len() - i,
{
    if i < b.len() {
        lemma_others_behind(a, b, reference, i + 1);
        assert((a + b)[a.len() + i] == b[i]);
    }
}

/// What a symbol shows of a property: its value, the place it is drawn at, and
/// whether it is hidden.
pub open spec fn reads(sym: Symbol, name: Seq<char>, value: Seq<char>) -> bool {
    field_value(fields(sym.properties@), name) == Some(value)
}

/// A component that was placed reads as it was asked for: its designator, its
/// value or else the name of its symbol, and neither footprint nor datasheet.
/// It stands where it was put, unmirrored, as the unit asked for, and its
/// designator is kept under the instance path of the sheet.
pub proof fn law_new_component_reads_as_asked(sym: Symbol, new: NewComponent, at: Placement)
    requires
        is_placed_as(sym, new, at),
    ensures
        reads(sym, "Reference"@, new.reference@),
        new.value matches Some(v) ==> reads(sym, "Value"@, v@),
        new.value is None ==> reads(sym, "Value"@, chars(name_of(utf8(new.lib_id@)))),
        reads(sym, "Footprint"@, Seq::empty()),
        reads(sym, "Datasheet"@, Seq::empty()),
        sym.properties@.len() == 4,
        sym.lib_id@ == new.lib_id@,
        sym.x == at.x,
        sym.y == at.y,
        sym.rotation == Some(at.rotation),
        sym.mirror is None,
        sym.unit == new.unit,
        sym.uuid@ == new.uuid@,
        sym.instances@.len() == 1,
        sym.instances@[0].reference@ == new.reference@,
        sym.instances@[0].path@ == new.instance_path@,
        sym.instances@[0].project@ == new.project_name@,
        sym.instances@[0].unit == new.unit,
{
    let fs = fields(sym.properties@);
    reveal_strlit("Reference");
    reveal_strlit("Value");
    reveal_strlit("Footprint");
    reveal_strlit("Datasheet");
    assert("Reference"@[0] == 'R' && "Value"@[0] == 'V' && "Footprint"@[0] == 'F' && "Datasheet"@[0]
        == 'D');
    assert(fs.len() == 4);
    reveal_with_fuel(crate::placement::field_index, 5);
    assert(fs[0].name == "Reference"@);
    assert(fs[1].name == "Value"@);
    assert(fs[2].name == "Footprint"@);
    assert(fs[3].name == "Datasheet"@);
}

/// The fields of a new component stand at their places. The designator of a
/// power symbol is hidden, as footprint and datasheet are; other designators
/// and every value are not.
pub proof fn law_new_fields_are_drawn(sym: Symbol, new: NewComponent, at: Placement)
    requires
        is_placed_as(sym, new, at),
    ensures
        ({
            let fs = fields(sym.properties@);
            &&& fs.len() == 4
            &&& crate::placement::is_at(fs[0], at.reference_at)
            &&& crate::placement::is_at(fs[1], at.value_at)
            &&& crate::placement::is_at(fs[2], at.origin)
            &&& crate::placement::is_at(fs[3], at.origin)
            &&& is_hidden(fs[0]) <==> occurs_at(utf8(new.lib_id@), utf8("power:"@), 0) || occurs_at(
                utf8(new.reference@),
                utf8("#PWR"@),
                0,
            )
            &&& !is_hidden(fs[1])
            &&& is_hidden(fs[2])
            &&& is_hidden(fs[3])
        }),
{
    let fs = fields(sym.properties@);
    assert(fs.len() == 4);
    lemma_drawn(at.reference_at, texts(at.reference_justify@));
    lemma_drawn(at.value_at, texts(at.value_justify@));
    lemma_drawn(at.origin, Seq::empty());
    assert(fs[0].name == "Reference"@);
    assert(fs[1].name == "Value"@);
    assert(fs[2].name == "Footprint"@);
    assert(fs[3].name == "Datasheet"@);
}

/// The list that hides a field.
pub open spec fn hiding() -> crate::node::Sexp {
    crate::node::Sexp::List(
        seq![crate::node::Sexp::Atom(utf8("hide"@)), crate::node::Sexp::Atom(utf8("yes"@))],
    )
}

/// A field is hidden.
pub open spec fn is_hidden(f: Field) -> bool {
    f.sub_nodes.contains(hiding())
}

proof fn lemma_drawn(place: crate::placement::PlaceText, justify: Seq<Seq<char>>)
    ensures
        crate::placement::drawn(place, true, justify).contains(hiding()),
        !crate::placement::drawn(place, false, justify).contains(hiding()),
        crate::placement::at_index(crate::placement::drawn(place, true, justify), 0) == Some(0int),
        crate::placement::at_index(crate::placement::drawn(place, false, justify), 0) == Some(0int),
        crate::placement::drawn(place, true, justify)[0] == crate::placement::at_list(place),
        crate::placement::drawn(place, false, justify)[0] == crate::placement::at_list(place),
{
    let shown = crate::placement::drawn(place, false, justify);
    let hidden = crate::placement::drawn(place, true, justify);
    reveal_strlit("hide");
    reveal_strlit("at");
    reveal_strlit("effects");
    vstd::utf8::is_ascii_chars_encode_utf8("hide"@);
    vstd::utf8::is_ascii_chars_encode_utf8("at"@);
    vstd::utf8::is_ascii_chars_encode_utf8("effects"@);
    assert(hidden[1] == hiding());
    let h = utf8("hide"@);
    let a = utf8("at"@);
    let e = utf8("effects"@);
    assert(h.len() == 4 && a.len() == 2 && e.len() == 7);
    assert(hiding()->List_0[0] == crate::node::Sexp::Atom(h));
    assert(shown[0]->List_0[0] == crate::node::Sexp::Atom(a));
    assert(shown[1]->List_0[0] == crate::node::Sexp::Atom(e));
    assert(shown[0] != hiding());
    assert(shown[1] != hiding());
}

/// The name a symbol has in its library is what stands behind the last colon:
/// it holds no colon itself.
pub proof fn law_name_behind_the_last_colon(id: Seq<u8>)
    ensures
        forall|k: int| 0 <= k < name_of(id).len() ==> #[trigger] name_of(id)[k] != 0x3a,
        name_of(id) == id || exists|front: Seq<u8>| id == #[trigger] (front + seq![0x3au8]
            + name_of(id)),
{
    lemma_last_byte_below(id, 0x3a, id.len() as int);
    match crate::text::last_byte_below(id, 0x3a, id.len() as int) {
        Some(i) => {
            let front = id.subrange(0, i);
            assert(id =~= front + seq![0x3au8] + name_of(id));
        },
        None => {},
    }
}

// ── Projects ─────────────────────────────────────────────────────────────────

/// The library directories are directories, each named once, and every
/// directory among the candidates is there, where it comes first.
pub proof fn law_every_directory_once(all: Seq<DirCandidate>, n: int)
    requires
        0 <= n <= all.len(),
    ensures
        forall|k: int|
            0 <= k < library_dirs(all, n).len() ==> {
                let i = #[trigger] library_dirs(all, n)[k];
                &&& 0 <= i < n
                &&& all[i].is_dir
                &&& forall|j: int| 0 <= j < i && (#[trigger] all[j]).is_dir ==> all[j].key
                    != all[i].key
            },
        forall|i: int|
            0 <= i < n && (#[trigger] all[i]).is_dir && (forall|j: int|
                0 <= j < i && (#[trigger] all[j]).is_dir ==> all[j].key != all[i].key)
                ==> library_dirs(all, n).contains(i),
        forall|j: int, k: int|
            0 <= j < k < library_dirs(all, n).len() ==> #[trigger] library_dirs(all, n)[j]
                < #[trigger] library_dirs(all, n)[k],
    decreases n,
{
    if n > 0 {
        law_every_directory_once(all, n - 1);
        let before = library_dirs(all, n - 1);
        let now = library_dirs(all, n);
        let last = n - 1;
        lemma_first_directory(all, n - 1);
        let kept = crate::project::key_kept(all, before, all[last].key);
        assert(all[last].is_dir ==> (kept <==> exists|j: int|
            0 <= j < last && (#[trigger] all[j]).is_dir && all[j].key == all[last].key)) by {
            if kept {
                let j = choose|j: int|
                    0 <= j < before.len() && all[#[trigger] before[j]].key == all[last].key;
                assert(all[before[j]].is_dir);
            }
            if exists|j: int|
                0 <= j < last && (#[trigger] all[j]).is_dir && all[j].key == all[last].key {
                let j = choose|j: int|
                    0 <= j < last && (#[trigger] all[j]).is_dir && all[j].key == all[last].key;
                assert(crate::project::key_kept(all, before, all[j].key));
            }
        }
        assert forall|i: int|
            0 <= i < n && (#[trigger] all[i]).is_dir && (forall|j: int|
                0 <= j < i && (#[trigger] all[j]).is_dir ==> all[j].key != all[i].key) implies
            now.contains(i) by {
            if i < last {
                assert(before.contains(i));
                let k = choose|k: int| 0 <= k < before.len() && before[k] == i;
                assert(now[k] == i);
            } else {
                assert(now[before.len() as int] == i);
            }
        }
        assert forall|j: int, k: int| 0 <= j < k < now.len() implies #[trigger] now[j]
            < #[trigger] now[k] by {
            assert(now[j] == before[j]);
            if k < before.len() {
                assert(now[k] == before[k]);
            }
        }
        assert forall|k: int| 0 <= k < now.len() implies {
            let i = #[trigger] now[k];
            &&& 0 <= i < n
            &&& all[i].is_dir
            &&& forall|j: int| 0 <= j < i && (#[trigger] all[j]).is_dir ==> all[j].key
                != all[i].key
        } by {
            if k < before.len() {
                assert(now[k] == before[k]);
            }
        }
    }
}

/// Every directory among the first candidates is kept by its key.
proof fn lemma_first_directory(all: Seq<DirCandidate>, n: int)
    requires
        0 <= n <= all.len(),
    ensures
        forall|j: int|
            0 <= j < n && (#[trigger] all[j]).is_dir ==> crate::project::key_kept(
                all,
                library_dirs(all, n),
                all[j].key,
            ),
    decreases n,
{
    if n > 0 {
        lemma_first_directory(all, n - 1);
        let before = library_dirs(all, n - 1);
        let now = library_dirs(all, n);
        assert forall|j: int| 0 <= j < n && (#[trigger] all[j]).is_dir implies crate::project::key_kept(
            all,
            now,
            all[j].key,
        ) by {
            if crate::project::key_kept(all, before, all[j].key) {
                let k = choose|k: int|
                    0 <= k < before.len() && all[#[trigger] before[k]].key == all[j].key;
                assert(now[k] == before[k]);
                assert(all[now[k]].key == all[j].key);
            } else {
                assert(j == n - 1);
                assert(all[now[before.len() as int]].key == all[j].key);
            }
        }
    }
}

/// The argument that a chain of causes names is that of the first cause that
/// is a missing argument.
pub proof fn law_first_missing_argument(chain: Seq<Cause>, i: int)
    requires
        0 <= i <= chain.len(),
        forall|k: int| 0 <= k < i ==> !((#[trigger] chain[k]) is Missing),
        i < chain.len() ==> chain[i] is Missing,
    ensures
        i == chain.len() ==> missing_field(chain, 0) is None,
        i < chain.len() ==> (chain[i] matches Cause::Missing(m) && missing_field(chain, 0) == Some(
            m.field@,
        )),
{
    lemma_missing_field(chain, 0, i);
}

proof fn lemma_missing_field(chain: Seq<Cause>, from: int, i: int)
    requires
        0 <= from <= i <= chain.len(),
        forall|k: int| from <= k < i ==> !((#[trigger] chain[k]) is Missing),
        i < chain.len() ==> chain[i] is Missing,
    ensures
        i == chain.len() ==> missing_field(chain, from) is None,
        i < chain.len() ==> (chain[i] matches Cause::Missing(m) && missing_field(chain, from)
            == Some(m.field@)),
    decreases i - from,
{
    if from < i {
        assert(!(chain[from] is Missing));
        lemma_missing_field(chain, from + 1, i);
    }
}

/// The stem of a name stands before its last dot: what follows the dot holds
/// none. A name without a dot, or with none but a leading one, is its own stem.
pub proof fn law_stem_before_the_last_dot(name: Seq<u8>)
    ensures
        stem(name) != name ==> stem(name).len() > 0 && exists|rest: Seq<u8>|
            name == #[trigger] (stem(name) + seq![0x2eu8] + rest) && !rest.contains(0x2e),
        stem(name) == name ==> forall|k: int| 0 < k < name.len() ==> #[trigger] name[k] != 0x2e,
{
    lemma_last_byte_below(name, 0x2e, name.len() as int);
    match crate::text::last_byte_below(name, 0x2e, name.len() as int) {
        Some(i) => {
            if i > 0 {
                let rest = name.subrange(i + 1, name.len() as int);
                assert(name =~= stem(name) + seq![0x2eu8] + rest);
                assert(stem(name).len() < name.len());
                assert(!rest.contains(0x2e)) by {
                    if rest.contains(0x2e) {
                        let k = choose|k: int| 0 <= k < rest.len() && rest[k] == 0x2e;
                        assert(name[i + 1 + k] == 0x2e);
                    }
                }
            }
        },
        None => {},
    }
}

/// The last component of a path holds no slash, and stands behind one or is
/// the whole path.
pub proof fn law_component_behind_the_last_slash(path: Seq<u8>)
    ensures
        forall|k: int|
            0 <= k < last_component(path).len() ==> #[trigger] last_component(path)[k] != 0x2f,
        last_component(path) == path || exists|front: Seq<u8>| path == #[trigger] (front
            + seq![0x2fu8] + last_component(path)),
{
    lemma_last_byte_below(path, 0x2f, path.len() as int);
    match crate::text::last_byte_below(path, 0x2f, path.len() as int) {
        Some(i) => {
            let front = path.subrange(0, i);
            assert(path =~= front + seq![0x2fu8] + last_component(path));
        },
        None => {},
    }
}

/// A sheet of the file `from` is the first step of a path to the file looked
/// for: it is that file's sheet, or leads to a file from which the rest of the
/// path does.
pub open spec fn leads_on(files: Seq<SheetFile>, from: int, path: Seq<Seq<char>>) -> bool
    decreases path.len(),
{
    &&& path.len() > 0
    &&& 0 <= from < files.len()
    &&& exists|i: int| #[trigger] steps_on(files[from].sheets@, i, path[0], path.len())
        && (path.len() > 1 ==> (files[from].sheets@[i].child matches Some(c) && leads_on(
        files,
        c as int,
        path.skip(1),
    )))
}

/// A sheet has the uuid, and is that of the file looked for or leads to a file.
pub open spec fn steps_on(sheets: Seq<SheetRef>, i: int, uuid: Seq<char>, left: nat) -> bool {
    &&& 0 <= i < sheets.len()
    &&& sheets[i].uuid@ == uuid
    &&& left == 1 ==> sheets[i].is_target
    &&& left != 1 ==> sheets[i].child is Some
}

/// The path that is found leads, sheet by sheet, to the file looked for.
pub proof fn law_path_leads_to_the_sheet(files: Seq<SheetFile>, from: int, depth: int)
    requires
        sheet_path(files, from, depth) is Some,
    ensures
        leads_on(files, from, sheet_path(files, from, depth)->0),
    decreases MAX_SHEET_DEPTH + 1 - depth, 1int, 0int,
{
    lemma_path_leads(files, from, depth, files[from].sheets@.len() as int);
}

proof fn lemma_path_leads(files: Seq<SheetFile>, from: int, depth: int, n: int)
    requires
        depth <= MAX_SHEET_DEPTH,
        0 <= from < files.len(),
        n <= files[from].sheets@.len(),
        path_from(files, from, depth, n) is Some,
    ensures
        leads_on(files, from, path_from(files, from, depth, n)->0),
    decreases MAX_SHEET_DEPTH + 1 - depth, 0int, n,
{
    let sheets = files[from].sheets@;
    let path = path_from(files, from, depth, n)->0;
    let i = sheets.len() - n;
    if n > 0 {
        let sheet = sheets[i];
        let below = match sheet.child {
            Some(c) => sheet_path(files, c as int, depth + 1),
            None => None,
        };
        if sheet.is_target {
            assert(path =~= seq![sheet.uuid@]);
            assert(steps_on(sheets, i, path[0], 1));
        } else if below is Some {
            let c = sheet.child->0;
            law_path_leads_to_the_sheet(files, c as int, depth + 1);
            assert(path == seq![sheet.uuid@] + below->0);
            assert(path.skip(1) =~= below->0);
            assert((below->0).len() > 0);
            assert(steps_on(sheets, i, path[0], path.len()));
        } else {
            lemma_path_leads(files, from, depth, n - 1);
        }
    }
}

/// A sheet that a path leads to is found, as long as the path is not too long
/// to be followed.
pub proof fn law_sheet_is_reached(
    files: Seq<SheetFile>,
    from: int,
    depth: int,
    path: Seq<Seq<char>>,
)
    requires
        leads_on(files, from, path),
        0 <= depth,
        depth + path.len() <= MAX_SHEET_DEPTH + 1,
    ensures
        sheet_path(files, from, depth) is Some,
    decreases path.len(),
{
    let sheets = files[from].sheets@;
    let i = choose|i: int| #[trigger] steps_on(sheets, i, path[0], path.len()) && (path.len()
        > 1 ==> (sheets[i].child matches Some(c) && leads_on(files, c as int, path.skip(1))));
    if path.len() > 1 {
        let c = sheets[i].child->0;
        law_sheet_is_reached(files, c as int, depth + 1, path.skip(1));
    }
    lemma_path_through(files, from, depth, sheets.len() as int, i);
}

proof fn lemma_path_through(files: Seq<SheetFile>, from: int, depth: int, n: int, i: int)
    requires
        depth <= MAX_SHEET_DEPTH,
        0 <= from < files.len(),
        0 <= i < files[from].sheets@.len(),
        files[from].sheets@.len() - n <= i,
        n <= files[from].sheets@.len(),
        files[from].sheets@[i].is_target || (files[from].sheets@[i].child matches Some(c)
            && sheet_path(files, c as int, depth + 1) is Some),
    ensures
        path_from(files, from, depth, n) is Some,
    decreases n,
{
    if n > 0 && files[from].sheets@.len() - n != i {
        lemma_path_through(files, from, depth, n - 1, i);
    }
}

/// An instance path has each uuid behind a slash, in order.
pub proof fn law_each_uuid_behind_a_slash(a: Seq<Seq<char>>, b: Seq<Seq<char>>, uuid: Seq<char>)
    ensures
        slashed(seq![uuid]) == "/"@ + uuid,
        slashed(a + b) == slashed(a) + slashed(b),
    decreases b.len(),
{
    let one = seq![uuid];
    assert(one.drop_last() =~= Seq::<Seq<char>>::empty());
    assert(slashed(one.drop_last()) =~= Seq::<char>::empty());
    assert(slashed(one) =~= "/"@ + uuid);
    if b.len() > 0 {
        law_each_uuid_behind_a_slash(a, b.drop_last(), uuid);
        assert((a + b).drop_last() =~= a + b.drop_last());
        assert((a + b).last() == b.last());
        assert(slashed(a + b) =~= slashed(a) + slashed(b));
    } else {
        assert(a + b =~= a);
        assert(slashed(a) + slashed(b) =~= slashed(a));
    }
}

/// A sheet is its own root unless a project has another root, with a uuid,
/// from which sheets lead there; then the uuids are those of the root and of
/// these sheets.
pub proof fn law_child_of_the_root(project: Option<ProjectView>)
    ensures
        reached(project) is Some <==> (project matches Some(p) && !p.root_is_sheet && p.root_uuid
            is Some && sheet_path(p.files@, p.root as int, 0) is Some),
        reached(project) matches Some(uuids) ==> (project matches Some(p) && p.root_uuid matches Some(
            u,
        ) && uuids.len() > 1 && uuids[0] == u@ && leads_on(p.files@, p.root as int, uuids.skip(1))),
{
    if reached(project) is Some {
        let p = project->0;
        let path = sheet_path(p.files@, p.root as int, 0)->0;
        law_path_leads_to_the_sheet(p.files@, p.root as int, 0);
        assert((seq![(p.root_uuid->0)@] + path).skip(1) =~= path);
    }
}

// ── Refreshes ────────────────────────────────────────────────────────────────

/// The component that a refresh is refused for is the first asked for that no
/// instance bears.
pub proof fn law_first_component_missing(
    instances: Seq<InstanceRef>,
    refs: Seq<Seq<char>>,
    i: int,
)
    requires
        0 <= i <= refs.len(),
        forall|k: int| 0 <= k < i ==> borne_by_some(instances, #[trigger] refs[k]),
        i < refs.len() ==> !borne_by_some(instances, refs[i]),
    ensures
        first_missing(instances, refs, 0) == if i < refs.len() {
            Some(refs[i])
        } else {
            None
        },
{
    lemma_first_missing(instances, refs, 0, i);
}

/// Some instance bears the designator.
pub open spec fn borne_by_some(instances: Seq<InstanceRef>, reference: Seq<char>) -> bool {
    exists|k: int| 0 <= k < instances.len() && (#[trigger] instances[k]).reference@ == reference
}

proof fn lemma_first_missing(
    instances: Seq<InstanceRef>,
    refs: Seq<Seq<char>>,
    from: int,
    i: int,
)
    requires
        0 <= from <= i <= refs.len(),
        forall|k: int| from <= k < i ==> borne_by_some(instances, #[trigger] refs[k]),
        i < refs.len() ==> !borne_by_some(instances, refs[i]),
    ensures
        first_missing(instances, refs, from) == if i < refs.len() {
            Some(refs[i])
        } else {
            None
        },
    decreases i - from,
{
    if from < i {
        assert(borne_by_some(instances, refs[from]));
        lemma_first_missing(instances, refs, from + 1, i);
    }
}

/// A symbol is refreshed exactly where an instance of it is asked for: every
/// one where no designators are given.
pub proof fn law_refreshed_where_asked(
    instances: Seq<InstanceRef>,
    only: Option<Seq<Seq<char>>>,
    lib_id: Seq<char>,
)
    ensures
        lib_ids_of(instances, only, instances.len() as int).contains(lib_id) <==> exists|i: int|
            0 <= i < instances.len() && (#[trigger] instances[i]).lib_id@ == lib_id && (
            only matches Some(refs) ==> refs.contains(instances[i].reference@)),
{
    crate::update::law_targets_complete(instances, only, instances.len() as int, lib_id);
}

/// Every symbol of a refresh is reported once: in the list that its outcome
/// belongs to.
pub proof fn law_every_outcome_is_reported(ids: Seq<Seq<char>>, os: Seq<Outcome>, n: int)
    requires
        0 <= n <= os.len(),
        ids.len() == os.len(),
    ensures
        updated_ids(ids, os, n).len() + unchanged_ids(ids, os, n).len() + moved_ids(ids, os, n).len()
            + update_errors(ids, os, n).len() == n,
        forall|i: int|
            0 <= i < n && (#[trigger] os[i]) is Updated ==> updated_ids(ids, os, n).contains(ids[i]),
        forall|i: int|
            0 <= i < n && (#[trigger] os[i]) is Unchanged ==> unchanged_ids(ids, os, n).contains(
                ids[i],
            ),
        forall|i: int|
            0 <= i < n ==> ((#[trigger] os[i]) matches Outcome::PinsMoved(pins) ==> moved_ids(
                ids,
                os,
                n,
            ).contains((ids[i], pins))),
    decreases n,
{
    if n > 0 {
        law_every_outcome_is_reported(ids, os, n - 1);
        let u = updated_ids(ids, os, n - 1);
        let c = unchanged_ids(ids, os, n - 1);
        let m = moved_ids(ids, os, n - 1);
        assert forall|i: int| 0 <= i < n && (#[trigger] os[i]) is Updated implies updated_ids(
            ids,
            os,
            n,
        ).contains(ids[i]) by {
            if i < n - 1 {
                let k = choose|k: int| 0 <= k < u.len() && u[k] == ids[i];
                assert(updated_ids(ids, os, n)[k] == ids[i]);
            } else {
                assert(updated_ids(ids, os, n).last() == ids[i]);
            }
        }
        assert forall|i: int| 0 <= i < n && (#[trigger] os[i]) is Unchanged implies unchanged_ids(
            ids,
            os,
            n,
        ).contains(ids[i]) by {
            if i < n - 1 {
                let k = choose|k: int| 0 <= k < c.len() && c[k] == ids[i];
                assert(unchanged_ids(ids, os, n)[k] == ids[i]);
            } else {
                assert(unchanged_ids(ids, os, n).last() == ids[i]);
            }
        }
        assert forall|i: int| 0 <= i < n implies ((#[trigger] os[i]) matches Outcome::PinsMoved(pins)
            ==> moved_ids(ids, os, n).contains((ids[i], pins))) by {
            if let Outcome::PinsMoved(pins) = os[i] {
                if i < n - 1 {
                    assert(m.contains((ids[i], pins)));
                    let k = choose|k: int| 0 <= k < m.len() && m[k] == (ids[i], pins);
                    assert(moved_ids(ids, os, n)[k] == (ids[i], pins));
                } else {
                    assert(moved_ids(ids, os, n).last() == (ids[i], pins));
                }
            }
        }
    }
}

/// What is reported of a symbol that could not be refreshed names it, and says
/// whether no library has it any more or the schematic embeds no copy of it.
pub proof fn law_refresh_errors_name_the_symbol(
    ids: Seq<Seq<char>>,
    os: Seq<Outcome>,
    n: int,
    i: int,
)
    requires
        0 <= i < n <= os.len(),
        ids.len() == os.len(),
    ensures
        os[i] is Unresolved ==> update_errors(ids, os, n).contains(
            "'"@ + ids[i]
                + "' no longer resolves in any registered library — the embedded copy is left as it is"@,
        ),
        os[i] is NotEmbedded ==> update_errors(ids, os, n).contains(
            "'"@ + ids[i] + "' has no embedded definition to update"@,
        ),
    decreases n,
{
    let now = update_errors(ids, os, n);
    if i == n - 1 {
        if os[i] is Unresolved || os[i] is NotEmbedded {
            assert(now.last() == now[now.len() - 1]);
        }
    } else {
        law_refresh_errors_name_the_symbol(ids, os, n - 1, i);
        let before = update_errors(ids, os, n - 1);
        assert forall|note: Seq<char>| before.contains(note) implies now.contains(note) by {
            let k = choose|k: int| 0 <= k < before.len() && before[k] == note;
            assert(now[k] == note);
        }
    }
}

// ── Counts and notes ─────────────────────────────────────────────────────────

/// Items of a kind are counted one by one.
pub proof fn law_items_are_counted(
    a: Seq<(RegionKind, Seq<u8>)>,
    b: Seq<(RegionKind, Seq<u8>)>,
    kind: RegionKind,
)
    ensures
        count_below(a + b, kind, (a + b).len() as int) == count_below(a, kind, a.len() as int)
            + count_below(b, kind, b.len() as int),
        a.len() == 1 ==> count_below(a, kind, 1) == if a[0].0 == kind {
            1int
        } else {
            0int
        },
{
    lemma_counted(a, b, kind, b.len() as int);
    reveal_with_fuel(count_below, 2);
}

proof fn lemma_counted_first(
    a: Seq<(RegionKind, Seq<u8>)>,
    b: Seq<(RegionKind, Seq<u8>)>,
    kind: RegionKind,
    n: int,
)
    requires
        n <= a.len(),
    ensures
        count_below(a + b, kind, n) == count_below(a, kind, n),
    decreases n,
{
    if n > 0 {
        lemma_counted_first(a, b, kind, n - 1);
        assert((a + b)[n - 1] == a[n - 1]);
    }
}

proof fn lemma_counted(
    a: Seq<(RegionKind, Seq<u8>)>,
    b: Seq<(RegionKind, Seq<u8>)>,
    kind: RegionKind,
    n: int,
)
    requires
        0 <= n <= b.len(),
    ensures
        count_below(a + b, kind, a.len() + n) == count_below(a, kind, a.len() as int) + count_below(
            b,
            kind,
            n,
        ),
    decreases n,
{
    if n > 0 {
        lemma_counted(a, b, kind, n - 1);
        assert((a + b)[a.len() + n - 1] == b[n - 1]);
    } else {
        lemma_counted_first(a, b, kind, a.len() as int);
    }
}

/// Notes are joined in order, with a semicolon between each two.
pub proof fn law_notes_are_joined(a: Seq<Seq<char>>, b: Seq<Seq<char>>, note: Seq<char>)
    ensures
        notes_joined(seq![note]) == note,
        a.len() > 0 && b.len() > 0 ==> notes_joined(a + b) == notes_joined(a) + "; "@
            + notes_joined(b),
    decreases b.len(),
{
    if a.len() > 0 && b.len() > 0 {
        assert((a + b).drop_last() =~= a + b.drop_last());
        assert((a + b).last() == b.last());
        if b.len() == 1 {
            assert(a + b.drop_last() =~= a);
            assert(b.last() == b[0]);
        } else {
            law_notes_are_joined(a, b.drop_last(), note);
            assert(notes_joined(a + b) =~= notes_joined(a) + "; "@ + notes_joined(b));
        }
    }
}

/// The units of a component are known by their uuids, one for each unit and in
/// order; where one of them has none the component is refused.
pub proof fn law_each_unit_by_its_uuid(s: Seq<u8>, reference: Seq<char>)
    ensures
        item_ids(s, reference) is Ok <==> instance_blocks(s, reference).len() > 0 && forall|k: int|
            0 <= k < instance_blocks(s, reference).len() ==> unit_has_uuid(
                s,
                #[trigger] instance_blocks(s, reference)[k],
            ),
        item_ids(s, reference) matches Ok(ids) ==> {
            &&& ids.len() == instance_blocks(s, reference).len()
            &&& forall|k: int|
                0 <= k < ids.len() ==> uuid_is(
                    s,
                    instance_blocks(s, reference)[k],
                    #[trigger] ids[k],
                )
        },
{
    lemma_unit_ids(s, instance_blocks(s, reference), 0, reference, Seq::empty());
}

/// A block reads as a list with that uuid.
pub open spec fn uuid_is(s: Seq<u8>, b: (int, int), uuid: Seq<u8>) -> bool {
    parsed(s.subrange(b.0, b.1)) matches Some(t) && found_text(t, utf8("uuid"@)) == Some(uuid)
}

/// A block reads as a list with a uuid.
pub open spec fn unit_has_uuid(s: Seq<u8>, b: (int, int)) -> bool {
    parsed(s.subrange(b.0, b.1)) matches Some(t) && found_text(t, utf8("uuid"@)) is Some
}

proof fn lemma_unit_ids(
    s: Seq<u8>,
    blocks: Seq<(int, int)>,
    k: int,
    reference: Seq<char>,
    before: Seq<Seq<u8>>,
)
    requires
        0 <= k <= blocks.len(),
        before.len() == k,
        forall|i: int| 0 <= i < k ==> uuid_is(s, blocks[i], #[trigger] before[i]),
    ensures
        unit_ids(s, blocks, k, reference, before) is Ok <==> forall|i: int|
            k <= i < blocks.len() ==> unit_has_uuid(s, #[trigger] blocks[i]),
        unit_ids(s, blocks, k, reference, before) matches Ok(ids) ==> {
            &&& ids.len() == blocks.len()
            &&& forall|i: int| 0 <= i < ids.len() ==> uuid_is(s, blocks[i], #[trigger] ids[i])
        },
    decreases blocks.len() - k,
{
    if k < blocks.len() {
        match unit_id(s, blocks[k], reference) {
            Ok(uuid) => {
                assert(unit_has_uuid(s, blocks[k]));
                lemma_unit_ids(s, blocks, k + 1, reference, before.push(uuid));
            },
            Err(_) => {
                assert(!unit_has_uuid(s, blocks[k]));
            },
        }
    }
}

// ── Lists ────────────────────────────────────────────────────────────────────

/// The list that is found under a head is the first with it.
pub proof fn law_first_list_with_the_head(items: Seq<Sexp>, tag: Seq<u8>, i: int)
    requires
        0 <= i <= items.len(),
        forall|k: int| 0 <= k < i ==> head(#[trigger] items[k]) != Some(tag),
        i < items.len() ==> head(items[i]) == Some(tag),
    ensures
        found(Sexp::List(items), tag) == if i < items.len() {
            Some(items[i])
        } else {
            None
        },
{
    lemma_first_headed(items, tag, 0, i);
}

proof fn lemma_first_headed(items: Seq<Sexp>, tag: Seq<u8>, from: int, i: int)
    requires
        0 <= from <= i <= items.len(),
        forall|k: int| from <= k < i ==> head(#[trigger] items[k]) != Some(tag),
        i < items.len() ==> head(items[i]) == Some(tag),
    ensures
        first_headed(items, tag, from) == if i < items.len() {
            Some(items[i])
        } else {
            None
        },
    decreases i - from,
{
    if from < i {
        assert(head(items[from]) != Some(tag));
        lemma_first_headed(items, tag, from + 1, i);
    }
}

/// The library a symbol is named under stands before the first colon: it holds
/// no colon itself.
pub proof fn law_library_before_the_first_colon(id: Seq<u8>)
    ensures
        forall|k: int| 0 <= k < library_of(id).len() ==> #[trigger] library_of(id)[k] != 0x3a,
        library_of(id) == id || exists|rest: Seq<u8>| id == #[trigger] (library_of(id)
            + seq![0x3au8] + rest),
{
    let colon = utf8(":"@);
    reveal_strlit(":");
    lemma_one_byte(":"@);
    assert(colon =~= seq![0x3au8]);
    lemma_first_at(id, colon, 0);
    assert forall|k: int| 0 <= k < library_of(id).len() implies #[trigger] library_of(id)[k]
        != 0x3a by {
        if id[k] == 0x3a {
            assert(id.subrange(k, k + 1) =~= colon);
            assert(occurs_at(id, colon, k));
        }
    }
    if let Some(i) = first_at(id, colon, 0) {
        assert(id.subrange(i, i + 1)[0] == id[i]);
        let rest = id.subrange(i + 1, id.len() as int);
        assert(id =~= library_of(id) + seq![0x3au8] + rest);
    }
}

/// The name of a definition is the quoted text behind its head.
pub proof fn law_definition_name_is_read(name: Seq<char>, more: Seq<char>)
    requires
        !name.contains('"'),
    ensures
        symbol_name(utf8("(symbol \""@ + name + "\""@ + more)) == Some(utf8(name)),
{
    let d = "(symbol \""@ + name + "\""@ + more;
    let block = utf8(d);
    let rest = " \""@ + (name + "\""@ + more);
    let behind = name + ("\""@ + more);
    reveal_strlit("(symbol \"");
    reveal_strlit("(symbol");
    reveal_strlit(" \"");
    reveal_strlit("\"");
    vstd::utf8::is_ascii_chars_encode_utf8("(symbol"@);
    lemma_one_byte("\""@);
    assert(utf8("\""@) =~= seq![0x22u8]);
    assert("(symbol \""@ =~= "(symbol"@ + " \""@);
    assert(d =~= "(symbol"@ + rest);
    lemma_utf8_add("(symbol"@, rest);
    assert(block.subrange(0, 7) =~= utf8("(symbol"@));
    assert(block.subrange(7, block.len() as int) =~= utf8(rest));
    lemma_chars(rest);
    assert(rest[0] == ' ' && rest[1] == '"');
    reveal_with_fuel(past_spaces, 3);
    assert(past_spaces(rest, 0) == 1);
    assert(rest.subrange(2, rest.len() as int) =~= behind);
    lemma_utf8_add(name, "\""@ + more);
    lemma_utf8_add("\""@, more);
    lemma_byte_absent(name, '"');
    let n = utf8(behind);
    let end = utf8(name).len() as int;
    let quote = utf8("\""@);
    lemma_first_at(n, quote, 0);
    assert(n[end] == 0x22);
    assert(n.subrange(end, end + 1) =~= quote);
    assert(occurs_at(n, quote, end));
    let f = first_at(n, quote, 0)->0;
    if f < end {
        assert(n.subrange(f, f + 1)[0] == n[f]);
        assert(n[f] == utf8(name)[f]);
    }
    assert(n.subrange(0, end) =~= utf8(name));
}

/// The embedded copy of a symbol is the first definition of that name in the
/// section for embedded definitions.
pub proof fn law_embedded_copy_is_the_first(s: Seq<u8>, lib_id: Seq<char>)
    ensures
        embedded_at(s, lib_id) matches Some(b) ==> exists|k: int| #[trigger]
            first_definition(s, lib_id, k) && direct_children(s, utf8("lib_symbols"@))[k] == b,
        embedded_at(s, lib_id) is None ==> forall|k: int|
            0 <= k < direct_children(s, utf8("lib_symbols"@)).len() ==> symbol_name(
                s.subrange(
                    (#[trigger] direct_children(s, utf8("lib_symbols"@))[k]).0,
                    direct_children(s, utf8("lib_symbols"@))[k].1,
                ),
            ) != Some(utf8(lib_id)),
{
    let blocks = direct_children(s, utf8("lib_symbols"@));
    if embedded_at(s, lib_id) is Some {
        let k = lemma_defined_index(s, blocks, utf8(lib_id), 0);
        lemma_defined_name(s, blocks, utf8(lib_id), 0);
        assert(first_definition(s, lib_id, k));
    } else {
        lemma_not_defined(s, blocks, utf8(lib_id), 0);
    }
}

/// A definition of that name, with none before it.
pub open spec fn first_definition(s: Seq<u8>, lib_id: Seq<char>, k: int) -> bool {
    let blocks = direct_children(s, utf8("lib_symbols"@));
    &&& 0 <= k < blocks.len()
    &&& symbol_name(s.subrange(blocks[k].0, blocks[k].1)) == Some(utf8(lib_id))
    &&& forall|j: int|
        0 <= j < k ==> symbol_name(s.subrange((#[trigger] blocks[j]).0, blocks[j].1)) != Some(
            utf8(lib_id),
        )
}

proof fn lemma_not_defined(s: Seq<u8>, blocks: Seq<(int, int)>, name: Seq<u8>, i: int)
    requires
        0 <= i,
        defined_at(s, blocks, name, i) is None,
    ensures
        forall|k: int|
            i <= k < blocks.len() ==> symbol_name(
                s.subrange((#[trigger] blocks[k]).0, blocks[k].1),
            ) != Some(name),
    decreases blocks.len() - i,
{
    if i < blocks.len() {
        lemma_not_defined(s, blocks, name, i + 1);
    }
}

// ── Places ───────────────────────────────────────────────────────────────────

/// A text without white space.
pub open spec fn one_word(x: Seq<char>) -> bool {
    x.len() > 0 && forall|i: int| 0 <= i < x.len() ==> !is_space(#[trigger] x[i])
}

/// A unit sits at the first two numbers of its first place, as they are
/// written there.
pub proof fn law_place_is_read(
    block: Seq<u8>,
    o: int,
    x: Seq<char>,
    y: Seq<char>,
    rotation: Seq<char>,
)
    requires
        first_at(block, utf8("(at "@), 0) == Some(o),
        occurs_at(block, utf8("(at "@ + x + " "@ + y + " "@ + rotation + ")"@), o),
        one_word(x),
        one_word(y),
        unmarked(x),
        unmarked(y),
        unmarked(rotation),
        is_number(utf8(x)),
        is_number(utf8(y)),
    ensures
        placement(block) == Some((x, y)),
{
    let inner = x + " "@ + y + " "@ + rotation;
    let whole = "(at "@ + x + " "@ + y + " "@ + rotation + ")"@;
    let close = utf8(")"@);
    let n = utf8(inner);
    let w = utf8(whole);
    reveal_strlit("(at ");
    reveal_strlit(")");
    reveal_strlit(" ");
    vstd::utf8::is_ascii_chars_encode_utf8("(at "@);
    lemma_one_byte(")"@);
    assert(close =~= seq![0x29u8]);
    assert(whole =~= "(at "@ + inner + ")"@);
    lemma_utf8_add("(at "@ + inner, ")"@);
    lemma_utf8_add("(at "@, inner);
    assert(!inner.contains(')')) by {
        if inner.contains(')') {
            let i = choose|i: int| 0 <= i < inner.len() && inner[i] == ')';
            if i < x.len() {
                assert(x[i] == ')');
            } else if i == x.len() {
                assert(" "@[0] == ' ');
            } else if i < x.len() + 1 + y.len() {
                assert(y[i - x.len() - 1] == ')');
            } else if i == x.len() + 1 + y.len() {
                assert(" "@[0] == ' ');
            } else {
                assert(rotation[i - x.len() - y.len() - 2] == ')');
            }
        }
    }
    lemma_byte_absent(inner, ')');
    let z = o + 4 + n.len();
    assert forall|k: int| 0 <= k < w.len() implies block[o + k] == #[trigger] w[k] by {
        assert(block.subrange(o, o + w.len())[k] == block[o + k]);
    }
    assert(block[o + (4 + n.len())] == w[4int + n.len()]);
    assert(block.subrange(z, z + 1) =~= close);
    assert(occurs_at(block, close, z));
    lemma_first_at(block, close, o + 4);
    let f = first_at(block, close, o + 4)->0;
    if f < z {
        assert(block.subrange(f, f + 1)[0] == block[f]);
        assert(block[o + (f - o)] == w[f - o]);
        assert(w[f - o] == n[f - o - 4]);
    }
    assert(block.subrange(o + 4, z) =~= n) by {
        assert forall|k: int| 0 <= k < n.len() implies #[trigger] block.subrange(o + 4, z)[k]
            == n[k] by {
            assert(block[o + (4 + k)] == w[4 + k]);
        }
    }
    lemma_chars(inner);
    lemma_two_words(x, y, " "@ + rotation);
    assert(inner =~= x + " "@ + y + (" "@ + rotation));
}

proof fn lemma_two_words(x: Seq<char>, y: Seq<char>, tail: Seq<char>)
    requires
        one_word(x),
        one_word(y),
        tail.len() > 0,
        is_space(tail[0]),
        is_number(utf8(x)),
        is_number(utf8(y)),
    ensures
        two_numerals(x + " "@ + y + tail) == Some((x, y)),
{
    let all = x + " "@ + y + tail;
    let b = x.len() as int;
    let d = b + 1 + y.len();
    reveal_strlit(" ");
    assert(all[0] == x[0]);
    assert(past_spaces(all, 0) == 0);
    assert forall|i: int| 0 <= i < b implies !is_space(#[trigger] all[i]) by {
        assert(all[i] == x[i]);
    }
    assert(all[b] == ' ');
    lemma_word_ends(all, 0, b);
    assert(all[b + 1] == y[0]);
    reveal_with_fuel(past_spaces, 2);
    assert(past_spaces(all, b) == b + 1);
    assert forall|i: int| b + 1 <= i < d implies !is_space(#[trigger] all[i]) by {
        assert(all[i] == y[i - b - 1]);
    }
    assert(all[d] == tail[0]);
    lemma_word_ends(all, b + 1, d);
    assert(all.subrange(0, b) =~= x);
    assert(all.subrange(b + 1, d) =~= y);
}

proof fn lemma_word_ends(s: Seq<char>, i: int, e: int)
    requires
        0 <= i <= e < s.len(),
        forall|k: int| i <= k < e ==> !is_space(#[trigger] s[k]),
        is_space(s[e]),
    ensures
        past_word(s, i) == e,
    decreases e - i,
{
    if i < e {
        assert(!is_space(s[i]));
        lemma_word_ends(s, i + 1, e);
    }
}

// ── Requests ─────────────────────────────────────────────────────────────────

/// A request to move a region has six numbers that can be coordinates, or it
/// is refused for the first that is missing or out of range.
pub proof fn law_six_numbers_are_asked(args: Json)
    ensures
        first_bad(args, 0) is None <==> {
            &&& number_good(args, "x1"@)
            &&& number_good(args, "y1"@)
            &&& number_good(args, "x2"@)
            &&& number_good(args, "y2"@)
            &&& number_good(args, "dx"@)
            &&& number_good(args, "dy"@)
        },
        !number_good(args, "x1"@) ==> first_bad(args, 0) == Some("x1"@),
        first_bad(args, 0) matches Some(name) ==> !number_good(args, name),
{
    reveal_with_fuel(first_bad, 7);
}

/// A coordinate of a request lies within a million of zero.
pub proof fn law_coordinates_of_a_request_are_bounded(args: Json, name: Seq<char>)
    ensures
        number_good(args, name) <==> (number_arg(member(args, name)) matches Some(n)
            && n.value.bits % 0x8000_0000_0000_0000 <= 0x412e_8480_0000_0000),
{
}

// ── Order ────────────────────────────────────────────────────────────────────

/// Texts are in the order of the first bytes in which they differ, and one
/// that another goes on from comes before it.
pub proof fn law_first_difference_decides(
    common: Seq<u8>,
    x: u8,
    y: u8,
    a: Seq<u8>,
    b: Seq<u8>,
)
    requires
        x < y,
    ensures
        precedes(common + seq![x] + a, common + seq![y] + b),
        !precedes(common + seq![y] + b, common + seq![x] + a),
        precedes(common, common + seq![x] + a),
        !precedes(common + seq![x] + a, common),
        !precedes(common, common),
    decreases common.len(),
{
    let one = common + seq![x] + a;
    let other = common + seq![y] + b;
    if common.len() == 0 {
        assert(one[0] == x);
        assert(other[0] == y);
    } else {
        let rest = common.drop_first();
        law_first_difference_decides(rest, x, y, a, b);
        assert(one.drop_first() =~= rest + seq![x] + a);
        assert(other.drop_first() =~= rest + seq![y] + b);
        assert(one[0] == common[0]);
        assert(other[0] == common[0]);
    }
}

} // verus!
