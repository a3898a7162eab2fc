//! What a reset does to the fields of placed symbols, field by field.

use vstd::prelude::*;
use crate::node::{head, Sexp};
use crate::placement::{
    at_index, field_index, fields, is_at, lemma_at_index, lemma_field_index, moved_field, Field,
    PlaceText, Symbol,
};
use crate::reset::{
    field_outcome, field_reset, lemma_field_reset, reset_below, symbol_reset, FieldOutcome,
    FieldTargets, Reset,
};
use crate::text::utf8;

verus! {

/// The field at `i` is the first of its name.
pub open spec fn first_named(fs: Seq<Field>, name: Seq<char>, i: int) -> bool {
    &&& 0 <= i < fs.len()
    &&& fs[i].name == name
    &&& forall|j: int| 0 <= j < i ==> (#[trigger] fs[j]).name != name
}

/// A field stands at a place: its first `(at …)` reads the numbers of the place.
pub open spec fn stands(f: Field, place: PlaceText) -> bool {
    exists|j: int| #[trigger] stands_by(f, place, j)
}

/// The node at `j` is the first `(at …)`, and reads the numbers of a place.
pub open spec fn stands_by(f: Field, place: PlaceText, j: int) -> bool {
    &&& 0 <= j < f.sub_nodes.len()
    &&& f.sub_nodes[j] == Sexp::List(
        seq![
            Sexp::Atom(utf8("at"@)),
            Sexp::Atom(utf8(place.x@)),
            Sexp::Atom(utf8(place.y@)),
            Sexp::Atom(utf8(place.rotation@)),
        ],
    )
    &&& forall|i: int| 0 <= i < j ==> head(#[trigger] f.sub_nodes[i]) != Some(utf8("at"@))
}

/// The symbol shows a designator: its first Reference field has that value.
pub open spec fn bears(sym: Symbol, reference: Seq<char>) -> bool {
    exists|i: int| #[trigger]
        first_named(fields(sym.properties@), "Reference"@, i) && fields(sym.properties@)[i].value
            == reference
}

/// The symbol is one that a reset is about: it shows a designator, which is on
/// the list, if there is a list.
pub open spec fn wanted(sym: Symbol, only: Option<Seq<Seq<char>>>) -> bool {
    exists|r: Seq<char>| #[trigger] bears(sym, r) && (only matches Some(refs) ==> refs.contains(r))
}

/// Which of the targets a field has.
pub open spec fn is_target(
    targets: FieldTargets,
    name: Seq<char>,
    target: Option<PlaceText>,
) -> bool {
    ||| name == "Reference"@ && target == targets.reference
    ||| name == "Value"@ && target == targets.value
}

proof fn lemma_names()
    ensures
        "Reference"@ != "Value"@,
{
    reveal_strlit("Reference");
    reveal_strlit("Value");
    assert("Reference"@.len() != "Value"@.len());
}

proof fn lemma_stands(f: Field, place: PlaceText)
    ensures
        stands(f, place) <==> is_at(f, place),
{
    lemma_at_index(f.sub_nodes, 0);
    if let Some(k) = at_index(f.sub_nodes, 0) {
        if is_at(f, place) {
            assert(f.sub_nodes[k] =~= Sexp::List(
                seq![
                    Sexp::Atom(utf8("at"@)),
                    Sexp::Atom(utf8(place.x@)),
                    Sexp::Atom(utf8(place.y@)),
                    Sexp::Atom(utf8(place.rotation@)),
                ],
            ));
            assert(stands_by(f, place, k));
        }
    }
    if stands(f, place) {
        let j = choose|j: int| #[trigger] stands_by(f, place, j);
        assert(head(f.sub_nodes[j]) == Some(utf8("at"@)));
        let k = at_index(f.sub_nodes, 0)->0;
        if k < j {
            assert(head(f.sub_nodes[k]) != Some(utf8("at"@)));
        }
    }
}

proof fn lemma_first_named(fs: Seq<Field>, name: Seq<char>, i: int)
    ensures
        first_named(fs, name, i) <==> field_index(fs, name, 0) == Some(i),
        (forall|j: int| !first_named(fs, name, j)) <==> field_index(fs, name, 0) is None,
{
    lemma_field_index(fs, name, 0);
    if let Some(k) = field_index(fs, name, 0) {
        assert(first_named(fs, name, k));
        if first_named(fs, name, i) && i != k {
            if k < i {
                assert(fs[k].name != name);
            } else {
                assert(fs[i].name != name);
            }
        }
    }
}

proof fn lemma_bears(sym: Symbol, r: Seq<char>)
    ensures
        bears(sym, r) <==> sym.designator() == Some(r),
{
    let fs = fields(sym.properties@);
    lemma_field_index(fs, "Reference"@, 0);
    if let Some(k) = field_index(fs, "Reference"@, 0) {
        lemma_first_named(fs, "Reference"@, k);
    }
    if bears(sym, r) {
        let i = choose|i: int| #[trigger]
            first_named(fs, "Reference"@, i) && fs[i].value == r;
        lemma_first_named(fs, "Reference"@, i);
    }
}

proof fn lemma_wanted(sym: Symbol, only: Option<Seq<Seq<char>>>)
    ensures
        wanted(sym, only) <==> crate::reset::resets(sym, only),
{
    if let Some(r) = sym.designator() {
        lemma_bears(sym, r);
    }
    if wanted(sym, only) {
        let r = choose|r: Seq<char>| #[trigger]
            bears(sym, r) && (only matches Some(refs) ==> refs.contains(r));
        lemma_bears(sym, r);
    }
}

/// A field that a reset finds, with a place for it, stands at that place
/// afterwards, under the same name and with the same value.
proof fn lemma_put_back(fs: Seq<Field>, name: Seq<char>, target: Option<PlaceText>, i: int)
    requires
        first_named(fs, name, i),
        target is Some,
    ensures
        stands(field_reset(fs, name, target)[i], target->0),
{
    lemma_first_named(fs, name, i);
    crate::placement::law_move_field_once(fs[i], target->0);
    lemma_stands(moved_field(fs[i], target->0), target->0);
}

/// A reset puts Reference and Value of every symbol that it is about at the
/// places given for them. It changes neither the name nor the value of a field,
/// and nothing of any other field.
pub proof fn law_reset_puts_fields_back(
    sym: Symbol,
    targets: FieldTargets,
    only: Option<Seq<Seq<char>>>,
    name: Seq<char>,
    target: Option<PlaceText>,
    i: int,
)
    requires
        wanted(sym, only),
        is_target(targets, name, target),
        first_named(fields(sym.properties@), name, i),
    ensures
        ({
            let before = fields(sym.properties@);
            let after = symbol_reset(sym, targets, only);
            &&& after.len() == before.len()
            &&& after[i].name == before[i].name
            &&& after[i].value == before[i].value
            &&& match target {
                Some(place) => stands(after[i], place),
                None => after[i] == before[i],
            }
            &&& forall|k: int|
                0 <= k < before.len() && !first_named(before, "Reference"@, k) && !first_named(
                    before,
                    "Value"@,
                    k,
                ) ==> #[trigger] after[k] == before[k]
        }),
{
    let before = fields(sym.properties@);
    let mid = field_reset(before, "Reference"@, targets.reference);
    let after = symbol_reset(sym, targets, only);
    lemma_names();
    lemma_wanted(sym, only);
    lemma_field_reset(before, "Reference"@, targets.reference);
    lemma_field_reset(mid, "Value"@, targets.value);
    lemma_first_named(before, name, i);
    assert forall|j: int| 0 <= j < i implies (#[trigger] mid[j]).name != name by {
        assert(before[j].name != name);
    }
    assert(mid[i].name == before[i].name);
    assert(first_named(mid, name, i));
    lemma_first_named(mid, name, i);
    if name == "Reference"@ {
        if target is Some {
            lemma_put_back(before, name, target, i);
        }
        assert(after[i] == mid[i]);
    } else {
        assert(mid[i] == before[i]);
        if target is Some {
            lemma_put_back(mid, name, target, i);
        }
    }
    assert forall|k: int|
        0 <= k < before.len() && !first_named(before, "Reference"@, k) && !first_named(
            before,
            "Value"@,
            k,
        ) implies #[trigger] after[k] == before[k] by {
        lemma_first_named(before, "Reference"@, k);
        lemma_field_index(before, "Reference"@, 0);
        assert(mid[k] == before[k]);
        lemma_field_index(mid, "Value"@, 0);
        if field_index(mid, "Value"@, 0) == Some(k) {
            assert forall|j: int| 0 <= j < k implies (#[trigger] before[j]).name != "Value"@ by {
                assert(mid[j].name == before[j].name);
            }
            assert(first_named(before, "Value"@, k));
        }
    }
}

/// A symbol that a reset is not about keeps its fields as they are.
pub proof fn law_reset_leaves_the_others(
    sym: Symbol,
    targets: FieldTargets,
    only: Option<Seq<Seq<char>>>,
)
    requires
        !wanted(sym, only),
    ensures
        symbol_reset(sym, targets, only) == fields(sym.properties@),
{
    lemma_wanted(sym, only);
}

/// How many of the first `n` symbols a reset is about.
pub open spec fn wanted_below(all: Seq<Symbol>, only: Option<Seq<Seq<char>>>, n: int) -> int
    decreases n,
{
    if n <= 0 {
        0
    } else if wanted(all[n - 1], only) {
        wanted_below(all, only, n - 1) + 1
    } else {
        wanted_below(all, only, n - 1)
    }
}

/// A field is on the list that says what came of it: moved where it stood
/// elsewhere, unchanged where it stood there already, without an anchor where
/// the library gives no place for it, and without a property where the symbol
/// does not have it.
pub open spec fn reported(
    report: Reset,
    sym: Symbol,
    reference: Seq<char>,
    name: Seq<char>,
    target: Option<PlaceText>,
) -> bool {
    let fs = fields(sym.properties@);
    let note = reference + "."@ + name;
    match target {
        None => report.no_anchor.contains(note),
        Some(place) => {
            &&& (forall|i: int| !first_named(fs, name, i)) ==> report.no_property.contains(note)
            &&& forall|i: int| #[trigger]
                first_named(fs, name, i) ==> if stands(fs[i], place) {
                    report.unchanged.contains(note)
                } else {
                    report.moved.contains(note)
                }
        },
    }
}

/// What one field adds to a report.
proof fn lemma_note(before: Reset, outcome: FieldOutcome, note: Seq<char>)
    ensures
        ({
            let now = before.note(outcome, note);
            &&& now.moved.len() + now.unchanged.len() + now.no_anchor.len() + now.no_property.len()
                == before.moved.len() + before.unchanged.len() + before.no_anchor.len()
                + before.no_property.len() + 1
            &&& forall|t: Seq<char>| before.moved.contains(t) ==> #[trigger] now.moved.contains(t)
            &&& forall|t: Seq<char>|
                before.unchanged.contains(t) ==> #[trigger] now.unchanged.contains(t)
            &&& forall|t: Seq<char>|
                before.no_anchor.contains(t) ==> #[trigger] now.no_anchor.contains(t)
            &&& forall|t: Seq<char>|
                before.no_property.contains(t) ==> #[trigger] now.no_property.contains(t)
            &&& match outcome {
                FieldOutcome::Moved => now.moved.contains(note),
                FieldOutcome::Unchanged => now.unchanged.contains(note),
                FieldOutcome::NoAnchor => now.no_anchor.contains(note),
                FieldOutcome::NoProperty => now.no_property.contains(note),
            }
        }),
{
    let now = before.note(outcome, note);
    lemma_pushed(before.moved, now.moved, note);
    lemma_pushed(before.unchanged, now.unchanged, note);
    lemma_pushed(before.no_anchor, now.no_anchor, note);
    lemma_pushed(before.no_property, now.no_property, note);
}

proof fn lemma_pushed(a: Seq<Seq<char>>, b: Seq<Seq<char>>, note: Seq<char>)
    requires
        b == a || b == a.push(note),
    ensures
        forall|t: Seq<char>| a.contains(t) ==> #[trigger] b.contains(t),
        b == a.push(note) ==> b.contains(note),
{
    assert forall|t: Seq<char>| a.contains(t) implies #[trigger] b.contains(t) by {
        let k = choose|k: int| 0 <= k < a.len() && a[k] == t;
        assert(b[k] == t);
    }
    if b == a.push(note) {
        assert(b[a.len() as int] == note);
    }
}

proof fn lemma_still_reported(
    a: Reset,
    b: Reset,
    sym: Symbol,
    reference: Seq<char>,
    name: Seq<char>,
    target: Option<PlaceText>,
)
    requires
        reported(a, sym, reference, name, target),
        forall|t: Seq<char>| a.moved.contains(t) ==> #[trigger] b.moved.contains(t),
        forall|t: Seq<char>| a.unchanged.contains(t) ==> #[trigger] b.unchanged.contains(t),
        forall|t: Seq<char>| a.no_anchor.contains(t) ==> #[trigger] b.no_anchor.contains(t),
        forall|t: Seq<char>| a.no_property.contains(t) ==> #[trigger] b.no_property.contains(t),
    ensures
        reported(b, sym, reference, name, target),
{
}

proof fn lemma_reported(
    before: Reset,
    sym: Symbol,
    reference: Seq<char>,
    name: Seq<char>,
    target: Option<PlaceText>,
)
    ensures
        reported(
            before.note(
                field_outcome(fields(sym.properties@), name, target),
                reference + "."@ + name,
            ),
            sym,
            reference,
            name,
            target,
        ),
{
    let fs = fields(sym.properties@);
    lemma_note(before, field_outcome(fs, name, target), reference + "."@ + name);
    if let Some(place) = target {
        lemma_field_index(fs, name, 0);
        if let Some(k) = field_index(fs, name, 0) {
            lemma_first_named(fs, name, k);
            assert(first_named(fs, name, k));
            lemma_stands(fs[k], place);
        }
        assert forall|i: int| #[trigger] first_named(fs, name, i) implies field_index(fs, name, 0)
            == Some(i) by {
            lemma_first_named(fs, name, i);
        }
    }
}

/// The report of a reset has two entries for every symbol that the reset is
/// about and none for any other; and Reference and Value of each of those
/// symbols are on the list that says what came of them.
pub proof fn law_reset_reports_every_field(
    all: Seq<Symbol>,
    targets: Seq<FieldTargets>,
    only: Option<Seq<Seq<char>>>,
    n: int,
)
    requires
        0 <= n <= all.len(),
        targets.len() == all.len(),
    ensures
        ({
            let report = reset_below(all, targets, only, n);
            &&& report.moved.len() + report.unchanged.len() + report.no_anchor.len()
                + report.no_property.len() == 2 * wanted_below(all, only, n)
            &&& forall|i: int, r: Seq<char>|
                0 <= i < n && wanted(all[i], only) && #[trigger] bears(all[i], r) ==> reported(
                    report,
                    all[i],
                    r,
                    "Reference"@,
                    targets[i].reference,
                ) && reported(report, all[i], r, "Value"@, targets[i].value)
        }),
    decreases n,
{
    if n > 0 {
        law_reset_reports_every_field(all, targets, only, n - 1);
        let before = reset_below(all, targets, only, n - 1);
        let report = reset_below(all, targets, only, n);
        let sym = all[n - 1];
        let t = targets[n - 1];
        let fs = fields(sym.properties@);
        lemma_wanted(sym, only);
        lemma_names();
        if wanted(sym, only) {
            let r = sym.designator()->0;
            lemma_bears(sym, r);
            let mid = before.note(field_outcome(fs, "Reference"@, t.reference), r + "."@ + "Reference"@);
            let moved = field_reset(fs, "Reference"@, t.reference);
            lemma_field_reset(fs, "Reference"@, t.reference);
            crate::reset::lemma_same_names(fs, moved, "Value"@, 0);
            lemma_field_index(fs, "Value"@, 0);
            assert(field_outcome(moved, "Value"@, t.value) == field_outcome(fs, "Value"@, t.value));
            lemma_note(before, field_outcome(fs, "Reference"@, t.reference), r + "."@ + "Reference"@);
            lemma_note(mid, field_outcome(fs, "Value"@, t.value), r + "."@ + "Value"@);
            lemma_reported(before, sym, r, "Reference"@, t.reference);
            lemma_still_reported(mid, report, sym, r, "Reference"@, t.reference);
            lemma_reported(mid, sym, r, "Value"@, t.value);
        }
        assert forall|i: int, r: Seq<char>|
            0 <= i < n && wanted(all[i], only) && #[trigger] bears(all[i], r) implies reported(
            report,
            all[i],
            r,
            "Reference"@,
            targets[i].reference,
        ) && reported(report, all[i], r, "Value"@, targets[i].value) by {
            if i < n - 1 {
                lemma_still_reported(before, report, all[i], r, "Reference"@, targets[i].reference);
                lemma_still_reported(before, report, all[i], r, "Value"@, targets[i].value);
            } else {
                lemma_bears(sym, r);
            }
        }
    }
}

} // verus!
