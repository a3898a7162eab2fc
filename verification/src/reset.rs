//! Putting the fields of placed symbols back where the library anchors them.

use vstd::prelude::*;
use crate::placement::{
    field_index, field_value, fields, is_at, law_move_field_once, lemma_field_index, moved_field,
    set_property_at, Field, PlaceText, Property, Symbol,
};
use crate::text::{join3, same, texts, utf8};
use crate::update::{asked, list_contains, only_view};

verus! {

// ── Order of texts ───────────────────────────────────────────────────────────

/// One text comes before another: byte by byte, a beginning before the whole.
pub open spec fn precedes(a: Seq<u8>, b: Seq<u8>) -> bool
    decreases a.len(),
{
    if b.len() == 0 {
        false
    } else if a.len() == 0 {
        true
    } else if a[0] != b[0] {
        a[0] < b[0]
    } else {
        precedes(a.drop_first(), b.drop_first())
    }
}

proof fn lemma_precedes_skip(a: Seq<u8>, b: Seq<u8>, k: int)
    requires
        0 <= k <= a.len(),
        k <= b.len(),
        forall|j: int| 0 <= j < k ==> a[j] == b[j],
    ensures
        precedes(a, b) == precedes(a.skip(k), b.skip(k)),
    decreases k,
{
    if k == 0 {
        assert(a.skip(0) =~= a);
        assert(b.skip(0) =~= b);
    } else {
        lemma_precedes_skip(a, b, k - 1);
        assert(a.skip(k - 1).drop_first() =~= a.skip(k));
        assert(b.skip(k - 1).drop_first() =~= b.skip(k));
    }
}

/// Of two different texts one comes before the other.
pub proof fn lemma_precedes_total(a: Seq<u8>, b: Seq<u8>)
    ensures
        a != b ==> precedes(a, b) || precedes(b, a),
        !(precedes(a, b) && precedes(b, a)),
        !precedes(a, a),
    decreases a.len(),
{
    if a.len() > 0 && b.len() > 0 && a[0] == b[0] {
        lemma_precedes_total(a.drop_first(), b.drop_first());
        if a != b && a.drop_first() == b.drop_first() {
            assert(a =~= seq![a[0]] + a.drop_first());
            assert(b =~= seq![b[0]] + b.drop_first());
        }
    }
    if a.len() > 0 {
        lemma_precedes_self(a);
    }
    if a.len() == 0 && b.len() == 0 {
        assert(a =~= b);
    }
}

proof fn lemma_precedes_self(a: Seq<u8>)
    ensures
        !precedes(a, a),
    decreases a.len(),
{
    if a.len() > 0 {
        lemma_precedes_self(a.drop_first());
    }
}

/// The order of texts carries over a third.
pub proof fn lemma_precedes_transitive(a: Seq<u8>, b: Seq<u8>, c: Seq<u8>)
    requires
        precedes(a, b),
        precedes(b, c),
    ensures
        precedes(a, c),
    decreases a.len(),
{
    if a.len() > 0 && a[0] == b[0] && b[0] == c[0] {
        lemma_precedes_transitive(a.drop_first(), b.drop_first(), c.drop_first());
    }
}

/// Whether one text comes before another.
pub fn text_precedes(a: &str, b: &str) -> (r: bool)
    ensures
        r == precedes(utf8(a@), utf8(b@)),
{
    let x = a.as_bytes();
    let y = b.as_bytes();
    let mut i: usize = 0;
    while i < x.len() && i < y.len() && x[i] == y[i]
        invariant
            i <= x@.len(),
            i <= y@.len(),
            forall|j: int| 0 <= j < i ==> x@[j] == y@[j],
        decreases x@.len() - i,
    {
        i += 1;
    }
    proof {
        lemma_precedes_skip(x@, y@, i as int);
    }
    if i >= y.len() {
        false
    } else if i >= x.len() {
        true
    } else {
        x[i] < y[i]
    }
}

/// The texts ascend, so none repeats.
pub open spec fn ascending(v: Seq<Seq<char>>) -> bool {
    forall|i: int, j: int| 0 <= i < j < v.len() ==> precedes(utf8(#[trigger] v[i]), utf8(#[trigger] v[j]))
}

/// Puts a text into an ascending list, unless it is there.
fn insert_text(list: &mut Vec<String>, text: &str)
    requires
        ascending(texts(old(list)@)),
    ensures
        ascending(texts(final(list)@)),
        forall|t: Seq<char>| #[trigger]
            texts(final(list)@).contains(t) <==> (texts(old(list)@).contains(t) || t == text@),
{
    let ghost before = texts(list@);
    let mut i: usize = 0;
    while i < list.len() && text_precedes(list[i].as_str(), text)
        invariant
            i <= list@.len(),
            before == texts(list@),
            forall|j: int| 0 <= j < i ==> precedes(utf8(#[trigger] before[j]), utf8(text@)),
        decreases list@.len() - i,
    {
        assert(before[i as int] == list@[i as int]@);
        i += 1;
    }
    if i < list.len() && same(list[i].as_str(), text) {
        assert(before[i as int] == text@);
        return;
    }
    proof {
        if i < list@.len() {
            assert(before[i as int] == list@[i as int]@);
            lemma_precedes_total(utf8(before[i as int]), utf8(text@));
            if utf8(before[i as int]) == utf8(text@) {
                crate::text::lemma_utf8_injective(before[i as int], text@);
            }
        }
    }
    let owned = text.to_owned();
    list.insert(i, owned);
    proof {
        let after = texts(list@);
        assert(after =~= before.insert(i as int, text@));
        assert forall|j: int, k: int| 0 <= j < k < after.len() implies precedes(
            utf8(#[trigger] after[j]),
            utf8(#[trigger] after[k]),
        ) by {
            if k < i {
                assert(after[j] == before[j] && after[k] == before[k]);
            } else if k == i {
                assert(after[j] == before[j]);
            } else if j < i {
                assert(after[j] == before[j] && after[k] == before[k - 1]);
            } else if j == i {
                assert(after[k] == before[k - 1]);
                if k - 1 > i {
                    lemma_precedes_transitive(
                        utf8(text@),
                        utf8(before[i as int]),
                        utf8(before[k - 1]),
                    );
                }
            } else {
                assert(after[j] == before[j - 1] && after[k] == before[k - 1]);
            }
        }
        assert forall|t: Seq<char>| #[trigger] after.contains(t) <==> (before.contains(t) || t
            == text@) by {
            if after.contains(t) {
                let k = choose|k: int| 0 <= k < after.len() && after[k] == t;
                if k < i {
                    assert(before[k] == t);
                } else if k > i {
                    assert(before[k - 1] == t);
                }
            }
            if before.contains(t) {
                let k = choose|k: int| 0 <= k < before.len() && before[k] == t;
                if k < i {
                    assert(after[k] == t);
                } else {
                    assert(after[k + 1] == t);
                }
            }
            if t == text@ {
                assert(after[i as int] == t);
            }
        }
    }
}

// ── Fields ───────────────────────────────────────────────────────────────────

/// Where the library anchors the fields of one placed symbol, on the sheet;
/// nothing for a field it gives no anchor.
pub struct FieldTargets {
    pub reference: Option<PlaceText>,
    pub value: Option<PlaceText>,
}

/// What came of putting one field back.
#[derive(Debug, Clone, Copy, PartialEq, Eq, Structural)]
pub enum FieldOutcome {
    Moved,
    Unchanged,
    /// The library gives the field no anchor.
    NoAnchor,
    /// The library anchors the field, but the symbol does not carry it.
    NoProperty,
}

/// What comes of putting one field back.
pub open spec fn field_outcome(fs: Seq<Field>, name: Seq<char>, target: Option<PlaceText>) -> FieldOutcome {
    match target {
        Some(place) => match field_index(fs, name, 0) {
            Some(i) => if is_at(fs[i], place) {
                FieldOutcome::Unchanged
            } else {
                FieldOutcome::Moved
            },
            None => FieldOutcome::NoProperty,
        },
        None => FieldOutcome::NoAnchor,
    }
}

/// The fields of a symbol with one put back.
pub open spec fn field_reset(fs: Seq<Field>, name: Seq<char>, target: Option<PlaceText>) -> Seq<Field> {
    match target {
        Some(place) => match field_index(fs, name, 0) {
            Some(i) => fs.update(i, moved_field(fs[i], place)),
            None => fs,
        },
        None => fs,
    }
}

/// The fields of a symbol with Reference and Value put back.
pub open spec fn fields_reset(fs: Seq<Field>, targets: FieldTargets) -> Seq<Field> {
    field_reset(field_reset(fs, "Reference"@, targets.reference), "Value"@, targets.value)
}

fn reset_field(properties: &mut Vec<Property>, name: &str, target: &Option<PlaceText>) -> (r:
    FieldOutcome)
    ensures
        r == field_outcome(fields(old(properties)@), name@, *target),
        fields(final(properties)@) == field_reset(fields(old(properties)@), name@, *target),
{
    let place = match target {
        Some(p) => p,
        None => {
            return FieldOutcome::NoAnchor;
        },
    };
    let ghost fs = fields(properties@);
    let mut i: usize = 0;
    while i < properties.len()
        invariant
            i <= properties@.len(),
            properties@ == old(properties)@,
            fs == fields(properties@),
            *target == Some(*place),
            field_index(fs, name@, 0) == field_index(fs, name@, i as int),
        decreases properties@.len() - i,
    {
        assert(fs[i as int] == properties@[i as int]@);
        if same(properties[i].name.as_str(), name) {
            let changed = set_property_at(&mut properties[i], place);
            assert(fields(properties@) =~= fs.update(i as int, moved_field(fs[i as int], *place)));
            return if changed {
                FieldOutcome::Moved
            } else {
                FieldOutcome::Unchanged
            };
        }
        i += 1;
    }
    FieldOutcome::NoProperty
}

// ── The whole sheet ──────────────────────────────────────────────────────────

/// What a reset did, field by field, each as `designator.field`.
pub struct ResetReport {
    pub moved: Vec<String>,
    pub unchanged: Vec<String>,
    pub no_anchor: Vec<String>,
    pub no_property: Vec<String>,
    /// The designators asked for that no symbol bears, in order.
    pub not_found: Vec<String>,
}

/// What a reset did as a mathematical value.
#[verifier::ext_equal]
pub struct Reset {
    pub moved: Seq<Seq<char>>,
    pub unchanged: Seq<Seq<char>>,
    pub no_anchor: Seq<Seq<char>>,
    pub no_property: Seq<Seq<char>>,
}

impl Reset {
    /// One more field.
    pub open spec fn note(self, outcome: FieldOutcome, note: Seq<char>) -> Reset {
        match outcome {
            FieldOutcome::Moved => Reset { moved: self.moved.push(note), ..self },
            FieldOutcome::Unchanged => Reset { unchanged: self.unchanged.push(note), ..self },
            FieldOutcome::NoAnchor => Reset { no_anchor: self.no_anchor.push(note), ..self },
            FieldOutcome::NoProperty => Reset { no_property: self.no_property.push(note), ..self },
        }
    }
}

impl ResetReport {
    /// What became of each field.
    pub open spec fn outcomes(&self) -> Reset {
        Reset {
            moved: texts(self.moved@),
            unchanged: texts(self.unchanged@),
            no_anchor: texts(self.no_anchor@),
            no_property: texts(self.no_property@),
        }
    }

    fn note(&mut self, outcome: FieldOutcome, note: String)
        ensures
            final(self).outcomes() == old(self).outcomes().note(outcome, note@),
            final(self).not_found == old(self).not_found,
    {
        let ghost before = *self;
        match outcome {
            FieldOutcome::Moved => {
                self.moved.push(note);
                assert(texts(self.moved@) =~= texts(before.moved@).push(note@));
            },
            FieldOutcome::Unchanged => {
                self.unchanged.push(note);
                assert(texts(self.unchanged@) =~= texts(before.unchanged@).push(note@));
            },
            FieldOutcome::NoAnchor => {
                self.no_anchor.push(note);
                assert(texts(self.no_anchor@) =~= texts(before.no_anchor@).push(note@));
            },
            FieldOutcome::NoProperty => {
                self.no_property.push(note);
                assert(texts(self.no_property@) =~= texts(before.no_property@).push(note@));
            },
        }
    }

    /// Whether there is anything to write.
    pub fn writes(&self, dry_run: bool) -> (r: bool)
        ensures
            r == (self.moved@.len() > 0 && !dry_run),
    {
        self.moved.len() > 0 && !dry_run
    }
}

/// The symbol has a designator, and is among those asked for.
pub open spec fn resets(sym: Symbol, only: Option<Seq<Seq<char>>>) -> bool {
    sym.designator() matches Some(r) && asked(only, r)
}

/// The fields of a symbol after a reset.
pub open spec fn symbol_reset(
    sym: Symbol,
    targets: FieldTargets,
    only: Option<Seq<Seq<char>>>,
) -> Seq<Field> {
    let fs = fields(sym.properties@);
    if resets(sym, only) {
        fields_reset(fs, targets)
    } else {
        fs
    }
}

/// What a reset of the first `n` symbols did.
pub open spec fn reset_below(
    all: Seq<Symbol>,
    targets: Seq<FieldTargets>,
    only: Option<Seq<Seq<char>>>,
    n: int,
) -> Reset
    decreases n,
{
    if n <= 0 {
        Reset {
            moved: Seq::empty(),
            unchanged: Seq::empty(),
            no_anchor: Seq::empty(),
            no_property: Seq::empty(),
        }
    } else {
        let before = reset_below(all, targets, only, n - 1);
        let fs = fields(all[n - 1].properties@);
        let t = targets[n - 1];
        if resets(all[n - 1], only) {
            let r = all[n - 1].designator()->0;
            before.note(
                field_outcome(fs, "Reference"@, t.reference),
                r + "."@ + "Reference"@,
            ).note(
                field_outcome(field_reset(fs, "Reference"@, t.reference), "Value"@, t.value),
                r + "."@ + "Value"@,
            )
        } else {
            before
        }
    }
}

/// Some symbol bears the designator.
pub open spec fn borne(all: Seq<Symbol>, reference: Seq<char>) -> bool {
    exists|i: int| 0 <= i < all.len() && (#[trigger] all[i]).designator() == Some(reference)
}

/// Two symbols differ at most in their properties.
pub open spec fn same_but_fields(a: Symbol, b: Symbol) -> bool {
    &&& a.lib_id == b.lib_id
    &&& a.x == b.x
    &&& a.y == b.y
    &&& a.rotation == b.rotation
    &&& a.mirror == b.mirror
    &&& a.unit == b.unit
    &&& a.uuid == b.uuid
    &&& a.instances == b.instances
}

fn is_borne(all: &Vec<Symbol>, reference: &str) -> (r: bool)
    ensures
        r == borne(all@, reference@),
{
    let mut i: usize = 0;
    while i < all.len()
        invariant
            i <= all@.len(),
            forall|k: int|
                0 <= k < i ==> (#[trigger] all@[k]).designator() != Some(reference@),
        decreases all@.len() - i,
    {
        if let Some(r) = all[i].field("Reference") {
            if same(r, reference) {
                assert(all@[i as int].designator() == Some(reference@));
                return true;
            }
        }
        i += 1;
    }
    false
}

fn missing_references(all: &Vec<Symbol>, only: &Option<Vec<String>>) -> (r: Vec<String>)
    ensures
        ascending(texts(r@)),
        forall|t: Seq<char>| #[trigger]
            texts(r@).contains(t) <==> (only_view(*only) matches Some(refs) && refs.contains(t)
                && !borne(all@, t)),
{
    let mut out: Vec<String> = Vec::new();
    assert(texts(out@) =~= Seq::empty());
    if let Some(refs) = only {
        let ghost wanted = texts(refs@);
        let mut i: usize = 0;
        while i < refs.len()
            invariant
                i <= refs@.len(),
                wanted == texts(refs@),
                ascending(texts(out@)),
                forall|t: Seq<char>| #[trigger]
                    texts(out@).contains(t) <==> (wanted.take(i as int).contains(t) && !borne(
                        all@,
                        t,
                    )),
            decreases refs@.len() - i,
        {
            let ghost before = texts(out@);
            assert(wanted[i as int] == refs@[i as int]@);
            if !is_borne(all, refs[i].as_str()) {
                insert_text(&mut out, refs[i].as_str());
            }
            proof {
                let one = refs@[i as int]@;
                assert(wanted.take(i + 1) =~= wanted.take(i as int).push(one));
                assert forall|t: Seq<char>| #[trigger]
                    texts(out@).contains(t) <==> (wanted.take(i + 1).contains(t) && !borne(
                        all@,
                        t,
                    )) by {
                    let short = wanted.take(i as int);
                    let long = wanted.take(i + 1);
                    if long.contains(t) {
                        let k = choose|k: int| 0 <= k < long.len() && long[k] == t;
                        if k < i {
                            assert(short[k] == t);
                        }
                    }
                    if short.contains(t) {
                        let k = choose|k: int| 0 <= k < short.len() && short[k] == t;
                        assert(long[k] == t);
                    }
                    if t == one {
                        assert(long[i as int] == t);
                    }
                }
            }
            i += 1;
        }
        assert(wanted.take(i as int) =~= wanted);
    }
    out
}

/// Puts Reference and Value of every symbol asked for where the library
/// anchors them, and reports every field.
pub fn reset_field_positions(
    symbols: &mut Vec<Symbol>,
    targets: &Vec<FieldTargets>,
    only: &Option<Vec<String>>,
) -> (r: ResetReport)
    requires
        targets@.len() == old(symbols)@.len(),
    ensures
        r.outcomes() == reset_below(
            old(symbols)@,
            targets@,
            only_view(*only),
            old(symbols)@.len() as int,
        ),
        ascending(texts(r.not_found@)),
        forall|t: Seq<char>| #[trigger]
            texts(r.not_found@).contains(t) <==> (only_view(*only) matches Some(refs)
                && refs.contains(t) && !borne(old(symbols)@, t)),
        final(symbols)@.len() == old(symbols)@.len(),
        forall|i: int|
            0 <= i < final(symbols)@.len() ==> {
                &&& same_but_fields(#[trigger] final(symbols)@[i], old(symbols)@[i])
                &&& fields(final(symbols)@[i].properties@) == symbol_reset(
                    old(symbols)@[i],
                    targets@[i],
                    only_view(*only),
                )
            },
{
    let ghost before = symbols@;
    let ghost wanted = only_view(*only);
    let mut report = ResetReport {
        moved: Vec::new(),
        unchanged: Vec::new(),
        no_anchor: Vec::new(),
        no_property: Vec::new(),
        not_found: missing_references(symbols, only),
    };
    let ghost missing = report.not_found;
    assert(report.outcomes() =~= reset_below(before, targets@, wanted, 0));
    let mut i: usize = 0;
    while i < symbols.len()
        invariant
            i <= symbols@.len(),
            symbols@.len() == before.len(),
            before == old(symbols)@,
            targets@.len() == before.len(),
            wanted == only_view(*only),
            report.outcomes() == reset_below(before, targets@, wanted, i as int),
            report.not_found == missing,
            forall|k: int| i <= k < before.len() ==> #[trigger] symbols@[k] == before[k],
            forall|k: int|
                0 <= k < i ==> {
                    &&& same_but_fields(#[trigger] symbols@[k], before[k])
                    &&& fields(symbols@[k].properties@) == symbol_reset(
                        before[k],
                        targets@[k],
                        wanted,
                    )
                },
        decreases symbols@.len() - i,
    {
        let ghost now = symbols@;
        assert(now[i as int] == before[i as int]);
        let reference: Option<String> = match symbols[i].field("Reference") {
            Some(r) => Some(r.to_owned()),
            None => None,
        };
        if let Some(r) = reference {
            let chosen = match only {
                Some(refs) => list_contains(refs, r.as_str()),
                None => true,
            };
            if chosen {
                let sym = &mut symbols[i];
                let first = reset_field(&mut sym.properties, "Reference", &targets[i].reference);
                let second = reset_field(&mut sym.properties, "Value", &targets[i].value);
                report.note(first, join3(r.as_str(), ".", "Reference"));
                report.note(second, join3(r.as_str(), ".", "Value"));
            }
        }
        i += 1;
    }
    report
}

// ── Resetting twice ──────────────────────────────────────────────────────────

/// Putting a field back keeps the names and the values of all fields.
pub proof fn lemma_field_reset(fs: Seq<Field>, name: Seq<char>, target: Option<PlaceText>)
    ensures
        field_reset(fs, name, target).len() == fs.len(),
        forall|i: int|
            0 <= i < fs.len() ==> (#[trigger] field_reset(fs, name, target)[i]).name == fs[i].name
                && field_reset(fs, name, target)[i].value == fs[i].value,
        forall|i: int|
            0 <= i < fs.len() && fs[i].name != name ==> #[trigger] field_reset(fs, name, target)[i]
                == fs[i],
{
    lemma_field_index(fs, name, 0);
    if let Some(place) = target {
        if let Some(i) = field_index(fs, name, 0) {
            law_move_field_once(fs[i], place);
        }
    }
}

/// Fields of the same names are found at the same places.
pub proof fn lemma_same_names(a: Seq<Field>, b: Seq<Field>, name: Seq<char>, i: int)
    requires
        0 <= i,
        a.len() == b.len(),
        forall|k: int| 0 <= k < a.len() ==> (#[trigger] a[k]).name == b[k].name,
    ensures
        field_index(a, name, i) == field_index(b, name, i),
    decreases a.len() - i,
{
    if i < a.len() {
        assert(a[i].name == b[i].name);
        lemma_same_names(a, b, name, i + 1);
    }
}

/// A field that was put back need not be moved again.
proof fn lemma_reset_field_again(fs: Seq<Field>, now: Seq<Field>, name: Seq<char>, target: Option<PlaceText>)
    requires
        now.len() == fs.len(),
        forall|k: int| 0 <= k < fs.len() ==> (#[trigger] now[k]).name == fs[k].name,
        forall|k: int|
            0 <= k < fs.len() && fs[k].name == name ==> #[trigger] now[k] == field_reset(
                fs,
                name,
                target,
            )[k],
    ensures
        !(field_outcome(now, name, target) is Moved),
        field_reset(now, name, target) == now,
{
    lemma_same_names(fs, now, name, 0);
    lemma_field_index(fs, name, 0);
    if let Some(place) = target {
        if let Some(i) = field_index(fs, name, 0) {
            law_move_field_once(fs[i], place);
            assert(now[i] == moved_field(fs[i], place));
            assert(field_reset(now, name, target) =~= now);
        }
    }
}

proof fn lemma_symbol_reset_again(fs: Seq<Field>, targets: FieldTargets)
    ensures
        ({
            let now = fields_reset(fs, targets);
            let once = field_reset(now, "Reference"@, targets.reference);
            &&& !(field_outcome(now, "Reference"@, targets.reference) is Moved)
            &&& once == now
            &&& !(field_outcome(once, "Value"@, targets.value) is Moved)
            &&& fields_reset(now, targets) == now
            &&& field_value(now, "Reference"@) == field_value(fs, "Reference"@)
        }),
{
    reveal_strlit("Reference");
    reveal_strlit("Value");
    assert("Reference"@.len() != "Value"@.len());
    let mid = field_reset(fs, "Reference"@, targets.reference);
    let now = fields_reset(fs, targets);
    lemma_field_reset(fs, "Reference"@, targets.reference);
    lemma_field_reset(mid, "Value"@, targets.value);
    assert forall|k: int| 0 <= k < fs.len() implies (#[trigger] now[k]).name == fs[k].name && now[k].value
        == fs[k].value by {
        assert(mid[k].name == fs[k].name);
    }
    assert forall|k: int| 0 <= k < fs.len() && fs[k].name == "Reference"@ implies #[trigger] now[k]
        == mid[k] by {
        assert(mid[k].name != "Value"@);
    }
    lemma_reset_field_again(fs, now, "Reference"@, targets.reference);
    lemma_reset_field_again(mid, now, "Value"@, targets.value);
    lemma_same_names(fs, now, "Reference"@, 0);
    lemma_field_index(fs, "Reference"@, 0);
}

/// A second reset finds nothing left to move and changes nothing: every field
/// it is about stays as the first one left it.
pub proof fn law_reset_twice(
    all: Seq<Symbol>,
    after: Seq<Symbol>,
    targets: Seq<FieldTargets>,
    only: Option<Seq<Seq<char>>>,
    n: int,
)
    requires
        after.len() == all.len(),
        targets.len() == all.len(),
        0 <= n <= all.len(),
        forall|i: int|
            0 <= i < all.len() ==> fields((#[trigger] after[i]).properties@) == symbol_reset(
                all[i],
                targets[i],
                only,
            ),
    ensures
        reset_below(after, targets, only, n).moved.len() == 0,
        forall|i: int|
            0 <= i < n ==> symbol_reset(#[trigger] after[i], targets[i], only) == fields(
                after[i].properties@,
            ),
    decreases n,
{
    if n > 0 {
        law_reset_twice(all, after, targets, only, n - 1);
        let i = n - 1;
        assert(fields(after[i].properties@) == symbol_reset(all[i], targets[i], only));
        lemma_symbol_reset_again(fields(all[i].properties@), targets[i]);
    }
}

} // verus!
