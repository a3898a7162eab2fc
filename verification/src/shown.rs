//! What the units of a component show of their properties after an edit.

use vstd::prelude::*;
use crate::args::{member, text_arg, Json};
use crate::carried::{
    bare, field_ready, law_field_on_every_unit, lemma_absent_free, lemma_added_value, lemma_carries,
    lemma_names_differ, lemma_of_property, lemma_start_bytes, lemma_unescaped, lemma_unit_end,
    lemma_value_place, lemma_value_swappable, lemma_with_property, mild, tame, unit_after,
    unit_text, value_tame, with_property,
};
use crate::components::{annotated, component_edited, edit_failure, Editing};
use crate::graft::{
    free, lemma_graft_bytes, lemma_graft_occurs, lemma_stops, moved, opens_at, unmarked,
};
use crate::numeral::PointText;
use crate::quote::escaped;
use crate::properties::{
    carries, holds, new_property, property_indent, property_set, value_replaced, Reach,
};
use crate::rename::renamed;
use crate::symbols::instance_blocks;
use crate::text::{
    first_at, lemma_byte_absent, lemma_first_at, lemma_occurs, lemma_one_byte, lemma_utf8_add,
    occurs, occurs_at, spliced, utf8,
};

verus! {

// ── A property and its value ─────────────────────────────────────────────────

/// How a property of a name begins.
pub open spec fn opening(name: Seq<char>) -> Seq<u8> {
    utf8("(property \""@ + name + "\" \""@)
}

/// A property of a name with a value, up to the quote behind the value.
pub open spec fn written(name: Seq<char>, value: Seq<u8>) -> Seq<u8> {
    opening(name) + value + seq![0x22u8]
}

/// The first property of a name in a text has that value.
pub open spec fn shows(text: Seq<u8>, name: Seq<char>, value: Seq<u8>) -> bool {
    first_at(text, opening(name), 0) matches Some(o) && occurs_at(text, written(name, value), o)
}

/// The text has a property of that name.
pub open spec fn has_property(text: Seq<u8>, name: Seq<char>) -> bool {
    first_at(text, opening(name), 0) is Some
}

/// Two texts show the same value for a property, whatever it is.
pub open spec fn shows_alike(a: Seq<u8>, b: Seq<u8>, name: Seq<char>) -> bool {
    &&& has_property(a, name) <==> has_property(b, name)
    &&& forall|v: Seq<u8>| no_quote(v) ==> (#[trigger] shows(a, name, v) <==> shows(b, name, v))
}

/// A value ends at the first quote.
pub open spec fn no_quote(v: Seq<u8>) -> bool {
    forall|i: int| 0 <= i < v.len() ==> #[trigger] v[i] != 0x22
}

/// The value of a property in a text ends, and can be exchanged.
spec fn settled(text: Seq<u8>, name: Seq<char>, o: int, e: int) -> bool {
    let a = o + opening(name).len();
    &&& first_at(text, opening(name), 0) == Some(o)
    &&& first_at(text, utf8("\""@), a) == Some(e)
    &&& mild(text.subrange(a, e))
    &&& forall|i: int| a <= i < e ==> #[trigger] text[i] != 0x5c
}

proof fn lemma_quote()
    ensures
        utf8("\""@) == seq![0x22u8],
{
    reveal_strlit("\"");
    lemma_one_byte("\""@);
    assert(utf8("\""@) =~= seq![0x22u8]);
}

/// Where the value of a settled property stands.
proof fn lemma_settled(text: Seq<u8>, name: Seq<char>, o: int, e: int)
    requires
        unmarked(name),
        settled(text, name, o, e),
    ensures
        ({
            let head = opening(name);
            let a = o + head.len();
            &&& 0 <= o < a <= e < text.len()
            &&& text[e] == 0x22
            &&& forall|i: int| a <= i < e ==> #[trigger] text[i] != 0x22
            &&& text.subrange(o, e + 1) == written(name, text.subrange(a, e))
            &&& forall|i: int| o <= i < a ==> #[trigger] text[i] == head[i - o]
        }),
{
    let head = opening(name);
    let a = o + head.len();
    let quote = utf8("\""@);
    lemma_quote();
    lemma_start_bytes(name);
    lemma_first_at(text, head, 0);
    lemma_first_at(text, quote, a);
    assert(text.subrange(e, e + 1)[0] == text[e]);
    assert forall|i: int| a <= i < e implies #[trigger] text[i] != 0x22 by {
        if text[i] == 0x22 {
            assert(text.subrange(i, i + 1) =~= quote);
            assert(occurs_at(text, quote, i));
        }
    }
    assert forall|i: int| o <= i < a implies #[trigger] text[i] == head[i - o] by {
        assert(text.subrange(o, a)[i - o] == text[i]);
    }
    assert(text.subrange(o, e + 1) =~= written(name, text.subrange(a, e)));
}

/// A property that was given a value shows it.
#[verifier::spinoff_prover]
#[verifier::rlimit(40)]
proof fn lemma_set_shows(text: Seq<u8>, name: Seq<char>, value: Seq<char>, o: int, e: int)
    requires
        unmarked(name),
        settled(text, name, o, e),
    ensures
        shows(spliced(text, o + opening(name).len(), e, utf8(value)), name, utf8(value)),
{
    let head = opening(name);
    let a = o + head.len();
    let v = utf8(value);
    let now = spliced(text, a, e, v);
    lemma_settled(text, name, o, e);
    lemma_graft_bytes(text, a, e, v);
    lemma_start_bytes(name);
    assert(now.subrange(o, a) =~= head) by {
        assert forall|i: int| 0 <= i < head.len() implies now[o + i] == #[trigger] head[i] by {
            assert(now[o + i] == text[o + i]);
        }
    }
    assert(occurs_at(now, head, o));
    lemma_first_at(text, head, 0);
    lemma_first_at(now, head, 0);
    let f = first_at(now, head, 0)->0;
    if f < o {
        assert(text.subrange(f, f + head.len()) =~= now.subrange(f, f + head.len()));
        assert(occurs_at(text, head, f));
    }
    lemma_line(text, head, v, o, e);
}

/// Bytes put between a head and a quote.
proof fn lemma_line(text: Seq<u8>, head: Seq<u8>, v: Seq<u8>, o: int, e: int)
    requires
        0 <= o,
        o + head.len() <= e < text.len(),
        forall|i: int| o <= i < o + head.len() ==> #[trigger] text[i] == head[i - o],
        text[e] == 0x22,
    ensures
        spliced(text, o + head.len(), e, v).subrange(o, o + head.len() + v.len() + 1) == head + v
            + seq![0x22u8],
{
    let a = o + head.len();
    assert(text.subrange(0, a).subrange(o, a) =~= head);
    assert(spliced(text, a, e, v).subrange(o, a + v.len() + 1) =~= head + v + seq![0x22u8]);
}

/// Where a property of another name stands in a text in which one was given a
/// value.
#[verifier::spinoff_prover]
#[verifier::rlimit(60)]
proof fn lemma_set_places(
    text: Seq<u8>,
    name: Seq<char>,
    value: Seq<char>,
    other: Seq<char>,
    o: int,
    e: int,
)
    requires
        unmarked(name),
        unmarked(other),
        other != name,
        tame(value),
        settled(text, name, o, e),
    ensures
        ({
            let head = opening(name);
            let p = opening(other);
            let n = written(name, utf8(value));
            let now = spliced(text, o + head.len(), e, utf8(value));
            let by = n.len() - (e + 1 - o);
            &&& now == spliced(text, o, e + 1, n)
            &&& forall|i: int|
                0 <= i && (i < o || e + 1 <= i) ==> (#[trigger] occurs_at(text, p, i) <==> occurs_at(
                    now,
                    p,
                    moved(i, o, by),
                ))
            &&& forall|i: int| #[trigger] occurs_at(text, p, i) && i < o ==> i + p.len() <= o
            &&& free(text, p, o, e + 1)
            &&& free(now, p, o, o + n.len())
        }),
{
    let head = opening(name);
    let p = opening(other);
    let a = o + head.len();
    let v = utf8(value);
    let old_value = text.subrange(a, e);
    let gone = text.subrange(o, e + 1);
    let n = written(name, v);
    let now = spliced(text, a, e, v);
    let by = n.len() - (e + 1 - o);
    lemma_settled(text, name, o, e);
    lemma_start_bytes(name);
    lemma_start_bytes(other);
    lemma_names_differ(name, other);
    lemma_of_property(other, other);
    lemma_byte_absent(value, '"');
    lemma_byte_absent(value, '\\');
    assert(now =~= spliced(text, o, e + 1, n)) by {
        assert forall|i: int| 0 <= i < head.len() implies text[o + i] == #[trigger] head[i] by {}
    }
    assert forall|i: int| 0 <= i < old_value.len() implies #[trigger] old_value[i] != 0x22
        && old_value[i] != 0x5c by {
        assert(old_value[i] == text[a + i]);
    }
    lemma_value_swappable(name, old_value, p);
    lemma_value_swappable(name, v, p);
    lemma_graft_bytes(text, o, e + 1, n);
    assert(occurs_at(text, gone, o));
    lemma_absent_free(text, o, gone, p);
    lemma_absent_free(now, o, n, p);
    assert(n[0] == head[0]);
    assert(text[o] == head[0]);
    assert(opens_at(n, 0));
    lemma_stops(p, text[o], n);
    assert forall|i: int| 0 <= i && (i < o || e + 1 <= i) implies (#[trigger] occurs_at(text, p, i)
        <==> occurs_at(now, p, moved(i, o, by))) && (i < o && occurs_at(text, p, i) ==> i + p.len()
        <= o) by {
        lemma_graft_occurs(text, o, e + 1, n, p, i);
    }
}

/// A property of another name shows what it showed.
#[verifier::spinoff_prover]
#[verifier::rlimit(40)]
proof fn lemma_set_leaves(
    text: Seq<u8>,
    name: Seq<char>,
    value: Seq<char>,
    other: Seq<char>,
    o: int,
    e: int,
)
    requires
        unmarked(name),
        unmarked(other),
        other != name,
        tame(value),
        settled(text, name, o, e),
    ensures
        shows_alike(text, spliced(text, o + opening(name).len(), e, utf8(value)), other),
{
    let head = opening(name);
    let p = opening(other);
    let a = o + head.len();
    let n = written(name, utf8(value));
    let now = spliced(text, a, e, utf8(value));
    let by = n.len() - (e + 1 - o);
    lemma_settled(text, name, o, e);
    lemma_start_bytes(name);
    lemma_start_bytes(other);
    lemma_set_places(text, name, value, other, o, e);
    lemma_graft_bytes(text, o, e + 1, n);
    lemma_first_at(text, p, 0);
    lemma_first_at(now, p, 0);
    if let Some(i) = first_at(text, p, 0) {
        assert(i < o || e + 1 <= i);
        assert(occurs_at(now, p, moved(i, o, by)));
    }
    if let Some(j) = first_at(now, p, 0) {
        assert(j < o || o + n.len() <= j);
        let i = if j < o {
            j
        } else {
            j - by
        };
        assert(moved(i, o, by) == j);
        assert(occurs_at(text, p, i));
        let f = first_at(text, p, 0)->0;
        assert(f <= i);
        assert(occurs_at(now, p, moved(f, o, by)));
        assert(j == moved(f, o, by));
        assert(f == i);
        assert forall|v: Seq<u8>| no_quote(v) implies (#[trigger] shows(text, other, v) <==> shows(
            now,
            other,
            v,
        )) by {
            lemma_value_stays(text, name, utf8(value), other, o, e, v, i);
        }
    }
}

/// The value behind a property of another name stays behind it.
proof fn lemma_value_stays(
    text: Seq<u8>,
    name: Seq<char>,
    value: Seq<u8>,
    other: Seq<char>,
    o: int,
    e: int,
    v: Seq<u8>,
    i: int,
)
    requires
        unmarked(name),
        unmarked(other),
        settled(text, name, o, e),
        occurs_at(text, opening(other), i),
        i < o ==> i + opening(other).len() <= o,
        i < o || e + 1 <= i,
        no_quote(v),
    ensures
        ({
            let n = written(name, value);
            let now = spliced(text, o, e + 1, n);
            occurs_at(text, written(other, v), i) <==> occurs_at(
                now,
                written(other, v),
                moved(i, o, n.len() - (e + 1 - o)),
            )
        }),
{
    let head = opening(name);
    let p = opening(other);
    let n = written(name, value);
    let now = spliced(text, o, e + 1, n);
    let by = n.len() - (e + 1 - o);
    let a = o + head.len();
    let x = written(other, v);
    lemma_settled(text, name, o, e);
    lemma_start_bytes(name);
    lemma_start_bytes(other);
    lemma_graft_bytes(text, o, e + 1, n);
    assert forall|k: int| o <= k < a implies #[trigger] now[k] == text[k] by {
        assert(now[o + (k - o)] == n[k - o]);
        assert(n[k - o] == head[k - o]);
    }
    if i >= e + 1 {
        if i + x.len() <= text.len() {
            assert(text.subrange(i, i + x.len()) =~= now.subrange(i + by, i + by + x.len())) by {
                assert forall|k: int| 0 <= k < x.len() implies text[i + k] == #[trigger] now[i + by
                    + k] by {
                    assert(text[i + k] == now[(i + k) + by]);
                }
            }
        }
    } else if i + x.len() <= a {
        assert(text.subrange(i, i + x.len()) =~= now.subrange(i, i + x.len()));
    } else {
        // The quote behind `(property ` would have to be inside the value.
        reveal_strlit("(property \"");
        vstd::utf8::is_ascii_chars_encode_utf8("(property \""@);
        assert(head[10] == 0x22);
        assert(text[o + 10] == 0x22);
        assert(now[o + 10] == 0x22);
        let d = o + 10 - i;
        assert(x[d] == v[d - p.len()]);
        if occurs_at(text, x, i) {
            assert(text.subrange(i, i + x.len())[d] == text[i + d]);
        }
        if occurs_at(now, x, i) {
            assert(now.subrange(i, i + x.len())[d] == now[i + d]);
        }
    }
}

// ── A property of every unit ─────────────────────────────────────────────────

/// The property of a unit is settled in its text.
proof fn lemma_unit_settled(s: Seq<u8>, reference: Seq<char>, k: int, name: Seq<char>) -> (r: (
    int,
    int,
))
    requires
        0 <= k < instance_blocks(s, reference).len(),
        unmarked(name),
        holds(s, instance_blocks(s, reference)[k], name),
        value_tame(s, instance_blocks(s, reference)[k], name),
    ensures
        settled(unit_text(s, reference, k), name, r.0, r.1),
{
    let b = instance_blocks(s, reference)[k];
    let text = unit_text(s, reference, k);
    lemma_value_place(s, reference, k, name);
    lemma_unit_end(s, reference, k);
    let o = first_at(text, opening(name), 0)->0;
    let a = o + opening(name).len();
    let e = first_at(text, utf8("\""@), a)->0;
    lemma_first_at(text, opening(name), 0);
    lemma_first_at(text, utf8("\""@), a);
    assert(text.subrange(a, e) =~= s.subrange(b.0 + a, b.0 + e));
    assert forall|i: int| a <= i < e implies #[trigger] text[i] != 0x5c by {
        assert(text[i] == s[b.0 + i]);
    }
    (o, e)
}

/// Replacing the value of a property gives it that value on every unit that
/// has it. Every other property of every unit shows what it showed, and the
/// units stay as many.
pub proof fn law_replaced_value_is_shown(
    s: Seq<u8>,
    reference: Seq<char>,
    name: Seq<char>,
    value: Seq<char>,
    k: int,
)
    requires
        value_replaced(s, reference, name, value) is Ok,
        field_ready(s, reference, name, value, Seq::empty(), (Reach { set: true, add: false })),
        0 <= k < instance_blocks(s, reference).len(),
    ensures
        ({
            let t = value_replaced(s, reference, name, value)->Ok_0;
            let before = unit_text(s, reference, k);
            let after = unit_text(t, reference, k);
            &&& instance_blocks(t, reference).len() == instance_blocks(s, reference).len()
            &&& has_property(before, name) ==> shows(after, name, utf8(value))
            &&& !has_property(before, name) ==> after == before
            &&& forall|other: Seq<char>|
                unmarked(other) && other != name ==> #[trigger] shows_alike(before, after, other)
        }),
{
    let reach = Reach { set: true, add: false };
    let none = Seq::<PointText>::empty();
    let t = value_replaced(s, reference, name, value)->Ok_0;
    let before = unit_text(s, reference, k);
    let after = unit_text(t, reference, k);
    law_field_on_every_unit(s, reference, name, value, none, reach);
    assert(after == unit_after(before, name, value, none[k], reach));
    if has_property(before, name) {
        assert(holds(s, instance_blocks(s, reference)[k], name));
        lemma_unescaped(value);
        let (o, e) = lemma_unit_settled(s, reference, k, name);
        lemma_set_shows(before, name, value, o, e);
        assert forall|other: Seq<char>| unmarked(other) && other != name implies
            #[trigger] shows_alike(before, after, other) by {
            lemma_set_leaves(before, name, value, other, o, e);
        }
    }
}

/// Setting a property gives it that value on every unit, where it was and
/// where it was not, and leaves every other property as it was. One that is
/// added is written with escapes.
pub proof fn law_set_property_is_shown(
    s: Seq<u8>,
    reference: Seq<char>,
    name: Seq<char>,
    value: Seq<char>,
    places: Seq<PointText>,
    k: int,
)
    requires
        property_set(s, reference, name, value, places) is Ok,
        field_ready(s, reference, name, value, places, (Reach { set: true, add: true })),
        bare(value),
        0 <= k < instance_blocks(s, reference).len(),
    ensures
        ({
            let t = property_set(s, reference, name, value, places)->Ok_0;
            let before = unit_text(s, reference, k);
            let after = unit_text(t, reference, k);
            &&& instance_blocks(t, reference).len() == instance_blocks(s, reference).len()
            &&& shows(after, name, utf8(value))
            &&& forall|other: Seq<char>|
                unmarked(other) && other != name ==> (has_property(before, other)
                    <==> #[trigger] has_property(after, other))
            &&& has_property(before, name) ==> forall|other: Seq<char>|
                unmarked(other) && other != name ==> #[trigger] shows_alike(before, after, other)
        }),
{
    let reach = Reach { set: true, add: true };
    let t = property_set(s, reference, name, value, places)->Ok_0;
    let before = unit_text(s, reference, k);
    let after = unit_text(t, reference, k);
    law_field_on_every_unit(s, reference, name, value, places, reach);
    assert(after == unit_after(before, name, value, places[k], reach));
    lemma_unescaped(value);
    lemma_unit_end(s, reference, k);
    if has_property(before, name) {
        assert(holds(s, instance_blocks(s, reference)[k], name));
        let (o, e) = lemma_unit_settled(s, reference, k, name);
        lemma_set_shows(before, name, value, o, e);
        assert forall|other: Seq<char>| unmarked(other) && other != name implies
            #[trigger] shows_alike(before, after, other) by {
            lemma_set_leaves(before, name, value, other, o, e);
        }
        assert forall|other: Seq<char>| unmarked(other) && other != name implies (has_property(
            before,
            other,
        ) <==> #[trigger] has_property(after, other)) by {
            assert(shows_alike(before, after, other));
        }
    } else {
        let b = instance_blocks(s, reference)[k];
        assert(unmarked(places[k].x@) && unmarked(places[k].y@));
        assert(before.last() == s[b.1 - 1]);
        assert(after == with_property(before, name, value, places[k]));
        lemma_added_value(before, name, value, places[k]);
        let head = opening(name);
        let o = first_at(after, head, 0)->0;
        let a = o + head.len();
        let v = utf8(value);
        let w = written(name, v);
        lemma_first_at(after, head, 0);
        assert(after.subrange(o, o + w.len()) =~= w) by {
            assert forall|i: int| 0 <= i < w.len() implies after[o + i] == #[trigger] w[i] by {
                if i < head.len() {
                    assert(after.subrange(o, o + head.len())[i] == after[o + i]);
                } else if i < head.len() + v.len() {
                    assert(after.subrange(a, a + v.len())[i - head.len()] == after[o + i]);
                }
            }
        }
        assert forall|other: Seq<char>| unmarked(other) && other != name implies (has_property(
            before,
            other,
        ) <==> #[trigger] has_property(after, other)) by {
            let p = opening(other);
            lemma_occurs(before, p);
            lemma_occurs(after, p);
            assert forall|i: int| occurs_at(after, p, i) <==> occurs_at(before, p, i) by {
                lemma_with_property(before, name, value, places[k], other, i);
            }
            if has_property(before, other) {
                let i = choose|i: int| occurs_at(before, p, i);
                assert(occurs_at(after, p, i));
            }
            if has_property(after, other) {
                let i = choose|i: int| occurs_at(after, p, i);
                assert(occurs_at(before, p, i));
            }
        }
    }
}

// ── An edit of a component ───────────────────────────────────────────────────

/// The arguments of an edit that say what to change.
pub open spec fn change_keys() -> Seq<Seq<char>> {
    seq!["value"@, "footprint"@, "datasheet"@, "fields"@, "new_reference"@]
}

/// Arguments ask for one change at most.
pub open spec fn asks_only(args: Json, key: Seq<char>) -> bool {
    forall|i: int|
        0 <= i < change_keys().len() && #[trigger] change_keys()[i] != key ==> member(
            args,
            change_keys()[i],
        ) is None
}

/// A part of the arguments of an edit: it asks for one of the changes, as they do.
pub open spec fn part_of(part: Json, args: Json, key: Seq<char>) -> bool {
    asks_only(part, key) && member(part, key) == member(args, key)
}

proof fn lemma_keys()
    ensures
        change_keys()[0] == "value"@,
        change_keys()[1] == "footprint"@,
        change_keys()[2] == "datasheet"@,
        change_keys()[3] == "fields"@,
        change_keys()[4] == "new_reference"@,
        "value"@ != "footprint"@,
        "value"@ != "datasheet"@,
        "value"@ != "fields"@,
        "value"@ != "new_reference"@,
        "footprint"@ != "datasheet"@,
        "footprint"@ != "fields"@,
        "footprint"@ != "new_reference"@,
        "datasheet"@ != "fields"@,
        "datasheet"@ != "new_reference"@,
        "fields"@ != "new_reference"@,
{
    reveal_strlit("value");
    reveal_strlit("footprint");
    reveal_strlit("datasheet");
    reveal_strlit("fields");
    reveal_strlit("new_reference");
    assert("value"@[0] == 'v');
    assert("footprint"@[1] == 'o');
    assert("datasheet"@[0] == 'd');
    assert("fields"@[1] == 'i');
    assert("new_reference"@[0] == 'n');
}

/// The property that a parameter of an edit is about.
pub open spec fn parameter_of(key: Seq<char>, name: Seq<char>) -> bool {
    ||| key == "value"@ && name == "Value"@
    ||| key == "footprint"@ && name == "Footprint"@
    ||| key == "datasheet"@ && name == "Datasheet"@
}

/// An edit that gives a value, a footprint or a datasheet gives it to every
/// unit that has the property, and every other property of every unit shows
/// what it showed. The one change is noted. Where no unit has the property
/// nothing changes, and that is noted as an error.
pub proof fn law_parameter_reaches_its_property(
    s: Seq<u8>,
    reference: Seq<char>,
    args: Json,
    places: Seq<PointText>,
    key: Seq<char>,
    name: Seq<char>,
    value: Seq<char>,
)
    requires
        parameter_of(key, name),
        asks_only(args, key),
        text_arg(member(args, key)) == Some(value),
        field_ready(s, reference, name, value, Seq::empty(), (Reach { set: true, add: false })),
    ensures
        ({
            let done = component_edited(s, reference, args, places);
            if carries(s, reference, name) {
                &&& done.changed == seq![name + " → "@ + value]
                &&& done.errors.len() == 0
                &&& instance_blocks(done.content, reference).len() == instance_blocks(
                    s,
                    reference,
                ).len()
                &&& forall|k: int|
                    #![trigger unit_text(done.content, reference, k)]
                    0 <= k < instance_blocks(s, reference).len() ==> {
                        let before = unit_text(s, reference, k);
                        let after = unit_text(done.content, reference, k);
                        &&& has_property(before, name) ==> shows(after, name, utf8(value))
                        &&& !has_property(before, name) ==> after == before
                        &&& forall|other: Seq<char>|
                            unmarked(other) && other != name ==> #[trigger] shows_alike(
                                before,
                                after,
                                other,
                            )
                    }
            } else {
                &&& done.content == s
                &&& done.changed.len() == 0
                &&& done.errors.len() == 1
            }
        }),
{
    let begun = Editing { content: s, changed: Seq::empty(), errors: Seq::empty() };
    let done = component_edited(s, reference, args, places);
    lemma_keys();
    assert(change_keys()[0] != key ==> member(args, change_keys()[0]) is None);
    assert(change_keys()[1] != key ==> member(args, change_keys()[1]) is None);
    assert(change_keys()[2] != key ==> member(args, change_keys()[2]) is None);
    assert(change_keys()[3] != key ==> member(args, change_keys()[3]) is None);
    assert(change_keys()[4] != key ==> member(args, change_keys()[4]) is None);
    assert(done == begun.set(reference, name, value));
    lemma_ready_ok(s, reference, name, value);
    if carries(s, reference, name) {
        assert(done.changed =~= seq![name + " → "@ + value]);
        let t = value_replaced(s, reference, name, value)->Ok_0;
        let k0 = choose|k: int|
            0 <= k < instance_blocks(s, reference).len() && holds(
                s,
                #[trigger] instance_blocks(s, reference)[k],
                name,
            );
        law_replaced_value_is_shown(s, reference, name, value, k0);
        assert forall|k: int|
            #![trigger unit_text(done.content, reference, k)]
            0 <= k < instance_blocks(s, reference).len() implies {
            let before = unit_text(s, reference, k);
            let after = unit_text(done.content, reference, k);
            &&& has_property(before, name) ==> shows(after, name, utf8(value))
            &&& !has_property(before, name) ==> after == before
            &&& forall|other: Seq<char>|
                unmarked(other) && other != name ==> #[trigger] shows_alike(before, after, other)
        } by {
            law_replaced_value_is_shown(s, reference, name, value, k);
        }
    }
}

/// A value is replaced exactly where a unit has the property.
proof fn lemma_ready_ok(s: Seq<u8>, reference: Seq<char>, name: Seq<char>, value: Seq<char>)
    requires
        field_ready(s, reference, name, value, Seq::empty(), (Reach { set: true, add: false })),
    ensures
        value_replaced(s, reference, name, value) is Ok <==> carries(s, reference, name),
{
    assert forall|k: int|
        0 <= k < instance_blocks(s, reference).len() && holds(
            s,
            #[trigger] instance_blocks(s, reference)[k],
            name,
        ) implies crate::properties::value_end(s, instance_blocks(s, reference)[k], name) is Some by {
        assert(value_tame(s, instance_blocks(s, reference)[k], name));
    }
    crate::carried::law_update_needs_the_property(s, reference, name, value);
}

/// An edit with several changes is those changes, one after the other: the
/// value, the footprint, the datasheet, the custom fields and last the
/// designator, each in the schematic that the one before left. What was
/// changed and what was not is noted in that order, the designator first.
pub proof fn law_edit_is_its_parts(
    s: Seq<u8>,
    reference: Seq<char>,
    args: Json,
    places: Seq<PointText>,
    value: Json,
    footprint: Json,
    datasheet: Json,
    fields: Json,
    designator: Json,
)
    requires
        part_of(value, args, "value"@),
        part_of(footprint, args, "footprint"@),
        part_of(datasheet, args, "datasheet"@),
        part_of(fields, args, "fields"@),
        part_of(designator, args, "new_reference"@),
    ensures
        ({
            let whole = component_edited(s, reference, args, places);
            let a = component_edited(s, reference, value, places);
            let b = component_edited(a.content, reference, footprint, places);
            let c = component_edited(b.content, reference, datasheet, places);
            let d = component_edited(c.content, reference, fields, places);
            let e = component_edited(d.content, reference, designator, places);
            &&& whole.content == e.content
            &&& whole.changed == e.changed + a.changed + b.changed + c.changed + d.changed
            &&& whole.errors == e.errors + a.errors + b.errors + c.errors + d.errors
        }),
{
    lemma_edit_parts(
        s,
        reference,
        args,
        places,
        value,
        footprint,
        datasheet,
        fields,
        designator,
    );
    reveal(edit_of);
}

/// The same, of edits taken as a whole.
proof fn lemma_edit_parts(
    s: Seq<u8>,
    reference: Seq<char>,
    args: Json,
    places: Seq<PointText>,
    value: Json,
    footprint: Json,
    datasheet: Json,
    fields: Json,
    designator: Json,
)
    requires
        part_of(value, args, "value"@),
        part_of(footprint, args, "footprint"@),
        part_of(datasheet, args, "datasheet"@),
        part_of(fields, args, "fields"@),
        part_of(designator, args, "new_reference"@),
    ensures
        ({
            let whole = edit_of(s, reference, args, places);
            let a = edit_of(s, reference, value, places);
            let b = edit_of(a.content, reference, footprint, places);
            let c = edit_of(b.content, reference, datasheet, places);
            let d = edit_of(c.content, reference, fields, places);
            let e = edit_of(d.content, reference, designator, places);
            &&& whole.content == e.content
            &&& whole.changed == e.changed + a.changed + b.changed + c.changed + d.changed
            &&& whole.errors == e.errors + a.errors + b.errors + c.errors + d.errors
        }),
{
    let a = edit_of(s, reference, value, places);
    let b = edit_of(a.content, reference, footprint, places);
    let c = edit_of(b.content, reference, datasheet, places);
    let d = edit_of(c.content, reference, fields, places);
    let e = edit_of(d.content, reference, designator, places);
    let v = text_arg(member(args, "value"@));
    let f = text_arg(member(args, "footprint"@));
    let h = text_arg(member(args, "datasheet"@));
    let one = gave(fresh(s), reference, "Value"@, v);
    let two = gave(one, reference, "Footprint"@, f);
    let three = gave(two, reference, "Datasheet"@, h);
    lemma_part(s, reference, value, places, "value"@);
    lemma_part(a.content, reference, footprint, places, "footprint"@);
    lemma_part(b.content, reference, datasheet, places, "datasheet"@);
    lemma_part(c.content, reference, fields, places, "fields"@);
    lemma_part(d.content, reference, designator, places, "new_reference"@);
    assert(a == one);
    lemma_later(one, reference, "Footprint"@, f);
    lemma_later(two, reference, "Datasheet"@, h);
    let four = with_fields(three, reference, member(args, "fields"@), places);
    lemma_later_members(three, reference, member(args, "fields"@), places);
    let whole = edit_of(s, reference, args, places);
    assert(four.content == d.content);
    assert(four.changed == a.changed + b.changed + c.changed + d.changed);
    assert(four.errors == a.errors + b.errors + c.errors + d.errors);
    lemma_edited(s, reference, args, places);
    lemma_designator_last(four, reference, text_arg(member(args, "new_reference"@)));
    assert(whole.changed =~= e.changed + a.changed + b.changed + c.changed + d.changed);
    assert(whole.errors =~= e.errors + a.errors + b.errors + c.errors + d.errors);
}

/// An edit in which nothing is done yet.
spec fn fresh(s: Seq<u8>) -> Editing {
    Editing { content: s, changed: Seq::empty(), errors: Seq::empty() }
}

#[verifier::opaque]
spec fn edit_of(
    s: Seq<u8>,
    reference: Seq<char>,
    args: Json,
    places: Seq<PointText>,
) -> Editing {
    component_edited(s, reference, args, places)
}

#[verifier::opaque]
spec fn gave(
    now: Editing,
    reference: Seq<char>,
    name: Seq<char>,
    value: Option<Seq<char>>,
) -> Editing {
    now.set_opt(reference, name, value)
}

#[verifier::opaque]
spec fn with_fields(
    now: Editing,
    reference: Seq<char>,
    fields: Option<Json>,
    places: Seq<PointText>,
) -> Editing {
    match fields {
        Some(Json::Object(members)) => now.set_fields(
            reference,
            members@,
            members@.len() as int,
            places,
        ),
        _ => now,
    }
}

#[verifier::opaque]
spec fn with_designator(now: Editing, reference: Seq<char>, new_ref: Option<Seq<char>>) -> Editing {
    match new_ref {
        Some(new_ref) => now.rename_noted_first(reference, new_ref),
        None => now,
    }
}

proof fn lemma_edited(s: Seq<u8>, reference: Seq<char>, args: Json, places: Seq<PointText>)
    ensures
        edit_of(s, reference, args, places) == with_designator(
            with_fields(
                gave(
                    gave(
                        gave(fresh(s), reference, "Value"@, text_arg(member(args, "value"@))),
                        reference,
                        "Footprint"@,
                        text_arg(member(args, "footprint"@)),
                    ),
                    reference,
                    "Datasheet"@,
                    text_arg(member(args, "datasheet"@)),
                ),
                reference,
                member(args, "fields"@),
                places,
            ),
            reference,
            text_arg(member(args, "new_reference"@)),
        ),
{
    reveal(with_fields);
    reveal(with_designator);
    reveal(gave);
    reveal(edit_of);
}

/// The designator is changed last, and noted first.
proof fn lemma_designator_last(now: Editing, reference: Seq<char>, new_ref: Option<Seq<char>>)
    ensures
        ({
            let alone = with_designator(fresh(now.content), reference, new_ref);
            let after = with_designator(now, reference, new_ref);
            &&& after.content == alone.content
            &&& after.changed == alone.changed + now.changed
            &&& after.errors == alone.errors + now.errors
        }),
{
    reveal(with_designator);
    let alone = with_designator(fresh(now.content), reference, new_ref);
    let after = with_designator(now, reference, new_ref);
    assert(after.changed =~= alone.changed + now.changed);
    assert(after.errors =~= alone.errors + now.errors);
}

/// What arguments that ask for one change do.
proof fn lemma_part(
    s: Seq<u8>,
    reference: Seq<char>,
    args: Json,
    places: Seq<PointText>,
    key: Seq<char>,
)
    requires
        asks_only(args, key),
    ensures
        ({
            let done = edit_of(s, reference, args, places);
            let value = text_arg(member(args, key));
            &&& key == "value"@ ==> done == gave(
                fresh(s),
                reference,
                "Value"@,
                value,
            )
            &&& key == "footprint"@ ==> done == gave(
                fresh(s),
                reference,
                "Footprint"@,
                value,
            )
            &&& key == "datasheet"@ ==> done == gave(
                fresh(s),
                reference,
                "Datasheet"@,
                value,
            )
            &&& key == "fields"@ ==> done == with_fields(
                fresh(s),
                reference,
                member(args, key),
                places,
            )
            &&& key == "new_reference"@ ==> done == with_designator(fresh(s), reference, value)
        }),
{
    lemma_keys();
    lemma_absent_key(args, key);
    lemma_edited(s, reference, args, places);
    reveal(with_fields);
    reveal(with_designator);
    reveal(gave);
    reveal(edit_of);
}

/// What arguments that ask for one change lack.
proof fn lemma_absent_key(args: Json, key: Seq<char>)
    requires
        asks_only(args, key),
    ensures
        key != "value"@ ==> member(args, "value"@) is None,
        key != "footprint"@ ==> member(args, "footprint"@) is None,
        key != "datasheet"@ ==> member(args, "datasheet"@) is None,
        key != "fields"@ ==> member(args, "fields"@) is None,
        key != "new_reference"@ ==> member(args, "new_reference"@) is None,
{
    lemma_keys();
    assert(change_keys()[0] != key ==> member(args, change_keys()[0]) is None);
    assert(change_keys()[1] != key ==> member(args, change_keys()[1]) is None);
    assert(change_keys()[2] != key ==> member(args, change_keys()[2]) is None);
    assert(change_keys()[3] != key ==> member(args, change_keys()[3]) is None);
    assert(change_keys()[4] != key ==> member(args, change_keys()[4]) is None);
}

/// A change goes by the schematic alone, and is noted behind what was noted.
proof fn lemma_later(
    now: Editing,
    reference: Seq<char>,
    name: Seq<char>,
    value: Option<Seq<char>>,
)
    ensures
        ({
            let alone = gave(fresh(now.content), reference, name, value);
            let after = gave(now, reference, name, value);
            &&& after.content == alone.content
            &&& after.changed == now.changed + alone.changed
            &&& after.errors == now.errors + alone.errors
        }),
{
    reveal(gave);
    let alone = gave(fresh(now.content), reference, name, value);
    let after = gave(now, reference, name, value);
    assert(after.changed =~= now.changed + alone.changed);
    assert(after.errors =~= now.errors + alone.errors);
}

/// The same of custom fields.
proof fn lemma_later_fields(
    now: Editing,
    reference: Seq<char>,
    members: Seq<(String, Json)>,
    n: int,
    places: Seq<PointText>,
)
    ensures
        ({
            let alone = fresh(now.content).set_fields(reference, members, n, places);
            let after = now.set_fields(reference, members, n, places);
            &&& after.content == alone.content
            &&& after.changed == now.changed + alone.changed
            &&& after.errors == now.errors + alone.errors
        }),
    decreases n,
{
    let alone = fresh(now.content).set_fields(reference, members, n, places);
    let after = now.set_fields(reference, members, n, places);
    if n > 0 {
        lemma_later_fields(now, reference, members, n - 1, places);
    }
    assert(after.changed =~= now.changed + alone.changed);
    assert(after.errors =~= now.errors + alone.errors);
}

proof fn lemma_later_members(
    now: Editing,
    reference: Seq<char>,
    fields: Option<Json>,
    places: Seq<PointText>,
)
    ensures
        ({
            let alone = with_fields(fresh(now.content), reference, fields, places);
            let after = with_fields(now, reference, fields, places);
            &&& after.content == alone.content
            &&& after.changed == now.changed + alone.changed
            &&& after.errors == now.errors + alone.errors
        }),
{
    reveal(with_fields);
    if let Some(Json::Object(members)) = fields {
        lemma_later_fields(now, reference, members@, members@.len() as int, places);
    } else {
        assert(now.changed =~= now.changed + Seq::<Seq<char>>::empty());
        assert(now.errors =~= now.errors + Seq::<Seq<char>>::empty());
    }
}

/// An edit with custom fields sets them one after the other: setting some and
/// then others is setting all of them.
pub proof fn law_fields_are_set_in_turn(
    s: Seq<u8>,
    reference: Seq<char>,
    places: Seq<PointText>,
    all: Json,
    first: Json,
    rest: Json,
)
    requires
        asks_only(all, "fields"@),
        asks_only(first, "fields"@),
        asks_only(rest, "fields"@),
        member(all, "fields"@) matches Some(Json::Object(x)) && member(
            first,
            "fields"@,
        ) matches Some(Json::Object(y)) && member(rest, "fields"@) matches Some(Json::Object(z))
            && x@ == y@ + z@,
    ensures
        ({
            let whole = component_edited(s, reference, all, places);
            let a = component_edited(s, reference, first, places);
            let b = component_edited(a.content, reference, rest, places);
            &&& whole.content == b.content
            &&& whole.changed == a.changed + b.changed
            &&& whole.errors == a.errors + b.errors
        }),
{
    lemma_keys();
    lemma_absent_key(all, "fields"@);
    lemma_absent_key(first, "fields"@);
    lemma_absent_key(rest, "fields"@);
    let x = (member(all, "fields"@)->0)->Object_0@;
    let y = (member(first, "fields"@)->0)->Object_0@;
    let z = (member(rest, "fields"@)->0)->Object_0@;
    let begun = Editing { content: s, changed: Seq::empty(), errors: Seq::empty() };
    let a = begun.set_fields(reference, y, y.len() as int, places);
    lemma_fields_begin(begun, reference, x, y, y.len() as int, places);
    lemma_fields_go_on(begun, reference, y, z, z.len() as int, places);
    lemma_later_fields(a, reference, z, z.len() as int, places);
    assert(component_edited(s, reference, first, places) == a);
}

proof fn lemma_fields_begin(
    now: Editing,
    reference: Seq<char>,
    x: Seq<(String, Json)>,
    y: Seq<(String, Json)>,
    n: int,
    places: Seq<PointText>,
)
    requires
        n <= y.len() <= x.len(),
        forall|i: int| 0 <= i < y.len() ==> #[trigger] x[i] == y[i],
    ensures
        now.set_fields(reference, x, n, places) == now.set_fields(reference, y, n, places),
    decreases n,
{
    if n > 0 {
        lemma_fields_begin(now, reference, x, y, n - 1, places);
        assert(x[n - 1] == y[n - 1]);
    }
}

proof fn lemma_fields_go_on(
    now: Editing,
    reference: Seq<char>,
    y: Seq<(String, Json)>,
    z: Seq<(String, Json)>,
    n: int,
    places: Seq<PointText>,
)
    requires
        0 <= n <= z.len(),
    ensures
        now.set_fields(reference, y + z, y.len() + n, places) == now.set_fields(
            reference,
            y,
            y.len() as int,
            places,
        ).set_fields(reference, z, n, places),
    decreases n,
{
    if n > 0 {
        lemma_fields_go_on(now, reference, y, z, n - 1, places);
        assert((y + z)[y.len() + n - 1] == z[n - 1]);
    } else {
        lemma_fields_begin(now, reference, y + z, y, y.len() as int, places);
    }
}

/// The name of a property that a parameter of its own sets.
pub open spec fn has_parameter(name: Seq<char>) -> bool {
    name == "Reference"@ || name == "Value"@ || name == "Footprint"@ || name == "Datasheet"@
}

/// An edit with one custom field gives it to every unit of the component, and
/// leaves every other property with the unit that has it. The change is noted,
/// as an addition where no unit had the field.
pub proof fn law_field_reaches_every_unit(
    s: Seq<u8>,
    reference: Seq<char>,
    args: Json,
    places: Seq<PointText>,
    members: Seq<(String, Json)>,
    value: Seq<char>,
)
    requires
        asks_only(args, "fields"@),
        member(args, "fields"@) matches Some(Json::Object(m)) && m@ == members,
        members.len() == 1,
        text_arg(Some(members[0].1)) == Some(value),
        !has_parameter(members[0].0@),
        field_ready(
            s,
            reference,
            members[0].0@,
            value,
            places,
            (Reach { set: true, add: true }),
        ),
        bare(value),
        property_set(s, reference, members[0].0@, value, places) is Ok,
    ensures
        ({
            let name = members[0].0@;
            let done = component_edited(s, reference, args, places);
            &&& done.changed == seq![
                if carries(s, reference, name) {
                    name + " → "@ + value
                } else {
                    name + " → "@ + value + " (added)"@
                },
            ]
            &&& done.errors.len() == 0
            &&& instance_blocks(done.content, reference).len() == instance_blocks(
                s,
                reference,
            ).len()
            &&& forall|k: int|
                #![trigger unit_text(done.content, reference, k)]
                0 <= k < instance_blocks(s, reference).len() ==> {
                    let before = unit_text(s, reference, k);
                    let after = unit_text(done.content, reference, k);
                    &&& shows(after, name, utf8(value))
                    &&& forall|other: Seq<char>|
                        unmarked(other) && other != name ==> (has_property(before, other)
                            <==> #[trigger] has_property(after, other))
                }
        }),
{
    let name = members[0].0@;
    let begun = Editing { content: s, changed: Seq::empty(), errors: Seq::empty() };
    let done = component_edited(s, reference, args, places);
    lemma_keys();
    lemma_absent_key(args, "fields"@);
    reveal_with_fuel(Editing::set_fields, 2);
    assert(done == begun.set_field(reference, name, members[0].1, places));
    assert(done.changed =~= seq![
        if carries(s, reference, name) {
            name + " → "@ + value
        } else {
            name + " → "@ + value + " (added)"@
        },
    ]);
    law_field_on_every_unit(s, reference, name, value, places, (Reach { set: true, add: true }));
    assert forall|k: int|
        #![trigger unit_text(done.content, reference, k)]
        0 <= k < instance_blocks(s, reference).len() implies {
        let before = unit_text(s, reference, k);
        let after = unit_text(done.content, reference, k);
        &&& shows(after, name, utf8(value))
        &&& forall|other: Seq<char>|
            unmarked(other) && other != name ==> (has_property(before, other)
                <==> #[trigger] has_property(after, other))
    } by {
        law_set_property_is_shown(s, reference, name, value, places, k);
    }
}

/// A custom field whose value is not a text, or whose name has a parameter of
/// its own, is refused: nothing changes, and the refusal is noted.
pub proof fn law_field_is_refused(
    s: Seq<u8>,
    reference: Seq<char>,
    args: Json,
    places: Seq<PointText>,
    members: Seq<(String, Json)>,
)
    requires
        asks_only(args, "fields"@),
        member(args, "fields"@) matches Some(Json::Object(m)) && m@ == members,
        members.len() == 1,
        !(members[0].1 is Text) || has_parameter(members[0].0@),
    ensures
        ({
            let done = component_edited(s, reference, args, places);
            &&& done.content == s
            &&& done.changed.len() == 0
            &&& done.errors.len() == 1
        }),
{
    lemma_keys();
    lemma_absent_key(args, "fields"@);
    reveal_with_fuel(Editing::set_fields, 2);
}

/// An edit that gives a new designator leaves the schematic in which the
/// component is renamed, and notes both places at which the designator stood.
pub proof fn law_new_designator_renames(
    s: Seq<u8>,
    reference: Seq<char>,
    args: Json,
    places: Seq<PointText>,
    new_ref: Seq<char>,
)
    requires
        asks_only(args, "new_reference"@),
        text_arg(member(args, "new_reference"@)) == Some(new_ref),
        renamed(s, reference, new_ref) is Some,
    ensures
        ({
            let done = component_edited(s, reference, args, places);
            &&& done.content == renamed(s, reference, new_ref)->0
            &&& done.changed.len() == 2
            &&& done.changed[0] == "Reference → "@ + new_ref
            &&& done.errors.len() == 0
        }),
{
    let begun = Editing { content: s, changed: Seq::empty(), errors: Seq::empty() };
    let done = component_edited(s, reference, args, places);
    let now = begun.rename(reference, new_ref);
    lemma_keys();
    lemma_absent_key(args, "new_reference"@);
    assert(done == begun.rename_noted_first(reference, new_ref));
    assert(done.changed =~= now.changed);
    reveal_strlit("Reference → ");
    reveal_strlit("Reference");
    reveal_strlit(" → ");
    assert("Reference"@ + " → "@ + new_ref =~= "Reference → "@ + new_ref);
    assert(done.changed[0] == now.changed[0]);
}

/// An edit that asks for nothing changes nothing, and an edit fails exactly
/// where nothing was changed.
pub proof fn law_edit_without_change_fails(
    s: Seq<u8>,
    reference: Seq<char>,
    args: Json,
    places: Seq<PointText>,
)
    ensures
        edit_failure(component_edited(s, reference, args, places), reference) is Some
            <==> component_edited(s, reference, args, places).changed.len() == 0,
        (forall|i: int|
            0 <= i < change_keys().len() ==> member(args, #[trigger] change_keys()[i]) is None)
            ==> component_edited(s, reference, args, places).content == s && component_edited(
            s,
            reference,
            args,
            places,
        ).changed.len() == 0 && component_edited(s, reference, args, places).errors.len() == 0,
{
    if forall|i: int|
        0 <= i < change_keys().len() ==> member(args, #[trigger] change_keys()[i]) is None {
        lemma_keys();
        lemma_absent_key(args, ""@);
        assert(member(args, change_keys()[0]) is None);
        assert(member(args, change_keys()[1]) is None);
        assert(member(args, change_keys()[2]) is None);
        assert(member(args, change_keys()[3]) is None);
        assert(member(args, change_keys()[4]) is None);
    }
}

/// An annotation is shown by every unit of the component, once, and leaves
/// every other property with the unit that has it; whether it was there before
/// is reported. A name that has a parameter of its own is refused, and so is a
/// component that is not there.
pub proof fn law_annotation_is_shown(
    s: Seq<u8>,
    reference: Seq<char>,
    key: Seq<char>,
    value: Seq<char>,
    places: Seq<PointText>,
    k: int,
)
    requires
        field_ready(s, reference, key, value, places, (Reach { set: true, add: true })),
        bare(value),
        0 <= k < instance_blocks(s, reference).len(),
    ensures
        has_parameter(key) ==> annotated(s, reference, key, value, places) is Err,
        annotated(s, reference, key, value, places) matches Ok((t, had)) ==> {
            &&& had <==> carries(s, reference, key)
            &&& instance_blocks(t, reference).len() == instance_blocks(s, reference).len()
            &&& shows(unit_text(t, reference, k), key, utf8(value))
            &&& forall|other: Seq<char>|
                unmarked(other) && other != key ==> (has_property(
                    unit_text(s, reference, k),
                    other,
                ) <==> #[trigger] has_property(unit_text(t, reference, k), other))
        },
{
    if annotated(s, reference, key, value, places) is Ok {
        law_set_property_is_shown(s, reference, key, value, places, k);
    }
}

/// A component that is not there cannot be annotated.
pub proof fn law_nothing_to_annotate(
    s: Seq<u8>,
    reference: Seq<char>,
    key: Seq<char>,
    value: Seq<char>,
    places: Seq<PointText>,
)
    requires
        instance_blocks(s, reference).len() == 0,
    ensures
        annotated(s, reference, key, value, places) is Err,
{
}

/// The four fields that every component has are no annotations.
pub proof fn law_built_in_fields_are_no_annotations(
    s: Seq<u8>,
    reference: Seq<char>,
    key: Seq<char>,
    value: Seq<char>,
    places: Seq<PointText>,
)
    requires
        key == "Reference"@ || key == "Value"@ || key == "Footprint"@ || key == "Datasheet"@,
    ensures
        annotated(s, reference, key, value, places) is Err,
{
}

/// A property that is added stands at the place of its unit, and is hidden.
pub proof fn law_added_property_stands_at_the_unit(
    s: Seq<u8>,
    reference: Seq<char>,
    name: Seq<char>,
    value: Seq<char>,
    places: Seq<PointText>,
    k: int,
)
    requires
        property_set(s, reference, name, value, places) is Ok,
        field_ready(s, reference, name, value, places, (Reach { set: true, add: true })),
        0 <= k < instance_blocks(s, reference).len(),
        !has_property(unit_text(s, reference, k), name),
    ensures
        ({
            let t = property_set(s, reference, name, value, places)->Ok_0;
            let after = unit_text(t, reference, k);
            &&& occurs(after, utf8("(at "@ + places[k].x@ + " "@ + places[k].y@ + " 0)"@))
            &&& occurs(after, utf8("(hide yes)"@))
        }),
{
    let reach = Reach { set: true, add: true };
    let t = property_set(s, reference, name, value, places)->Ok_0;
    let before = unit_text(s, reference, k);
    let after = unit_text(t, reference, k);
    law_field_on_every_unit(s, reference, name, value, places, reach);
    assert(after == unit_after(before, name, value, places[k], reach));
    lemma_unit_end(s, reference, k);
    assert(after == with_property(before, name, value, places[k]));
    let indent = property_indent(before);
    let x = places[k].x@;
    let y = places[k].y@;
    let end = before.len() - 1;
    let n = utf8(new_property(indent, name, value, x, y));
    lemma_new_property_holds(indent, name, value, x, y);
    lemma_still_occurs(before, end, n, utf8("(at "@ + x + " "@ + y + " 0)"@));
    lemma_still_occurs(before, end, n, utf8("(hide yes)"@));
}

/// What is put into a text stands in it.
proof fn lemma_still_occurs(text: Seq<u8>, end: int, n: Seq<u8>, p: Seq<u8>)
    requires
        0 <= end <= text.len(),
        occurs(n, p),
    ensures
        occurs(spliced(text, end, end, n), p),
{
    let after = spliced(text, end, end, n);
    lemma_occurs(n, p);
    lemma_occurs(after, p);
    let i = choose|i: int| occurs_at(n, p, i);
    assert(after.subrange(end + i, end + i + p.len()) =~= n.subrange(i, i + p.len()));
    assert(occurs_at(after, p, end + i));
}

/// What stands in a text stands in a longer one.
proof fn lemma_front_occurs(a: Seq<char>, b: Seq<char>, p: Seq<u8>)
    requires
        occurs(utf8(a), p),
    ensures
        occurs(utf8(a + b), p),
{
    lemma_utf8_add(a, b);
    lemma_occurs(utf8(a), p);
    lemma_occurs(utf8(a + b), p);
    let i = choose|i: int| occurs_at(utf8(a), p, i);
    assert(utf8(a + b).subrange(i, i + p.len()) =~= utf8(a).subrange(i, i + p.len()));
    assert(occurs_at(utf8(a + b), p, i));
}

/// A part between two others stands in the whole.
proof fn lemma_middle_occurs(a: Seq<char>, part: Seq<char>, b: Seq<char>)
    ensures
        occurs(utf8(a + part + b), utf8(part)),
{
    let all = utf8(a + part + b);
    lemma_utf8_add(a + part, b);
    lemma_utf8_add(a, part);
    let at = utf8(a).len() as int;
    assert(all.subrange(at, at + utf8(part).len()) =~= utf8(part));
    assert(occurs_at(all, utf8(part), at));
    lemma_occurs(all, utf8(part));
}

/// A new property holds its place, and says that it is hidden.
proof fn lemma_new_property_holds(
    indent: Seq<char>,
    name: Seq<char>,
    value: Seq<char>,
    x: Seq<char>,
    y: Seq<char>,
)
    ensures
        occurs(
            utf8(new_property(indent, name, value, x, y)),
            utf8("(at "@ + x + " "@ + y + " 0)"@),
        ),
        occurs(utf8(new_property(indent, name, value, x, y)), utf8("(hide yes)"@)),
{
    let at = "(at "@ + x + " "@ + y + " 0)"@;
    let hide = "(hide yes)"@;
    let front = "\n"@ + indent + "(property \""@ + name + "\" \""@ + escaped(value, false) + "\"\n"@
        + indent;
    let a1 = front + "\t(at "@ + x + " "@ + y + " 0)\n"@;
    let a2 = a1 + indent + "\t(hide yes)\n"@;
    reveal_strlit("\t(at ");
    reveal_strlit("(at ");
    reveal_strlit(" 0)\n");
    reveal_strlit(" 0)");
    reveal_strlit("\t(hide yes)\n");
    reveal_strlit("(hide yes)");
    reveal_strlit("\t");
    reveal_strlit("\n");
    assert(a1 =~= front + "\t"@ + at + "\n"@);
    lemma_middle_occurs(front + "\t"@, at, "\n"@);
    assert(a2 =~= (a1 + indent + "\t"@) + hide + "\n"@);
    lemma_middle_occurs(a1 + indent + "\t"@, hide, "\n"@);
    lemma_front_occurs(a1, indent, utf8(at));
    lemma_front_occurs(a1 + indent, "\t(hide yes)\n"@, utf8(at));
    lemma_rest_behind(a2, indent, utf8(at));
    lemma_rest_behind(a2, indent, utf8(hide));
}

/// The same of what follows in a new property.
proof fn lemma_rest_behind(a: Seq<char>, indent: Seq<char>, p: Seq<u8>)
    requires
        occurs(utf8(a), p),
    ensures
        occurs(
            utf8(
                a + indent + "\t(effects\n"@ + indent + "\t\t(font\n"@ + indent
                    + "\t\t\t(size 1.27 1.27)\n"@ + indent + "\t\t)\n"@ + indent + "\t)\n"@
                    + indent + ")"@,
            ),
            p,
        ),
{
    let b1 = a + indent;
    lemma_front_occurs(a, indent, p);
    let b2 = b1 + "\t(effects\n"@;
    lemma_front_occurs(b1, "\t(effects\n"@, p);
    let b3 = b2 + indent;
    lemma_front_occurs(b2, indent, p);
    let b4 = b3 + "\t\t(font\n"@;
    lemma_front_occurs(b3, "\t\t(font\n"@, p);
    let b5 = b4 + indent;
    lemma_front_occurs(b4, indent, p);
    let b6 = b5 + "\t\t\t(size 1.27 1.27)\n"@;
    lemma_front_occurs(b5, "\t\t\t(size 1.27 1.27)\n"@, p);
    let b7 = b6 + indent;
    lemma_front_occurs(b6, indent, p);
    let b8 = b7 + "\t\t)\n"@;
    lemma_front_occurs(b7, "\t\t)\n"@, p);
    let b9 = b8 + indent;
    lemma_front_occurs(b8, indent, p);
    let b10 = b9 + "\t)\n"@;
    lemma_front_occurs(b9, "\t)\n"@, p);
    let b11 = b10 + indent;
    lemma_front_occurs(b10, indent, p);
    lemma_front_occurs(b11, ")"@, p);
}

/// A component carries a property where some unit of it has one of that name.
pub proof fn law_carried_where_a_unit_has_it(s: Seq<u8>, reference: Seq<char>, name: Seq<char>)
    ensures
        carries(s, reference, name) <==> exists|k: int|
            0 <= k < instance_blocks(s, reference).len() && has_property(
                #[trigger] unit_text(s, reference, k),
                name,
            ),
{
    lemma_opening(name);
    lemma_carries(s, reference, name);
    if carries(s, reference, name) {
        let k = choose|k: int|
            0 <= k < instance_blocks(s, reference).len() && occurs(
                #[trigger] unit_text(s, reference, k),
                opening(name),
            );
        assert(has_property(unit_text(s, reference, k), name));
    }
    if exists|k: int|
        0 <= k < instance_blocks(s, reference).len() && has_property(
            #[trigger] unit_text(s, reference, k),
            name,
        ) {
        let k = choose|k: int|
            0 <= k < instance_blocks(s, reference).len() && has_property(
                #[trigger] unit_text(s, reference, k),
                name,
            );
        assert(occurs(unit_text(s, reference, k), opening(name)));
    }
}

proof fn lemma_opening(name: Seq<char>)
    ensures
        opening(name) == utf8(crate::properties::property_start(name)),
{
    assert("(property \""@ + name + "\" \""@ =~= crate::properties::property_start(name));
}

} // verus!
