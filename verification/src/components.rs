//! Editing a component of a schematic by its designator.

use vstd::prelude::*;
use vstd::string::StringExecFns;
use crate::args::{member, opt_str, text_arg, Json, ToolError};
use crate::edit::{all_fit, apply_edits, edit_views, edited, Edit, SexpEdit};
use crate::node::{found_text, parse_sexp, parsed};
use crate::numeral::{decimal, decimal_text, PointText};
use crate::properties::{
    carries, is_reserved_property, lemma_units, path_renamed, property_exists, property_set,
    reserved, rewrite_instance_references, set_property, unit_shaped, update_property_value,
    value_replaced,
};
use crate::scan::{span, spans};
use crate::symbols::{
    block_text, find_all_symbol_instance_blocks, find_symbol_instance_block, instance_block,
    instance_blocks,
};
use crate::text::{
    byte_len, find_from, first_at, join2, join3, join4, join5, lemma_ascii_boundary, lemma_first_at,
    lemma_occurrence_cut, same, texts, utf8,
};

verus! {

// ── Identity ─────────────────────────────────────────────────────────────────

/// The uuid of a unit of a component, or why it has none.
pub open spec fn unit_id(s: Seq<u8>, b: (int, int), reference: Seq<char>) -> Result<
    Seq<u8>,
    Seq<char>,
> {
    match parsed(s.subrange(b.0, b.1)) {
        Some(symbol) => match found_text(symbol, utf8("uuid"@)) {
            Some(uuid) => Ok(uuid),
            None => Err("component '"@ + reference + "' has no UUID"@),
        },
        None => Err("component '"@ + reference + "' is not one S-expression"@),
    }
}

/// The uuids of the units from the one at `k` on, put behind `before`, or why
/// one of them has none.
pub open spec fn unit_ids(
    s: Seq<u8>,
    blocks: Seq<(int, int)>,
    k: int,
    reference: Seq<char>,
    before: Seq<Seq<u8>>,
) -> Result<Seq<Seq<u8>>, Seq<char>>
    decreases blocks.len() - k,
{
    if k >= blocks.len() {
        Ok(before)
    } else {
        match unit_id(s, blocks[k], reference) {
            Ok(uuid) => unit_ids(s, blocks, k + 1, reference, before.push(uuid)),
            Err(why) => Err(why),
        }
    }
}

/// The uuids of the units of a component, in file order, or why there are none.
pub open spec fn item_ids(s: Seq<u8>, reference: Seq<char>) -> Result<Seq<Seq<u8>>, Seq<char>> {
    let blocks = instance_blocks(s, reference);
    if blocks.len() == 0 {
        Err("component '"@ + reference + "' not found"@)
    } else {
        unit_ids(s, blocks, 0, reference, Seq::empty())
    }
}

/// The uuids of the units of a component, by which a change to it is committed.
pub fn symbol_item_ids(content: &str, reference: &str) -> (r: Result<Vec<String>, String>)
    ensures
        match r {
            Ok(ids) => item_ids(utf8(content@), reference@) == Ok::<Seq<Seq<u8>>, Seq<char>>(
                byte_texts(ids@),
            ),
            Err(why) => item_ids(utf8(content@), reference@) == Err::<Seq<Seq<u8>>, Seq<char>>(
                why@,
            ),
        },
{
    let ghost s = utf8(content@);
    let blocks = find_all_symbol_instance_blocks(content, reference);
    let ghost all = instance_blocks(s, reference@);
    if blocks.len() == 0 {
        assert(spans(blocks@).len() == 0);
        return Err(join3("component '", reference, "' not found"));
    }
    assert(spans(blocks@).len() > 0);
    proof {
        lemma_units(s, reference@);
    }
    let mut ids: Vec<String> = Vec::new();
    let mut k: usize = 0;
    assert(byte_texts(ids@) =~= Seq::empty());
    while k < blocks.len()
        invariant
            k <= blocks@.len(),
            s == utf8(content@),
            spans(blocks@) == all,
            all.len() > 0,
            all == instance_blocks(s, reference@),
            forall|j: int| 0 <= j < all.len() ==> unit_shaped(s, #[trigger] all[j]),
            unit_ids(s, all, k as int, reference@, byte_texts(ids@)) == item_ids(s, reference@),
        decreases blocks@.len() - k,
    {
        assert(all[k as int] == span(blocks@[k as int]));
        assert(unit_shaped(s, all[k as int]));
        let ghost before = ids@;
        match parse_sexp(block_text(content, blocks[k].0, blocks[k].1)) {
            Ok(symbol) => match symbol.find_str("uuid") {
                Some(uuid) => {
                    let uuid = uuid.to_owned();
                    ids.push(uuid);
                    assert(byte_texts(ids@) =~= byte_texts(before).push(utf8(uuid@)));
                },
                None => {
                    return Err(join3("component '", reference, "' has no UUID"));
                },
            },
            Err(_) => {
                return Err(join3("component '", reference, "' is not one S-expression"));
            },
        }
        k += 1;
    }
    Ok(ids)
}

// ── Editing fields ───────────────────────────────────────────────────────────

/// An edit under way: the schematic as it now reads, what was changed, and
/// what could not be.
pub struct EditState {
    pub content: String,
    pub changed: Vec<String>,
    pub errors: Vec<String>,
}

/// An edit under way as a mathematical value.
#[verifier::ext_equal]
pub struct Editing {
    pub content: Seq<u8>,
    pub changed: Seq<Seq<char>>,
    pub errors: Seq<Seq<char>>,
}

impl View for EditState {
    type V = Editing;

    open spec fn view(&self) -> Editing {
        Editing {
            content: utf8(self.content@),
            changed: texts(self.changed@),
            errors: texts(self.errors@),
        }
    }
}

impl Editing {
    /// A change was made.
    pub open spec fn change(self, content: Seq<u8>, note: Seq<char>) -> Editing {
        Editing { content, changed: self.changed.push(note), errors: self.errors }
    }

    /// A change could not be made.
    pub open spec fn fail(self, note: Seq<char>) -> Editing {
        Editing { errors: self.errors.push(note), ..self }
    }

    /// A property that the component carries is given a value, on every unit.
    pub open spec fn set(self, reference: Seq<char>, field: Seq<char>, value: Seq<char>) -> Editing {
        match value_replaced(self.content, reference, field, value) {
            Ok(content) => self.change(content, field + " → "@ + value),
            Err(why) => self.fail(field + ": "@ + why),
        }
    }

    /// The same, where there is a value to give.
    pub open spec fn set_opt(
        self,
        reference: Seq<char>,
        field: Seq<char>,
        value: Option<Seq<char>>,
    ) -> Editing {
        match value {
            Some(v) => self.set(reference, field, v),
            None => self,
        }
    }

    /// The designator is changed on every unit: in the property that is drawn,
    /// and in the instances path, from which the netlist is built.
    pub open spec fn rename(self, reference: Seq<char>, new_ref: Seq<char>) -> Editing {
        let shown = self.set(reference, "Reference"@, new_ref);
        match path_renamed(shown.content, reference, new_ref) {
            Ok((content, count)) => shown.change(
                content,
                "instances reference → "@ + new_ref + " ("@ + decimal(count as nat) + ")"@,
            ),
            Err(why) => shown.fail("instances reference: "@ + why),
        }
    }

    /// The same, noted before what was done already.
    pub open spec fn rename_noted_first(self, reference: Seq<char>, new_ref: Seq<char>) -> Editing {
        let begun = Editing {
            content: self.content,
            changed: Seq::empty(),
            errors: Seq::empty(),
        };
        let now = begun.rename(reference, new_ref);
        Editing {
            content: now.content,
            changed: now.changed + self.changed,
            errors: now.errors + self.errors,
        }
    }

    /// The fields that have parameters of their own are set, but for the
    /// designator.
    pub open spec fn set_parameters(self, reference: Seq<char>, args: Json) -> Editing {
        self.set_opt(reference, "Value"@, text_arg(member(args, "value"@))).set_opt(
            reference,
            "Footprint"@,
            text_arg(member(args, "footprint"@)),
        ).set_opt(reference, "Datasheet"@, text_arg(member(args, "datasheet"@)))
    }

    /// A custom field is set on every unit: in place where the unit carries
    /// it, else added at the unit's place as `places` shows it. A field with a
    /// parameter of its own, and a value that is not a text, are refused.
    pub open spec fn set_field(
        self,
        reference: Seq<char>,
        name: Seq<char>,
        value: Json,
        places: Seq<PointText>,
    ) -> Editing {
        match text_arg(Some(value)) {
            Some(v) => if reserved(name) {
                self.fail(
                    name + ": set this through the '"@ + parameter_for(name)
                        + "' parameter, not 'fields'"@,
                )
            } else {
                let had = carries(self.content, reference, name);
                match property_set(self.content, reference, name, v, places) {
                    Ok(content) => self.change(
                        content,
                        if had {
                            name + " → "@ + v
                        } else {
                            name + " → "@ + v + " (added)"@
                        },
                    ),
                    Err(why) => self.fail(name + ": "@ + why),
                }
            },
            None => self.fail(name + ": field values must be strings"@),
        }
    }

    /// The first `n` of some custom fields are set, one after the other.
    /// `places` shows where each unit sits; a field is not set where the units
    /// are not as many any more.
    pub open spec fn set_fields(
        self,
        reference: Seq<char>,
        members: Seq<(String, Json)>,
        n: int,
        places: Seq<PointText>,
    ) -> Editing
        decreases n,
    {
        if n <= 0 {
            self
        } else {
            let before = self.set_fields(reference, members, n - 1, places);
            let (name, value) = members[n - 1];
            if places.len() == instance_blocks(before.content, reference).len() {
                before.set_field(reference, name@, value, places)
            } else {
                before.fail(name@ + ": the units of '"@ + reference + "' are no longer the same"@)
            }
        }
    }
}

/// A request to edit a component, carried out: its fields on every unit that
/// bears the designator, the designator itself last. The new designator is
/// noted first. Where another component bears the new designator already, its
/// fields are left alone.
pub open spec fn component_edited(
    s: Seq<u8>,
    reference: Seq<char>,
    args: Json,
    places: Seq<PointText>,
) -> Editing {
    let begun = Editing { content: s, changed: Seq::empty(), errors: Seq::empty() };
    let set = begun.set_parameters(reference, args);
    let all_set = match member(args, "fields"@) {
        Some(Json::Object(members)) => set.set_fields(
            reference,
            members@,
            members@.len() as int,
            places,
        ),
        _ => set,
    };
    match text_arg(member(args, "new_reference"@)) {
        Some(new_ref) => all_set.rename_noted_first(reference, new_ref),
        None => all_set,
    }
}

/// The parameter that sets a property which has one.
pub open spec fn parameter_for(name: Seq<char>) -> Seq<char> {
    if name == "Reference"@ {
        "reference"@
    } else if name == "Value"@ {
        "value"@
    } else if name == "Footprint"@ {
        "footprint"@
    } else {
        "datasheet"@
    }
}

proof fn lemma_texts_push(v: Seq<String>, s: String)
    ensures
        texts(v.push(s)) == texts(v).push(s@),
{
    assert(texts(v.push(s)) =~= texts(v).push(s@));
}

impl EditState {
    /// Nothing done yet.
    pub fn new(content: &str) -> (r: EditState)
        ensures
            r@ == (Editing {
                content: utf8(content@),
                changed: Seq::empty(),
                errors: Seq::empty(),
            }),
    {
        let r = EditState {
            content: content.to_owned(),
            changed: Vec::new(),
            errors: Vec::new(),
        };
        assert(texts(r.changed@) =~= Seq::empty());
        assert(texts(r.errors@) =~= Seq::empty());
        r
    }

    fn change(&mut self, content: String, note: String)
        ensures
            final(self)@ == old(self)@.change(utf8(content@), note@),
    {
        proof {
            lemma_texts_push(self.changed@, note);
        }
        self.content = content;
        self.changed.push(note);
    }

    fn fail(&mut self, note: String)
        ensures
            final(self)@ == old(self)@.fail(note@),
    {
        proof {
            lemma_texts_push(self.errors@, note);
        }
        self.errors.push(note);
    }

    /// Gives a property that the component carries a value, on every unit.
    pub fn set(&mut self, reference: &str, field: &str, value: &str)
        ensures
            final(self)@ == old(self)@.set(reference@, field@, value@),
    {
        match update_property_value(self.content.as_str(), reference, field, value) {
            Ok(content) => self.change(content, join3(field, " → ", value)),
            Err(why) => self.fail(join3(field, ": ", why.as_str())),
        }
    }

    /// Changes the designator on every unit, in the property that is drawn and
    /// in the instances path.
    pub fn rename(&mut self, reference: &str, new_ref: &str)
        ensures
            final(self)@ == old(self)@.rename(reference@, new_ref@),
    {
        self.set(reference, "Reference", new_ref);
        match rewrite_instance_references(self.content.as_str(), reference, new_ref) {
            Ok((content, count)) => {
                let times = decimal_text(count as u64);
                self.change(
                    content,
                    join5("instances reference → ", new_ref, " (", times.as_str(), ")"),
                )
            },
            Err(why) => self.fail(join2("instances reference: ", why.as_str())),
        }
    }

    /// Changes the designator, and notes that before what was done already.
    fn rename_noted_first(&mut self, reference: &str, new_ref: &str)
        ensures
            final(self)@ == old(self)@.rename_noted_first(reference@, new_ref@),
    {
        let ghost done = self@;
        let mut now = EditState::new(self.content.as_str());
        now.rename(reference, new_ref);
        let ghost renamed = now@;
        let mut k: usize = 0;
        assert(texts(now.changed@) =~= renamed.changed + done.changed.take(0));
        while k < self.changed.len()
            invariant
                k <= self.changed@.len(),
                self@ == done,
                now@.content == renamed.content,
                now@.errors == renamed.errors,
                now@.changed == renamed.changed + done.changed.take(k as int),
            decreases self.changed@.len() - k,
        {
            let note = self.changed[k].as_str().to_owned();
            proof {
                lemma_texts_push(now.changed@, note);
                assert(renamed.changed + done.changed.take(k + 1) =~= (renamed.changed
                    + done.changed.take(k as int)).push(note@));
            }
            now.changed.push(note);
            k += 1;
        }
        assert(done.changed.take(k as int) =~= done.changed);
        k = 0;
        assert(texts(now.errors@) =~= renamed.errors + done.errors.take(0));
        while k < self.errors.len()
            invariant
                k <= self.errors@.len(),
                self@ == done,
                now@.content == renamed.content,
                now@.changed == renamed.changed + done.changed,
                now@.errors == renamed.errors + done.errors.take(k as int),
            decreases self.errors@.len() - k,
        {
            let note = self.errors[k].as_str().to_owned();
            proof {
                lemma_texts_push(now.errors@, note);
                assert(renamed.errors + done.errors.take(k + 1) =~= (renamed.errors
                    + done.errors.take(k as int)).push(note@));
            }
            now.errors.push(note);
            k += 1;
        }
        assert(done.errors.take(k as int) =~= done.errors);
        *self = now;
    }

    /// Sets the fields that have parameters of their own, but for the
    /// designator.
    pub fn set_parameters(&mut self, reference: &str, args: &Json)
        ensures
            final(self)@ == old(self)@.set_parameters(reference@, *args),
    {
        if let Some(value) = opt_str(args, "value") {
            self.set(reference, "Value", value);
        }
        if let Some(footprint) = opt_str(args, "footprint") {
            self.set(reference, "Footprint", footprint);
        }
        if let Some(datasheet) = opt_str(args, "datasheet") {
            self.set(reference, "Datasheet", datasheet);
        }
    }

    /// Sets a custom field on every unit: in place, or added at the unit's
    /// place as `places` shows it.
    pub fn set_field(&mut self, reference: &str, name: &str, value: &Json, places: &Vec<PointText>)
        requires
            places@.len() == instance_blocks(old(self)@.content, reference@).len(),
        ensures
            final(self)@ == old(self)@.set_field(reference@, name@, *value, places@),
    {
        let text = match value.as_str() {
            Some(text) => text,
            None => {
                self.fail(join2(name, ": field values must be strings"));
                return;
            },
        };
        if is_reserved_property(name) {
            let parameter = if same(name, "Reference") {
                "reference"
            } else if same(name, "Value") {
                "value"
            } else if same(name, "Footprint") {
                "footprint"
            } else {
                "datasheet"
            };
            self.fail(
                join4(
                    name,
                    ": set this through the '",
                    parameter,
                    "' parameter, not 'fields'",
                ),
            );
            return;
        }
        let had = property_exists(self.content.as_str(), reference, name);
        match set_property(self.content.as_str(), reference, name, text, places) {
            Ok(content) => {
                let note = if had {
                    join3(name, " → ", text)
                } else {
                    join4(name, " → ", text, " (added)")
                };
                self.change(content, note)
            },
            Err(why) => self.fail(join3(name, ": ", why.as_str())),
        }
    }

    /// Sets custom fields, one after the other.
    fn set_fields(&mut self, reference: &str, members: &Vec<(String, Json)>, places: &Vec<PointText>)
        ensures
            final(self)@ == old(self)@.set_fields(
                reference@,
                members@,
                members@.len() as int,
                places@,
            ),
    {
        let ghost begun = self@;
        let mut k: usize = 0;
        while k < members.len()
            invariant
                k <= members@.len(),
                self@ == begun.set_fields(reference@, members@, k as int, places@),
            decreases members@.len() - k,
        {
            let name = members[k].0.as_str();
            let blocks = find_all_symbol_instance_blocks(self.content.as_str(), reference);
            assert(spans(blocks@).len() == blocks@.len());
            if places.len() == blocks.len() {
                self.set_field(reference, name, &members[k].1, places);
            } else {
                self.fail(
                    join4(name, ": the units of '", reference, "' are no longer the same"),
                );
            }
            k += 1;
        }
    }
}

/// Notes separated by semicolons.
pub open spec fn notes_joined(notes: Seq<Seq<char>>) -> Seq<char>
    decreases notes.len(),
{
    if notes.len() == 0 {
        Seq::empty()
    } else if notes.len() == 1 {
        notes[0]
    } else {
        notes_joined(notes.drop_last()) + "; "@ + notes.last()
    }
}

/// Notes separated by semicolons.
pub fn join_notes(notes: &Vec<String>) -> (r: String)
    ensures
        r@ == notes_joined(texts(notes@)),
{
    let ghost all = texts(notes@);
    let mut r = String::new();
    let mut i: usize = 0;
    assert(notes_joined(all.take(0)) =~= Seq::empty());
    while i < notes.len()
        invariant
            i <= notes@.len(),
            all == texts(notes@),
            r@ == notes_joined(all.take(i as int)),
        decreases notes@.len() - i,
    {
        proof {
            assert(all.take(i + 1).drop_last() =~= all.take(i as int));
            assert(all.take(i + 1).last() == notes@[i as int]@);
        }
        if i > 0 {
            r.append("; ");
        }
        let ghost before = r@;
        r.append(notes[i].as_str());
        assert(i == 0 ==> before + notes@[i as int]@ =~= notes@[i as int]@);
        i += 1;
    }
    assert(all.take(i as int) =~= all);
    r
}

/// How an edit ends: a request that changed nothing has failed.
pub open spec fn edit_failure(done: Editing, reference: Seq<char>) -> Option<Seq<char>> {
    if done.changed.len() > 0 {
        None
    } else if done.errors.len() > 0 {
        Some("No fields were updated on '"@ + reference + "': "@ + notes_joined(done.errors))
    } else {
        Some("No fields were updated on '"@ + reference + "'"@)
    }
}

/// Ends an edit. A request that changed nothing is a failure.
pub fn finish_edit(done: &EditState, reference: &str) -> (r: Result<(), ToolError>)
    ensures
        match r {
            Ok(_) => edit_failure(done@, reference@) is None,
            Err(e) => e.kind is None && edit_failure(done@, reference@) == Some(e.message@),
        },
{
    if done.changed.len() > 0 {
        return Ok(());
    }
    if done.errors.len() > 0 {
        let why = join_notes(&done.errors);
        return Err(
            ToolError::plain(
                join4("No fields were updated on '", reference, "': ", why.as_str()),
            ),
        );
    }
    Err(ToolError::plain(join3("No fields were updated on '", reference, "'")))
}

/// Edits a component as a request asks. `places` shows the numbers at which
/// each of its units sits. A request that changed nothing is a failure.
pub fn edit_component(content: &str, reference: &str, args: &Json, places: &Vec<PointText>) -> (r:
    Result<EditState, ToolError>)
    requires
        places@.len() == instance_blocks(utf8(content@), reference@).len(),
    ensures
        ({
            let done = component_edited(utf8(content@), reference@, *args, places@);
            match r {
                Ok(state) => state@ == done && edit_failure(done, reference@) is None,
                Err(e) => e.kind is None && edit_failure(done, reference@) == Some(e.message@),
            }
        }),
{
    let mut state = EditState::new(content);
    state.set_parameters(reference, args);
    if let Some(Json::Object(members)) = args.get("fields") {
        state.set_fields(reference, members, places);
    }
    if let Some(new_ref) = opt_str(args, "new_reference") {
        state.rename_noted_first(reference, new_ref);
    }
    match finish_edit(&state, reference) {
        Ok(_) => Ok(state),
        Err(e) => Err(e),
    }
}

// ── Annotations ──────────────────────────────────────────────────────────────

/// The schematic with a custom property on every unit of a component, and
/// whether the property was there before, or why it cannot be.
pub open spec fn annotated(
    s: Seq<u8>,
    reference: Seq<char>,
    key: Seq<char>,
    value: Seq<char>,
    places: Seq<PointText>,
) -> Result<(Seq<u8>, bool), Seq<char>> {
    if reserved(key) {
        Err(
            "'"@ + key
                + "' is a built-in field — set it through edit_schematic_component's dedicated parameter, not as an annotation."@,
        )
    } else if instance_block(s, reference) is None {
        Err("Component '"@ + reference + "' not found"@)
    } else {
        match property_set(s, reference, key, value, places) {
            Ok(content) => Ok((content, carries(s, reference, key))),
            Err(why) => Err(key + ": "@ + why),
        }
    }
}

/// Puts a custom property on every unit of a component. One that is there is
/// given the value; a second property of the same name is never written.
/// `places` shows the numbers at which each unit sits.
pub fn annotate(
    content: &str,
    reference: &str,
    key: &str,
    value: &str,
    places: &Vec<PointText>,
) -> (r: Result<(String, bool), ToolError>)
    requires
        places@.len() == instance_blocks(utf8(content@), reference@).len(),
    ensures
        match r {
            Ok((out, had)) => annotated(utf8(content@), reference@, key@, value@, places@) == Ok::<
                (Seq<u8>, bool),
                Seq<char>,
            >((utf8(out@), had)),
            Err(e) => e.kind is None && annotated(
                utf8(content@),
                reference@,
                key@,
                value@,
                places@,
            ) == Err::<(Seq<u8>, bool), Seq<char>>(e.message@),
        },
{
    if is_reserved_property(key) {
        return Err(
            ToolError::plain(
                join3(
                    "'",
                    key,
                    "' is a built-in field — set it through edit_schematic_component's dedicated parameter, not as an annotation.",
                ),
            ),
        );
    }
    if find_symbol_instance_block(content, reference).is_none() {
        return Err(ToolError::plain(join3("Component '", reference, "' not found")));
    }
    let had = property_exists(content, reference, key);
    match set_property(content, reference, key, value, places) {
        Ok(text) => Ok((text, had)),
        Err(why) => Err(ToolError::plain(join3(key, ": ", why.as_str()))),
    }
}

// ── Groups ───────────────────────────────────────────────────────────────────

/// The property that puts a component into a group.
pub open spec fn group_property(group: Seq<char>) -> Seq<char> {
    "    (property \"Group\" \""@ + group
        + "\"\n      (at 0 0 0)\n      (effects (font (size 1.27 1.27)) (hide yes))\n    )\n    "@
}

/// Where the property goes: before the instances of the symbol, or before the
/// end of its block.
pub open spec fn group_anchor(s: Seq<u8>, b: (int, int)) -> int {
    match first_at(s.subrange(b.0, b.1), utf8("(instances"@), 0) {
        Some(at) => b.0 + at,
        None => b.1 - 1,
    }
}

/// Grouping under way: the schematic as it now reads, the components grouped
/// so far, and their uuids.
pub struct GroupState {
    pub content: String,
    pub grouped: Vec<String>,
    pub item_ids: Vec<String>,
}

/// Grouping under way as a mathematical value.
#[verifier::ext_equal]
pub struct Grouping {
    pub content: Seq<u8>,
    pub grouped: Seq<Seq<char>>,
    pub item_ids: Seq<Seq<u8>>,
}

/// The bytes of each text.
pub open spec fn byte_texts(v: Seq<String>) -> Seq<Seq<u8>> {
    v.map_values(|s: String| utf8(s@))
}

impl View for GroupState {
    type V = Grouping;

    open spec fn view(&self) -> Grouping {
        Grouping {
            content: utf8(self.content@),
            grouped: texts(self.grouped@),
            item_ids: byte_texts(self.item_ids@),
        }
    }
}

/// The edits that put the first `n` of the units into a group.
pub open spec fn group_edits(s: Seq<u8>, blocks: Seq<(int, int)>, n: int, group: Seq<char>) -> Seq<
    Edit,
>
    decreases n,
{
    if n <= 0 {
        Seq::empty()
    } else {
        let at = group_anchor(s, blocks[n - 1]);
        group_edits(s, blocks, n - 1, group).push(
            Edit { start: at, end: at, text: utf8(group_property(group)) },
        )
    }
}

/// The schematic with every unit of a component in a group.
pub open spec fn put_in_group(s: Seq<u8>, reference: Seq<char>, group: Seq<char>) -> Seq<u8> {
    let blocks = instance_blocks(s, reference);
    edited(s, group_edits(s, blocks, blocks.len() as int, group))
}

/// The first `n` components grouped, with every unit of each. A designator
/// that no symbol bears is passed over; uuids are those of the schematic as it
/// was at first.
pub open spec fn grouped(s: Seq<u8>, refs: Seq<Seq<char>>, group: Seq<char>, n: int) -> Result<
    Grouping,
    Seq<char>,
>
    decreases n,
{
    if n <= 0 {
        Ok(Grouping { content: s, grouped: Seq::empty(), item_ids: Seq::empty() })
    } else {
        match grouped(s, refs, group, n - 1) {
            Ok(g) => if instance_blocks(g.content, refs[n - 1]).len() == 0 {
                Ok(g)
            } else {
                match item_ids(s, refs[n - 1]) {
                    Ok(ids) => Ok(
                        Grouping {
                            content: put_in_group(g.content, refs[n - 1], group),
                            grouped: g.grouped.push(refs[n - 1]),
                            item_ids: g.item_ids + ids,
                        },
                    ),
                    Err(why) => Err(why),
                }
            },
            Err(why) => Err(why),
        }
    }
}

/// A failure among the first components is the failure of all.
proof fn lemma_grouped_fails(s: Seq<u8>, refs: Seq<Seq<char>>, group: Seq<char>, k: int, n: int)
    requires
        k <= n,
        grouped(s, refs, group, k) is Err,
    ensures
        grouped(s, refs, group, n) == grouped(s, refs, group, k),
    decreases n - k,
{
    if k < n {
        lemma_grouped_fails(s, refs, group, k, n - 1);
        if n <= 0 {
            assert(grouped(s, refs, group, k) is Ok);
        }
    }
}

fn find_group_anchor(content: &str, start: usize, end: usize) -> (r: usize)
    requires
        crate::scan::block_end(utf8(content@), start as int) == Some(end as int),
    ensures
        r == group_anchor(utf8(content@), (start as int, end as int)),
        r <= utf8(content@).len(),
        vstd::utf8::is_char_boundary(utf8(content@), r as int),
{
    let ghost s = utf8(content@);
    let block = block_text(content, start, end);
    proof {
        crate::scan::lemma_block_end(s, start as int);
        lemma_ascii_boundary(content@, end - 1);
        reveal_strlit("(instances");
        lemma_first_at(utf8(block@), utf8("(instances"@), 0);
    }
    let total = byte_len(content);
    match find_from(block, "(instances", 0) {
        Some(at) => {
            proof {
                crate::properties::lemma_within(
                    s,
                    start as int,
                    end as int,
                    utf8("(instances"@),
                    at as int,
                );
                lemma_occurrence_cut(content@, "(instances"@, start + at);
            }
            start + at
        },
        None => end - 1,
    }
}

/// Puts every unit of a component into a group.
fn group_units(
    content: &str,
    blocks: &Vec<(usize, usize)>,
    property: &str,
    reference: &str,
    group_name: &str,
) -> (r: String)
    requires
        spans(blocks@) == instance_blocks(utf8(content@), reference@),
        property@ == group_property(group_name@),
    ensures
        utf8(r@) == put_in_group(utf8(content@), reference@, group_name@),
{
    let ghost s = utf8(content@);
    let ghost all = instance_blocks(s, reference@);
    proof {
        lemma_units(s, reference@);
    }
    let mut edits: Vec<SexpEdit> = Vec::new();
    let mut k: usize = 0;
    assert(edit_views(edits@) =~= group_edits(s, all, 0, group_name@));
    while k < blocks.len()
        invariant
            k <= blocks@.len(),
            s == utf8(content@),
            spans(blocks@) == all,
            property@ == group_property(group_name@),
            forall|j: int| 0 <= j < all.len() ==> unit_shaped(s, #[trigger] all[j]),
            edit_views(edits@) == group_edits(s, all, k as int, group_name@),
            all_fit(edit_views(edits@), s),
        decreases blocks@.len() - k,
    {
        assert(all[k as int] == span(blocks@[k as int]));
        assert(unit_shaped(s, all[k as int]));
        let ghost before = edits@;
        let at = find_group_anchor(content, blocks[k].0, blocks[k].1);
        edits.push(SexpEdit::insert(at, property.to_owned()));
        assert(edit_views(edits@) =~= group_edits(s, all, k + 1, group_name@));
        k += 1;
    }
    assert(all.len() == blocks@.len());
    apply_edits(content, edits)
}

/// Puts components into a group, by a property on each of their units.
pub fn group_components(content: &str, refs: &Vec<String>, group_name: &str) -> (r: Result<
    GroupState,
    ToolError,
>)
    ensures
        match r {
            Ok(g) => refs@.len() > 0 && grouped(
                utf8(content@),
                texts(refs@),
                group_name@,
                refs@.len() as int,
            ) == Ok::<Grouping, Seq<char>>(g@),
            Err(e) => e.kind is None && if refs@.len() == 0 {
                e.message@ == "No references provided"@
            } else {
                grouped(utf8(content@), texts(refs@), group_name@, refs@.len() as int) == Err::<
                    Grouping,
                    Seq<char>,
                >(e.message@)
            },
        },
{
    if refs.len() == 0 {
        return Err(ToolError::plain("No references provided".to_owned()));
    }
    let ghost s = utf8(content@);
    let ghost all = texts(refs@);
    let property = join3(
        "    (property \"Group\" \"",
        group_name,
        "\"\n      (at 0 0 0)\n      (effects (font (size 1.27 1.27)) (hide yes))\n    )\n    ",
    );
    let mut now = GroupState {
        content: content.to_owned(),
        grouped: Vec::new(),
        item_ids: Vec::new(),
    };
    let mut k: usize = 0;
    assert(texts(now.grouped@) =~= Seq::empty());
    assert(byte_texts(now.item_ids@) =~= Seq::empty());
    while k < refs.len()
        invariant
            k <= refs@.len(),
            0 < refs@.len(),
            s == utf8(content@),
            all == texts(refs@),
            property@ == group_property(group_name@),
            grouped(s, all, group_name@, k as int) == Ok::<Grouping, Seq<char>>(now@),
        decreases refs@.len() - k,
    {
        assert(all[k as int] == refs@[k as int]@);
        let ghost before = now;
        let blocks = find_all_symbol_instance_blocks(now.content.as_str(), refs[k].as_str());
        assert(spans(blocks@).len() == blocks@.len());
        if blocks.len() > 0 {
            let text = group_units(
                now.content.as_str(),
                &blocks,
                property.as_str(),
                refs[k].as_str(),
                group_name,
            );
            match symbol_item_ids(content, refs[k].as_str()) {
                Ok(mut ids) => {
                    let ghost found = ids@;
                    now.content = text;
                    now.item_ids.append(&mut ids);
                    now.grouped.push(refs[k].clone());
                    assert(texts(now.grouped@) =~= texts(before.grouped@).push(refs@[k as int]@));
                    assert(byte_texts(now.item_ids@) =~= byte_texts(before.item_ids@) + byte_texts(
                        found,
                    ));
                },
                Err(why) => {
                    proof {
                        lemma_grouped_fails(s, all, group_name@, k + 1, refs@.len() as int);
                    }
                    return Err(ToolError::plain(why));
                },
            }
        }
        k += 1;
    }
    Ok(now)
}

} // verus!
