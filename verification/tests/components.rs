use konnect_core::args::Json;
use konnect_core::components::{
    annotate, edit_component, finish_edit, group_components, join_notes, symbol_item_ids, EditState,
};
use konnect_core::node::parse_sexp;
use konnect_core::numeral::PointText;
use konnect_core::properties::{
    append_property, is_reserved_property, placement_numerals, property_exists,
    rewrite_instance_references, set_property, update_property_value,
};
use konnect_core::replace::{check_unit, replace_component, SymbolLookup};
use konnect_core::symbols::find_all_symbol_instance_blocks;

/// One R1, with an instances path, as eeschema writes it.
const SCH: &str = "(kicad_sch\n\t(version 20250610)\n\t(generator \"eeschema\")\n\t(uuid \"root\")\n\t(lib_symbols\n\t\t(symbol \"Device:R\"\n\t\t\t(property \"Reference\" \"R\" (at 0 0 0))\n\t\t)\n\t)\n\t(symbol\n\t\t(lib_id \"Device:R\")\n\t\t(at 50 60 0)\n\t\t(unit 1)\n\t\t(uuid \"sym-1\")\n\t\t(property \"Reference\" \"R1\"\n\t\t\t(at 52 58 0)\n\t\t)\n\t\t(property \"Value\" \"10k\"\n\t\t\t(at 52 62 0)\n\t\t)\n\t\t(instances\n\t\t\t(project \"proj\"\n\t\t\t\t(path \"/root\"\n\t\t\t\t\t(reference \"R1\") (unit 1)\n\t\t\t\t)\n\t\t\t)\n\t\t)\n\t)\n\t(sheet_instances\n\t\t(path \"/\" (page \"1\"))\n\t)\n)\n";

/// A placed R1 at (100, 100), indented by two spaces.
const PLACED: &str = "(kicad_sch\n  (version 20250610)\n  (uuid \"root\")\n  (lib_symbols\n    (symbol \"Device:R\"\n      (property \"Reference\" \"R\" (at 0 0 0))\n    )\n  )\n  (symbol\n    (lib_id \"Device:R\")\n    (at 100.33 100.33 0)\n    (unit 1)\n    (uuid \"sym-1\")\n    (property \"Reference\" \"R1\" (at 100.33 96.52 0))\n    (property \"Value\" \"R\" (at 100.33 104.14 0))\n  )\n)\n";

fn text(s: &str) -> Json {
    Json::Text(s.to_string())
}

fn object(members: Vec<(&str, Json)>) -> Json {
    Json::Object(members.into_iter().map(|(k, v)| (k.to_string(), v)).collect())
}

/// The numbers of a place, as a property shows them.
fn spot(x: &str, y: &str) -> PointText {
    PointText { x: x.to_string(), y: y.to_string() }
}

/// The numbers of the place of each unit, as a property shows them.
fn places(content: &str, reference: &str) -> Vec<PointText> {
    placement_numerals(content, reference)
        .iter()
        .map(|place| match place {
            Some(p) => spot(
                &format!("{}", p.x.parse::<f64>().unwrap()),
                &format!("{}", p.y.parse::<f64>().unwrap()),
            ),
            None => spot("", ""),
        })
        .collect()
}

/// The numbers of the place of each unit, as they are written.
fn numerals(content: &str, reference: &str) -> Vec<Option<(String, String)>> {
    placement_numerals(content, reference)
        .into_iter()
        .map(|p| p.map(|p| (p.x, p.y)))
        .collect()
}

/// The sheet after an edit, and the reply.
fn edit(args: Json) -> (String, String) {
    edit_sheet(SCH, args)
}

fn edit_sheet(sheet: &str, args: Json) -> (String, String) {
    let reference = match args.get("reference") {
        Some(Json::Text(r)) => r.clone(),
        other => panic!("{other:?}"),
    };
    match edit_component(sheet, &reference, &args, &places(sheet, &reference)) {
        Ok(state) => (
            state.content,
            format!("{{\"changes\":{:?},\"errors\":{:?}}}", state.changed, state.errors),
        ),
        Err(e) => (sheet.to_string(), e.message),
    }
}

#[test]
fn renaming_a_reference_rewrites_the_instances_path() {
    let (out, _) = edit(object(vec![("reference", text("R1")), ("new_reference", text("R7"))]));
    assert!(out.contains("(property \"Reference\" \"R7\""), "property renamed:\n{out}");
    assert!(
        out.contains("(reference \"R7\")"),
        "instances path must carry the new designator, or the netlist ignores the rename:\n{out}"
    );
    assert!(
        !out.contains("(reference \"R1\")"),
        "no instances entry may keep the old designator:\n{out}"
    );
}

#[test]
fn a_new_custom_field_is_written_into_the_symbol() {
    let fields = object(vec![("MPN", text("RC0402FR-0710KL"))]);
    let (out, reply) = edit(object(vec![("reference", text("R1")), ("fields", fields)]));
    assert!(
        out.contains("(property \"MPN\" \"RC0402FR-0710KL\""),
        "custom field must land in the file:\n{out}"
    );
    assert!(out.contains("(hide yes)"), "a custom field is data, not sheet artwork:\n{out}");
    assert!(reply.contains("MPN"), "the reply must report it: {reply}");
    assert!(
        !out.contains("(property \"MPN\" \"RC0402FR-0710KL\"\n\t\t\t(at 0 0 0)"),
        "must not land at the sheet origin:\n{out}"
    );
    assert!(out.contains("(property \"MPN\" \"RC0402FR-0710KL\"\n\t\t\t(at 50 60 0)"), "{out}");
}

#[test]
fn an_existing_custom_field_is_updated_not_duplicated() {
    let fields = object(vec![("MPN", text("first"))]);
    let (out, _) = edit(object(vec![("reference", text("R1")), ("fields", fields)]));
    assert_eq!(out.matches("(property \"MPN\"").count(), 1);

    let (out2, _) = edit(object(vec![("reference", text("R1")), ("value", text("22k"))]));
    assert_eq!(out2.matches("(property \"Value\"").count(), 1, "{out2}");
    assert!(out2.contains("(property \"Value\" \"22k\""), "{out2}");
}

#[test]
fn a_fields_only_call_no_longer_reports_an_empty_success() {
    let fields = object(vec![("MPN", text("RC0402FR-0710KL"))]);
    let (_, reply) = edit(object(vec![("reference", text("R1")), ("fields", fields)]));
    assert!(
        !reply.contains("\"changes\":[]"),
        "a fields-only call must not report an empty change set: {reply}"
    );
}

#[test]
fn reserved_names_are_refused_inside_fields() {
    let fields = object(vec![("Reference", text("R9"))]);
    let (out, reply) = edit(object(vec![("reference", text("R1")), ("fields", fields)]));
    assert!(
        out.contains("(property \"Reference\" \"R1\""),
        "the designator must be untouched:\n{out}"
    );
    assert!(reply.contains("Reference"), "the refusal is reported: {reply}");
    assert_eq!(
        reply,
        "No fields were updated on 'R1': Reference: set this through the 'reference' parameter, \
         not 'fields'"
    );
}

#[test]
fn every_change_of_an_edit_is_noted() {
    let fields = object(vec![("MPN", text("X")), ("N", Json::Null)]);
    let (_, reply) = edit(object(vec![
        ("reference", text("R1")),
        ("value", text("22k")),
        ("footprint", text("R_0402")),
        ("fields", fields),
    ]));
    assert_eq!(
        reply,
        "{\"changes\":[\"Value → 22k\", \"MPN → X (added)\"],\"errors\":[\"Footprint: 'R1' has no \
         'Footprint' property\", \"N: field values must be strings\"]}"
    );
}

#[test]
fn an_edit_of_an_unknown_component_changes_nothing() {
    let (out, reply) = edit(object(vec![("reference", text("R9")), ("value", text("1"))]));
    assert_eq!(out, SCH);
    assert_eq!(
        reply,
        "No fields were updated on 'R9': Value: symbol 'R9' not found in this schematic"
    );
}

#[test]
fn an_edit_that_asks_for_nothing_is_refused() {
    let (out, reply) = edit(object(vec![("reference", text("R1"))]));
    assert_eq!(out, SCH);
    assert_eq!(reply, "No fields were updated on 'R1'");
}

/// Two units of a U6 and another part.
fn two_units() -> String {
    let unit = |n: u32| {
        format!(
            "\t(symbol\n\t\t(lib_id \"a:b\")\n\t\t(at {n} 2 0)\n\t\t(unit {n})\n\t\t(uuid \"u{n}\")\n\t\t\
             (property \"Reference\" \"U6\" (at 0 0 0))\n\t\t(property \"Value\" \"74HC14\" (at 0 0 \
             0))\n\t\t(instances (project \"p\" (path \"/r\" (reference \"U6\") (unit {n}))))\n\t)\n"
        )
    };
    format!(
        "(kicad_sch\n{}{}\t(symbol (lib_id \"a:b\") (property \"Reference\" \"U8\") (path (reference \
         \"U6\")))\n)\n",
        unit(1),
        unit(2)
    )
}

#[test]
fn a_rename_leaves_no_unit_behind() {
    let sheet = two_units();
    assert_eq!(find_all_symbol_instance_blocks(&sheet, "U6").len(), 2);
    let args = object(vec![("reference", text("U6")), ("new_reference", text("U7"))]);
    let (out, reply) = edit_sheet(&sheet, args);
    assert_eq!(
        reply,
        "{\"changes\":[\"Reference → U7\", \"instances reference → U7 (2)\"],\"errors\":[]}"
    );
    assert!(find_all_symbol_instance_blocks(&out, "U6").is_empty());
    let units = find_all_symbol_instance_blocks(&out, "U7");
    assert_eq!(units.len(), 2);
    for (start, end) in units {
        assert!(out[start..end].contains("(reference \"U7\")"));
        assert!(!out[start..end].contains("(reference \"U6\")"));
    }
    // Another part's path stays as it is.
    assert_eq!(out.matches("(reference \"U6\")").count(), 1);
}

#[test]
fn a_rename_onto_a_designator_in_use_joins_its_units() {
    let sheet = two_units();
    let args = object(vec![("reference", text("U6")), ("new_reference", text("U8"))]);
    let (out, _) = edit_sheet(&sheet, args);
    assert_eq!(find_all_symbol_instance_blocks(&out, "U8").len(), 3);
    assert!(find_all_symbol_instance_blocks(&out, "U6").is_empty());
}

#[test]
fn a_component_that_bears_the_new_designator_keeps_its_own_fields() {
    let other = "(symbol (lib_id \"a:b\") (at 9 9 0) (property \"Reference\" \"U8\") (property \"Value\" \
                 \"LM358\") (path (reference \"U8\")))";
    let sheet = two_units().replace("\n)\n", &format!("\n\t{other}\n)\n"));
    let args = object(vec![
        ("reference", text("U6")),
        ("new_reference", text("U8")),
        ("value", text("74LS14")),
        ("fields", object(vec![("MPN", text("X1"))])),
    ]);
    let (out, reply) = edit_sheet(&sheet, args);
    assert_eq!(
        reply,
        "{\"changes\":[\"Reference → U8\", \"instances reference → U8 (3)\", \"Value → 74LS14\", \
         \"MPN → X1 (added)\"],\"errors\":[]}"
    );
    assert!(out.contains(other), "{out}");
    assert_eq!(out.matches("(property \"Value\" \"74LS14\"").count(), 2);
    assert_eq!(out.matches("(property \"MPN\" \"X1\"").count(), 2);
    assert_eq!(find_all_symbol_instance_blocks(&out, "U8").len(), 4);
}

#[test]
fn a_rename_reaches_the_first_reference_property_of_a_unit_alone() {
    let sheet = "(kicad_sch (symbol (lib_id \"a:b\") (property \"Reference\" \"U6\") (property \
                 \"Reference\" \"U6\") (path (reference \"U6\"))))";
    let mut state = EditState::new(sheet);
    state.rename("U6", "U7");
    assert_eq!(
        state.content,
        "(kicad_sch (symbol (lib_id \"a:b\") (property \"Reference\" \"U7\") (property \"Reference\" \
         \"U6\") (path (reference \"U7\"))))"
    );
    assert!(finish_edit(&state, "U6").is_ok());
}

#[test]
fn a_field_edit_reaches_every_unit() {
    let sheet = two_units();
    let out = update_property_value(&sheet, "U6", "Value", "74LS14").unwrap();
    assert_eq!(out, sheet.replace("74HC14", "74LS14"));
    assert_eq!(update_property_value(&out, "U6", "Value", "74HC14").unwrap(), sheet);
    let fields = object(vec![("MPN", text("X1"))]);
    let (out, reply) = edit_sheet(&sheet, object(vec![("reference", text("U6")), ("fields", fields)]));
    assert_eq!(reply, "{\"changes\":[\"MPN → X1 (added)\"],\"errors\":[]}");
    // Each at the place of its own unit.
    assert!(out.contains("(property \"MPN\" \"X1\"\n\t\t\t(at 1 2 0)"), "{out}");
    assert!(out.contains("(property \"MPN\" \"X1\"\n\t\t\t(at 2 2 0)"), "{out}");
    assert_eq!(out.matches("(property \"MPN\"").count(), 2);
}

#[test]
fn other_components_stay_as_they_are() {
    let other = "(symbol (lib_id \"a:b\") (at 9 9 0) (property \"Reference\" \"U9\") (property \"Value\" \
                 \"LM358\") (path (reference \"U9\")))";
    let sheet = two_units().replace("\n)\n", &format!("\n\t{other}\n)\n"));
    let args = object(vec![
        ("reference", text("U6")),
        ("new_reference", text("U7")),
        ("value", text("74LS14 (SMD)")),
        ("fields", object(vec![("MPN", text("5\" (x)"))])),
    ]);
    let (out, _) = edit_sheet(&sheet, args);
    let units = find_all_symbol_instance_blocks(&out, "U9");
    assert_eq!(units.len(), 1);
    assert_eq!(&out[units[0].0..units[0].1], other);
    assert_eq!(find_all_symbol_instance_blocks(&out, "U7").len(), 2);
    assert_eq!(out.matches("(property \"Value\" \"74LS14 (SMD)\"").count(), 2);
    assert_eq!(out.matches("(property \"MPN\" \"5\\\" (x)\"").count(), 2);
    assert!(parse_sexp(&out).is_ok());
}

#[test]
fn a_field_that_one_unit_lacks_is_added_there() {
    let sheet = two_units();
    let first = sheet.find("74HC14").unwrap();
    let at = sheet[first..].find("\n").unwrap() + first;
    let one = format!("{}\n\t\t(property \"MPN\" \"old\" (at 0 0 0)){}", &sheet[..at], &sheet[at..]);
    let shown = places(&one, "U6");
    let out = set_property(&one, "U6", "MPN", "new", &shown).unwrap();
    assert_eq!(out.matches("(property \"MPN\" \"new\"").count(), 2);
    assert!(!out.contains("\"old\""));
}

#[test]
fn a_property_is_appended_to_every_unit_whether_it_carries_one_or_not() {
    let sheet = two_units();
    let first = sheet.find("74HC14").unwrap();
    let at = sheet[first..].find("\n").unwrap() + first;
    let one = format!("{}\n\t\t(property \"MPN\" \"old\" (at 0 0 0)){}", &sheet[..at], &sheet[at..]);
    let out = append_property(&one, "U6", "MPN", "new", &places(&one, "U6")).unwrap();
    assert_eq!(out.matches("(property \"MPN\" \"new\"").count(), 2);
    assert_eq!(out.matches("(property \"MPN\" \"old\"").count(), 1);
    let (start, end) = find_all_symbol_instance_blocks(&out, "U6")[0];
    assert_eq!(out[start..end].matches("(property \"MPN\"").count(), 2);
}

#[test]
fn fields_are_set_along_with_a_new_designator() {
    let fields = object(vec![("MPN", text("X1"))]);
    let (out, reply) = edit_sheet(
        &two_units(),
        object(vec![
            ("reference", text("U6")),
            ("new_reference", text("U7")),
            ("value", text("74LS14")),
            ("fields", fields),
        ]),
    );
    assert_eq!(
        reply,
        "{\"changes\":[\"Reference → U7\", \"instances reference → U7 (2)\", \"Value → 74LS14\", \
         \"MPN → X1 (added)\"],\"errors\":[]}"
    );
    assert_eq!(out.matches("(property \"Value\" \"74LS14\"").count(), 2);
    assert_eq!(out.matches("(property \"MPN\" \"X1\"").count(), 2);
}

#[test]
fn fields_keep_the_old_designator_where_there_is_nothing_to_rename() {
    let args = object(vec![
        ("reference", text("R9")),
        ("new_reference", text("R1")),
        ("value", text("1")),
    ]);
    let (out, reply) = edit(args);
    assert_eq!(out, SCH);
    assert_eq!(
        reply,
        "No fields were updated on 'R9': Reference: symbol 'R9' not found in this schematic; \
         instances reference: 'R1' has no (reference \"R9\") in its instances path — the property \
         was renamed but the netlist still reads the old designator; Value: symbol 'R9' not found in \
         this schematic"
    );
}

#[test]
fn a_path_is_renamed_in_every_unit() {
    let unit = |n: u32| {
        format!(
            "(symbol (lib_id \"a:b\") (at 1 2 0) (unit {n}) (uuid \"u{n}\") (property \"Reference\" \
             \"U7\" (at 0 0 0)) (instances (project \"p\" (path \"/r\" (reference \"U6\") (unit {n})))))"
        )
    };
    let other = "(symbol (lib_id \"a:b\") (property \"Reference\" \"U8\") (path (reference \"U6\")))";
    let sheet = format!("(kicad_sch {} {} {})", unit(1), unit(2), other);
    let (out, count) = rewrite_instance_references(&sheet, "U6", "U7").unwrap();
    assert_eq!(count, 2);
    assert_eq!(out.matches("(reference \"U7\")").count(), 2);
    // What still bears the old designator is another component's.
    assert_eq!(out.matches("(reference \"U6\")").count(), 1);
    assert!(out.contains(other));
}

#[test]
fn a_rename_that_reaches_no_instances_path_is_an_error() {
    assert_eq!(
        rewrite_instance_references(SCH, "R1", "R5").unwrap_err(),
        "symbol 'R1' not found after the rename"
    );
    assert_eq!(
        rewrite_instance_references(SCH, "R0", "R1").unwrap_err(),
        "'R1' has no (reference \"R0\") in its instances path — the property was renamed but the \
         netlist still reads the old designator"
    );
}

#[test]
fn a_value_is_replaced_in_place_and_nothing_else() {
    let out = update_property_value(SCH, "R1", "Value", "4k7").unwrap();
    assert_eq!(out, SCH.replace("\"10k\"", "\"4k7\""));
    assert_eq!(
        update_property_value(SCH, "R1", "MPN", "x").unwrap_err(),
        "'R1' has no 'MPN' property"
    );
    assert_eq!(
        update_property_value(SCH, "R2", "Value", "x").unwrap_err(),
        "symbol 'R2' not found in this schematic"
    );
}

#[test]
fn a_property_is_found_in_its_own_symbol_only() {
    assert!(property_exists(SCH, "R1", "Value"));
    assert!(!property_exists(SCH, "R1", "MPN"));
    assert!(!property_exists(SCH, "R2", "Value"));
    for name in ["Reference", "Value", "Footprint", "Datasheet"] {
        assert!(is_reserved_property(name));
    }
    assert!(!is_reserved_property("MPN"));
    assert!(!is_reserved_property("reference"));
}

#[test]
fn a_new_property_is_escaped_and_set_in_like_its_neighbours() {
    let out = append_property(PLACED, "R1", "Note", "5\" \\ x", &vec![spot("1.5", "-2")]).unwrap();
    let added = "\n    (property \"Note\" \"5\\\" \\\\ x\"\n    \t(at 1.5 -2 0)\n    \t(hide yes)\n    \
                 \t(effects\n    \t\t(font\n    \t\t\t(size 1.27 1.27)\n    \t\t)\n    \t)\n    )";
    assert!(out.contains(added), "{out}");
    assert_eq!(out.replace(added, ""), PLACED);
    assert!(parse_sexp(&out).is_ok());
}

#[test]
fn a_symbol_without_a_readable_place_takes_no_property() {
    let sheet = "(kicad_sch (symbol (lib_id \"a:b\") (property \"Reference\" \"R1\")))";
    assert_eq!(numerals(sheet, "R1"), vec![None]);
    assert_eq!(
        append_property(sheet, "R1", "a", "b", &vec![spot("0", "0")]).unwrap_err(),
        "'R1' has no readable (at …) placement"
    );
    let sheet = "(kicad_sch (symbol (lib_id \"a:b\") (at 1e1 -.5 0) (property \"Reference\" \"R1\")))";
    assert_eq!(numerals(sheet, "R1"), vec![Some(("1e1".to_string(), "-.5".to_string()))]);
    let sheet = "(kicad_sch (symbol (lib_id \"a:b\") (at x 5) (property \"Reference\" \"R1\")))";
    assert_eq!(numerals(sheet, "R1"), vec![None]);
}

#[test]
fn a_property_is_set_in_by_blanks_alone() {
    let sheet = "(kicad_sch\n  (symbol (lib_id \"a:b\") (at 1 2 0)\n\t (unit 1) (property \"Reference\" \"R1\" (at 0 0 0))))";
    let out = append_property(sheet, "R1", "k", "v", &vec![spot("1", "2")]).unwrap();
    assert!(out.contains("\n\t (property \"k\" \"v\"\n\t \t(at 1 2 0)\n"), "{out}");
    assert!(parse_sexp(&out).is_ok());
}

fn annotated(content: &str, key: &str, value: &str) -> (String, bool) {
    annotate(content, "R1", key, value, &places(content, "R1")).unwrap()
}

#[test]
fn add_component_annotation_updates_an_existing_key_in_place() {
    let (first, existing) = annotated(PLACED, "MPN", "RC0402");
    assert!(!existing);
    let (after, existing) = annotated(&first, "MPN", "RC0603");
    assert!(existing);
    assert_eq!(
        after.matches("(property \"MPN\"").count(),
        1,
        "one MPN property, updated in place:\n{after}"
    );
    assert!(after.contains("RC0603"), "{after}");
    assert!(!after.contains("RC0402"), "old value must be gone:\n{after}");
    assert!(parse_sexp(&after).is_ok());
}

#[test]
fn a_value_with_parentheses_is_annotated_and_replaced_like_any_other() {
    let (first, _) = annotated(SCH, "Tolerance", "10k (1%)");
    let (after, existing) = annotated(&first, "Tolerance", "10k (0.1%) :)");
    assert!(existing);
    assert_eq!(after.matches("(property \"Tolerance\"").count(), 1, "{after}");
    assert_eq!(after, annotated(SCH, "Tolerance", "10k (0.1%) :)").0);
    assert_eq!(update_property_value(&after, "R1", "Tolerance", "10k (1%)").unwrap(), first);
    assert!(parse_sexp(&after).is_ok());
}

#[test]
fn add_component_annotation_anchors_at_the_symbol_not_the_origin() {
    let (after, _) = annotated(PLACED, "MPN", "RC0402");
    let prop_at = after.find("(property \"MPN\"").unwrap();
    let prop_block = &after[prop_at..prop_at + 120];
    assert!(
        !prop_block.contains("(at 0 0 0)"),
        "annotation must anchor near its symbol, not the origin:\n{prop_block}"
    );
    assert!(prop_block.contains("(at 100"), "{prop_block}");
}

#[test]
fn add_component_annotation_refuses_reserved_keys() {
    let err = annotate(PLACED, "R1", "Reference", "R9", &vec![spot("0", "0")]).err().unwrap();
    assert!(err.message.contains("edit_schematic_component"), "{}", err.message);
    assert_eq!(
        err.message,
        "'Reference' is a built-in field — set it through edit_schematic_component's dedicated \
         parameter, not as an annotation."
    );
}

#[test]
fn an_annotation_of_an_unknown_component_is_refused() {
    let err = annotate(PLACED, "R9", "MPN", "x", &vec![]).err().unwrap();
    assert_eq!(err.message, "Component 'R9' not found");
}

#[test]
fn components_are_grouped_by_a_property_before_their_instances() {
    let refs = vec!["R1".to_string(), "R9".to_string()];
    let done = group_components(SCH, &refs, "PSU").unwrap();
    assert_eq!(done.grouped, vec!["R1"]);
    assert_eq!(done.item_ids, vec!["sym-1"]);
    assert!(done.content.contains(
        "    (property \"Group\" \"PSU\"\n      (at 0 0 0)\n      (effects (font (size 1.27 1.27)) \
         (hide yes))\n    )\n    (instances"
    ));
    assert!(parse_sexp(&done.content).is_ok());
    let units = group_components(&two_units(), &vec!["U6".to_string()], "PSU").unwrap();
    assert_eq!(units.grouped, vec!["U6"]);
    assert_eq!(units.item_ids, vec!["u1", "u2"]);
    assert_eq!(units.content.matches("(property \"Group\" \"PSU\"").count(), 2);
    let err = group_components(SCH, &vec![], "PSU").err().unwrap();
    assert_eq!(err.message, "No references provided");
}

#[test]
fn a_component_is_identified_by_its_uuid() {
    assert_eq!(symbol_item_ids(SCH, "R1"), Ok(vec!["sym-1".to_string()]));
    assert_eq!(symbol_item_ids(&two_units(), "U6"), Ok(vec!["u1".to_string(), "u2".to_string()]));
    assert_eq!(symbol_item_ids(SCH, "R2"), Err("component 'R2' not found".to_string()));
    assert!(symbol_item_ids("(kicad_sch (symbol (lib_id ) (property \"Reference\" \"R1\" \"x))", "R1").is_err());
    let sheet = "(kicad_sch (symbol (lib_id \"a:b\") (property \"Reference\" \"R1\")))";
    assert_eq!(symbol_item_ids(sheet, "R1"), Err("component 'R1' has no UUID".to_string()));
}

#[test]
fn notes_are_joined_by_semicolons() {
    assert_eq!(join_notes(&vec![]), "");
    assert_eq!(join_notes(&vec!["a".to_string(), "b".to_string(), "c".to_string()]), "a; b; c");
}

const DUAL: &str = "(kicad_sch\n\t(uuid \"root\")\n\t(lib_symbols\n\t\t(symbol \"Device:OPAMP_DUAL\")\n\t)\n\t(symbol\n\t\t(lib_id \"Device:OPAMP_DUAL\")\n\t\t(at 100.33 80.01 0)\n\t\t(unit 1)\n\t\t(uuid \"u\")\n\t\t(property \"Reference\" \"U1\" (at 0 0 0))\n\t\t(instances\n\t\t\t(project \"swap\" (path \"/root\" (reference \"U1\") (unit 1)))\n\t\t)\n\t)\n)\n";

fn lookup(definition: Option<&str>, unit_count: u32) -> SymbolLookup {
    SymbolLookup {
        definition: definition.map(|d| d.to_string()),
        unit_count,
        library_exists: true,
        suggestions: vec![],
    }
}

#[test]
fn replace_component_sets_validated_unit() {
    let found = lookup(Some("(symbol \"Device:OPAMP_DUAL\")"), 3);
    // A unit that the new symbol does not have is refused before anything is written.
    let bad = replace_component(DUAL, "U1", "Device:OPAMP_DUAL", Some(99), &found).err().unwrap();
    assert!(bad.message.contains("3 unit"));

    let (raw, old_lib_id) =
        replace_component(DUAL, "U1", "Device:OPAMP_DUAL", Some(2), &found).unwrap();
    assert_eq!(old_lib_id, "Device:OPAMP_DUAL");
    assert!(raw.contains("(unit 2)"), "unit must be updated to 2:\n{raw}");
    assert!(!raw.contains("(unit 1)"), "no stale (unit 1) may remain in the instance:\n{raw}");
    assert_eq!(raw, DUAL.replace("(unit 1)", "(unit 2)"));
}

#[test]
fn a_replacement_embeds_its_definition() {
    let found = lookup(Some("(symbol \"Device:C\"\n\t(x)\n)"), 1);
    let (out, old_lib_id) = replace_component(DUAL, "U1", "Device:C", None, &found).unwrap();
    assert_eq!(old_lib_id, "Device:OPAMP_DUAL");
    assert!(out.contains("(lib_id \"Device:C\")"));
    assert!(out.contains("\n\t\t(symbol \"Device:C\"\n\t\t\t(x)\n\t\t)\n\t"), "{out}");
    assert!(out.contains("(unit 1)"));
}

#[test]
fn a_replacement_by_an_unknown_symbol_is_refused() {
    let mut missing = lookup(None, 1);
    missing.suggestions = vec!["Device:C_Polarized".to_string()];
    let err = replace_component(DUAL, "U1", "Device:CP", None, &missing).err().unwrap();
    assert_eq!(
        err.message,
        "Library symbol 'Device:CP' not found in library 'Device'. Did you mean: \
         Device:C_Polarized? (KiCAD 10 renamed several older symbol names)"
    );
    let err = replace_component(DUAL, "U2", "Device:C", None, &missing).err().unwrap();
    assert_eq!(err.message, "Component 'U2' not found");
    let odd = "(kicad_sch (symbol (lib_id Device) (property \"Reference\" \"U1\")))";
    let err = replace_component(odd, "U1", "Device:C", None, &missing).err().unwrap();
    assert_eq!(err.message, "Could not find lib_id in symbol block");
}

#[test]
fn units_run_from_one_to_the_count() {
    assert!(check_unit(1, "a:b", 1).is_ok());
    assert!(check_unit(3, "a:b", 3).is_ok());
    for (unit, count) in [(0, 3), (4, 3), (1, 0)] {
        assert_eq!(
            check_unit(unit, "a:b", count).err().unwrap().message,
            format!(
                "Invalid unit {unit} for 'a:b': the symbol has {count} unit(s) (valid: 1..={count})."
            )
        );
    }
}
