use konnect_core::library::{
    ensure_lib_symbol_in_schematic, indent_lib_symbol, lib_symbol_name, lib_symbol_not_found_error,
    library_name,
};
use konnect_core::node::{parse_sexp, same_tree};
use konnect_core::refresh::{
    embedded_definition, fresh_definition, moved_pin_anchors, pin_anchors, reembed_lib_symbols,
    LibraryCopy, PinAnchor, PinPlaces, ReembedOutcome,
};
use konnect_core::update::{update_report, update_targets, InstanceRef};

const BLANK: &str = "(kicad_sch\n\t(version 20250610)\n\t(uuid \"root\")\n\t(paper \"A4\")\n\t(lib_symbols\n\t)\n)\n";

/// A resistor as its library defines it.
fn resistor() -> String {
    let pin = |at: &str, number: &str| {
        format!(
            "\t\t(pin passive line (at {at}) (length 1.27)\n\t\t\t(name \"~\")\n\t\t\t(number \"{number}\")\n\t\t)\n"
        )
    };
    format!(
        "(symbol \"Device:R\"\n\t(property \"Reference\" \"R\" (at 0 0 0))\n\t(property \"Value\" \"R\" (at 0 0 0))\n\t(symbol \"R_0_1\"\n{}{}\t)\n)",
        pin("0 3.81 270", "1"),
        pin("0 -3.81 90", "2")
    )
}

fn sheet_with(definition: &str) -> String {
    let mut content = BLANK.to_string();
    let resolved = Some(definition.to_string());
    assert!(ensure_lib_symbol_in_schematic(&mut content, "Device:R", &resolved));
    content
}

fn value(a: &PinAnchor) -> (f64, f64) {
    (a.at.x.parse().unwrap(), a.at.y.parse().unwrap())
}

/// How the places of pins compare, number by number.
fn places(old: &[PinAnchor], new: &[PinAnchor]) -> PinPlaces {
    let shown = |a: &PinAnchor| {
        let (x, y) = value(a);
        (format!("{x}"), format!("{y}"))
    };
    PinPlaces {
        near: old
            .iter()
            .map(|o| {
                let (ox, oy) = value(o);
                new.iter()
                    .map(|n| {
                        let (nx, ny) = value(n);
                        (nx - ox).abs() < 1e-6 && (ny - oy).abs() < 1e-6
                    })
                    .collect()
            })
            .collect(),
        old_shown: old.iter().map(shown).collect(),
        new_shown: new.iter().map(shown).collect(),
    }
}

fn copy_of(content: &str, lib_id: &str, definition: Option<&str>) -> LibraryCopy {
    let old = embedded_definition(content, lib_id).map(|n| pin_anchors(&n)).unwrap_or_default();
    let new = definition
        .and_then(|d| parse_sexp(&fresh_definition(d)).ok())
        .map(|n| pin_anchors(&n))
        .unwrap_or_default();
    LibraryCopy { definition: definition.map(|d| d.to_string()), places: places(&old, &new) }
}

fn refreshed(content: &str, definition: Option<&str>, allow: bool) -> (String, ReembedOutcome) {
    let ids = vec!["Device:R".to_string()];
    let copies = vec![copy_of(content, "Device:R", definition)];
    let (out, mut outcomes) = reembed_lib_symbols(content, &ids, allow, &copies);
    (out, outcomes.remove(0))
}

#[test]
fn update_symbols_from_library_refreshes_a_stale_embedded_copy() {
    let content = sheet_with(&resistor());
    assert!(!content.contains("WIDENED"));
    let edited =
        resistor().replace("(property \"Value\" \"R\"", "(property \"Value\" \"WIDENED\"");
    let (after, outcome) = refreshed(&content, Some(&edited), false);
    let report = update_report(&vec!["Device:R".to_string()], vec![outcome]);
    assert_eq!(report.updated, vec!["Device:R"]);
    assert!(!report.writes(true), "dry_run must not write");
    assert!(report.writes(false));
    assert!(after.contains("WIDENED"), "{after}");
    assert!(parse_sexp(&after).is_ok(), "{after}");

    // Idempotent: a second run finds nothing to do.
    let (again, outcome) = refreshed(&after, Some(&edited), false);
    let report = update_report(&vec!["Device:R".to_string()], vec![outcome]);
    assert_eq!(report.updated.len(), 0);
    assert_eq!(report.unchanged, vec!["Device:R"]);
    assert_eq!(again, after);
}

#[test]
fn a_definition_with_blanks_behind_it_is_refreshed_once() {
    let content = sheet_with(&resistor());
    let edited = resistor().replace("(property \"Value\" \"R\"", "(property \"Value\" \"WIDE\"");
    let spaced = format!("{edited}\n  \n");
    let (after, outcome) = refreshed(&content, Some(&spaced), false);
    assert!(matches!(outcome, ReembedOutcome::Updated));
    assert!(parse_sexp(&after).is_ok(), "{after}");
    let (again, outcome) = refreshed(&after, Some(&spaced), false);
    assert!(matches!(outcome, ReembedOutcome::Unchanged));
    assert_eq!(again, after);
}

#[test]
fn a_definition_is_found_where_its_name_stands_on_the_next_line() {
    let before =
        "(kicad_sch\n\t(lib_symbols\n\t\t(symbol\n\t\t\t\"Device:R\"\n\t\t)\n\t)\n)\n";
    let mut content = before.to_string();
    assert!(ensure_lib_symbol_in_schematic(&mut content, "Device:R", &Some(resistor())));
    assert_eq!(content, before);
    assert!(ensure_lib_symbol_in_schematic(&mut content, "Device:C", &Some(resistor())));
    assert_ne!(content, before);
}

#[test]
fn update_symbols_from_library_rejects_an_unknown_reference() {
    let only = Some(vec!["U9".to_string()]);
    let err = update_targets(&vec![], &only, "empty.kicad_sch").err().unwrap();
    assert_eq!(err.message, "Component 'U9' not found in empty.kicad_sch");
}

#[test]
fn update_symbols_from_library_refuses_a_moved_pin_unless_allowed() {
    let content = sheet_with(&resistor());
    let edited = resistor().replace("(at 0 -3.81 90)", "(at 0 -5.08 90)");
    let ids = vec!["Device:R".to_string()];

    let (refused, outcome) = refreshed(&content, Some(&edited), false);
    let report = update_report(&ids, vec![outcome]);
    assert_eq!(report.updated.len(), 0);
    assert_eq!(report.pins_moved[0].0, "Device:R");
    let detail = &report.pins_moved[0].1[0];
    assert!(detail.contains("pin 2"), "{detail}");
    assert!(detail.contains("-3.81") && detail.contains("-5.08"), "{detail}");
    assert_eq!(detail, "pin 2 moved from (0, -3.81) to (0, -5.08)");
    assert!(!refused.contains("-5.08"), "a refused update must not touch the schematic");
    assert_eq!(refused, content);
    assert!(report.hint().unwrap().contains("allow_pin_moves: true"));

    // The explicit opt-in updates it.
    let (after, outcome) = refreshed(&content, Some(&edited), true);
    let report = update_report(&ids, vec![outcome]);
    assert_eq!(report.updated, vec!["Device:R"]);
    assert!(report.pins_moved.is_empty());
    assert!(report.hint().is_none());
    assert!(after.contains("(at 0 -5.08 90)"), "{after}");
    assert!(parse_sexp(&after).is_ok(), "{after}");
}

#[test]
fn update_symbols_from_library_refuses_a_removed_pin() {
    let content = sheet_with(&resistor());
    let mut edited = resistor();
    let start = edited.find("\t\t(pin passive line (at 0 -3.81 90)").unwrap();
    let end = edited.rfind("\t)\n)").unwrap();
    edited.replace_range(start..end, "");
    let (_, outcome) = refreshed(&content, Some(&edited), false);
    let report = update_report(&vec!["Device:R".to_string()], vec![outcome]);
    assert_eq!(report.updated.len(), 0);
    let detail = &report.pins_moved[0].1[0];
    assert!(detail.contains("pin 2") && detail.contains("removed"), "{detail}");
    assert_eq!(detail, "pin 2 at (0, -3.81) was removed");
}

#[test]
fn what_cannot_be_refreshed_is_reported() {
    let content = sheet_with(&resistor());
    let (same, outcome) = refreshed(&content, None, false);
    assert!(matches!(outcome, ReembedOutcome::Unresolved));
    assert_eq!(same, content);
    let (same, missing) = refreshed(BLANK, Some(&resistor()), false);
    assert!(matches!(missing, ReembedOutcome::NotEmbedded));
    assert_eq!(same, BLANK);
    let ids = vec!["Device:R".to_string(), "Device:C".to_string()];
    let report = update_report(&ids, vec![ReembedOutcome::Unresolved, ReembedOutcome::NotEmbedded]);
    assert_eq!(
        report.errors,
        vec![
            "'Device:R' no longer resolves in any registered library — the embedded copy is left as \
             it is",
            "'Device:C' has no embedded definition to update",
        ]
    );
    assert!(!report.writes(false));
}

#[test]
fn a_copy_that_is_laid_out_otherwise_is_unchanged() {
    let content = sheet_with(&resistor()).replace("\n\t\t\t(symbol", " (symbol");
    let (out, outcome) = refreshed(&content, Some(&resistor()), false);
    assert!(matches!(outcome, ReembedOutcome::Unchanged));
    assert_eq!(out, content);
}

#[test]
fn a_new_pin_is_no_move() {
    let content = sheet_with(&resistor());
    let edited = resistor().replace(
        "\t)\n)",
        "\t\t(pin passive line (at 5 0 0) (length 1) (number \"3\"))\n\t)\n)",
    );
    let (_, outcome) = refreshed(&content, Some(&edited), false);
    assert!(matches!(outcome, ReembedOutcome::Updated));
}

fn anchor(number: &str, x: &str, y: &str) -> PinAnchor {
    PinAnchor {
        number: number.to_string(),
        at: konnect_core::numeral::PointText { x: x.to_string(), y: y.to_string() },
    }
}

#[test]
fn stacked_pins_are_matched_one_by_one() {
    let old = vec![anchor("1", "0", "0"), anchor("1", "0", "0")];
    let new = vec![anchor("1", "0", "0"), anchor("1", "0", "2.54")];
    let moves = moved_pin_anchors(&old, &new, &places(&old, &new));
    assert_eq!(moves, vec!["pin 1 moved from (0, 0) to (0, 2.54)"]);
    assert!(moved_pin_anchors(&old, &old, &places(&old, &old)).is_empty());
    let one = vec![anchor("1", "0.0", "-0")];
    let moves = moved_pin_anchors(&old, &one, &places(&old, &one));
    assert_eq!(moves, vec!["pin 1 at (0, 0) was removed"]);
}

#[test]
fn pins_are_read_at_any_depth() {
    let def = parse_sexp(
        "(symbol \"U\" (pin (at 1 2) (number \"a\")) (symbol \"U_1_1\" (pin (at 3 4 0)) (pin (at x 4)) (pin)))",
    )
    .unwrap();
    let anchors = pin_anchors(&def);
    let shown: Vec<(&str, f64, f64)> =
        anchors.iter().map(|a| (a.number.as_str(), value(a).0, value(a).1)).collect();
    assert_eq!(shown, vec![("a", 1.0, 2.0), ("?", 3.0, 4.0)]);
}

#[test]
fn each_symbol_is_refreshed_once() {
    let inst = |r: &str, l: &str| InstanceRef { reference: r.to_string(), lib_id: l.to_string() };
    let all = vec![inst("R1", "Device:R"), inst("C1", "Device:C"), inst("R2", "Device:R")];
    assert_eq!(update_targets(&all, &None, "a").unwrap(), vec!["Device:R", "Device:C"]);
    let only = Some(vec!["C1".to_string()]);
    assert_eq!(update_targets(&all, &only, "a").unwrap(), vec!["Device:C"]);
    let none = Some(vec![]);
    assert!(update_targets(&all, &none, "a").unwrap().is_empty());
}

#[test]
fn a_definition_is_embedded_once() {
    let once = sheet_with(&resistor());
    assert!(once.contains("\n\t\t(symbol \"Device:R\"\n\t\t\t(property"), "{once}");
    let mut twice = once.clone();
    assert!(ensure_lib_symbol_in_schematic(&mut twice, "Device:R", &None));
    assert_eq!(twice, once);
    let tree = parse_sexp(&fresh_definition(&resistor())).unwrap();
    assert!(same_tree(&embedded_definition(&once, "Device:R").unwrap(), &tree));
}

#[test]
fn a_definition_that_does_not_resolve_is_not_embedded() {
    let mut content = BLANK.to_string();
    assert!(!ensure_lib_symbol_in_schematic(&mut content, "Device:R", &None));
    assert_eq!(content, BLANK);
}

#[test]
fn a_section_for_definitions_is_made_where_there_is_none() {
    let mut content = "(kicad_sch\n\t(version 1)\n\t(paper \"A4\")\n)\n".to_string();
    let def = Some("(symbol \"a:b\")".to_string());
    assert!(ensure_lib_symbol_in_schematic(&mut content, "a:b", &def));
    assert_eq!(
        content,
        "(kicad_sch\n\t(version 1)\n\n\t(lib_symbols\n\t\n\t\t(symbol \"a:b\")\n\t)\n\t(paper \"A4\")\n)\n"
    );
}

#[test]
fn lines_of_a_definition_are_set_in_by_two_tabs() {
    assert_eq!(indent_lib_symbol("a\n\n\tb\r\nc\n"), "\t\ta\n\n\t\t\tb\n\t\tc");
    assert_eq!(indent_lib_symbol(""), "");
    assert_eq!(fresh_definition("a\nb"), "a\n\t\tb");
}

#[test]
fn the_name_of_a_definition_may_stand_on_the_next_line() {
    assert_eq!(lib_symbol_name("(symbol \"Device:R\" (x))"), Some("Device:R"));
    assert_eq!(lib_symbol_name("(symbol\n\t\t\"Device:R\""), Some("Device:R"));
    assert_eq!(lib_symbol_name("(symbol (lib_id \"x\"))"), None);
    assert_eq!(lib_symbol_name("(sheet \"x\")"), None);
}

#[test]
fn a_missing_symbol_is_told_from_a_missing_library() {
    assert_eq!(library_name("Device:R"), "Device");
    assert_eq!(library_name("R"), "R");
    let missing = lib_symbol_not_found_error("Foo:R", false, &vec![]);
    assert_eq!(
        missing.message,
        "Library 'Foo' not found in the project or global sym-lib-table, nor as \
         'Foo.kicad_symdir'/'Foo.kicad_sym' in the installed KiCad symbol libraries (lib_id \
         'Foo:R'). Register it with register_symbol_library, or set KICAD10_SYMBOL_DIR for a \
         non-standard install."
    );
    let hints = vec!["Device:R".to_string(), "Device:R_US".to_string()];
    let near = lib_symbol_not_found_error("Device:RR", true, &hints);
    assert_eq!(
        near.message,
        "Library symbol 'Device:RR' not found in library 'Device'. Did you mean: Device:R, \
         Device:R_US? (KiCAD 10 renamed several older symbol names)"
    );
}

#[test]
fn a_copy_that_is_refused_stays_while_another_is_updated() {
    let mut content = sheet_with(&resistor());
    let capacitor = resistor().replace("Device:R", "Device:C").replace("R_0_1", "C_0_1");
    let resolved = Some(capacitor.clone());
    assert!(ensure_lib_symbol_in_schematic(&mut content, "Device:C", &resolved));
    let embedded = indent_lib_symbol(&resistor());
    assert!(content.contains(&embedded));

    let moved = resistor().replace("(at 0 -3.81 90)", "(at 0 -5.08 90)");
    let widened = capacitor.replace("\"Value\" \"R\"", "\"Value\" \"WIDENED\"");
    let ids = vec!["Device:R".to_string(), "Device:C".to_string()];
    let copies = vec![
        copy_of(&content, "Device:R", Some(&moved)),
        copy_of(&content, "Device:C", Some(&widened)),
    ];
    let (out, outcomes) = reembed_lib_symbols(&content, &ids, false, &copies);
    assert!(matches!(&outcomes[0], ReembedOutcome::PinsMoved(pins) if pins.len() == 1));
    assert!(matches!(outcomes[1], ReembedOutcome::Updated));
    assert!(out.contains(&embedded));
    assert!(out.contains("WIDENED"));
    assert!(!out.contains("-5.08"));
}
