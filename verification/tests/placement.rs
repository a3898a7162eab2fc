use konnect_core::node::SexpNode;
use konnect_core::num::Num;
use konnect_core::numeral::coordinate_text;
use konnect_core::pins::{pins_of, NoPins, PinPlace, PlacedSymbol, SymbolPins};
use konnect_core::placement::{
    component_report, delete_component, find_component, place_one_component, set_property_at,
    symbol_base_name, Definition, InstanceEntry, NewComponent, PlaceText, Placement, Property,
    Symbol,
};
use konnect_core::project::{
    ensure_root_uuid, project_name_for, sheet_instance_context, SheetInstanceContext,
};
use konnect_core::reset::{reset_field_positions, text_precedes, FieldTargets};

fn num(v: f64) -> Num {
    Num { bits: v.to_bits() }
}

fn shown(v: f64) -> String {
    coordinate_text(&format!("{v:.6}"))
}

fn place(x: f64, y: f64, rotation: f64) -> PlaceText {
    PlaceText { x: shown(x), y: shown(y), rotation: shown(rotation) }
}

/// Where a field of a symbol at `origin` goes: its library anchor, with y
/// turned downward, carried around with the body.
fn field_at(anchor: (f64, f64, f64), origin: (f64, f64), rotation: f64) -> PlaceText {
    let (x, y) = (anchor.0, -anchor.1);
    let (sin, cos) = rotation.to_radians().sin_cos();
    place(
        origin.0 + x * cos + y * sin,
        origin.1 - x * sin + y * cos,
        anchor.2.rem_euclid(180.0),
    )
}

fn written(node: &SexpNode) -> String {
    match node {
        SexpNode::Atom(t) => t.clone(),
        SexpNode::Str(t) => format!("\"{t}\""),
        SexpNode::List(items) => {
            let parts: Vec<String> = items.iter().map(written).collect();
            format!("({})", parts.join(" "))
        }
    }
}

fn field(sym: &Symbol, name: &str) -> String {
    let p = sym.properties.iter().find(|p| p.name == name).unwrap();
    let subs: Vec<String> = p.sub_nodes.iter().map(written).collect();
    format!("(property \"{}\" \"{}\" {})", p.name, p.value, subs.join(" "))
}

fn found(unit_count: u32) -> Definition {
    Definition { embedded: true, unit_count, library_exists: true, suggestions: vec![] }
}

fn new_component(lib_id: &str, reference: &str, value: Option<&str>, unit: u32) -> NewComponent {
    NewComponent {
        lib_id: lib_id.to_string(),
        reference: reference.to_string(),
        value: value.map(|v| v.to_string()),
        unit,
        uuid: "new-uuid".to_string(),
        project_name: "amp".to_string(),
        instance_path: "/root".to_string(),
    }
}

fn placement(x: f64, y: f64, rotation: f64) -> Placement {
    Placement {
        x: num(x),
        y: num(y),
        rotation: num(rotation),
        reference_at: field_at((0.0, 3.81, 0.0), (x, y), rotation),
        value_at: field_at((0.0, -3.81, 0.0), (x, y), rotation),
        origin: place(x, y, 0.0),
        reference_justify: vec![],
        value_justify: vec![],
    }
}

fn place_rotated_resistor(rotation: f64) -> (String, String) {
    let mut at = placement(101.6, 50.8, rotation);
    at.reference_at = field_at((2.032, 0.0, 90.0), (101.6, 50.8), rotation);
    at.value_at = field_at((0.0, 0.0, 90.0), (101.6, 50.8), rotation);
    let mut symbols = vec![];
    let new = new_component("Device:R", "R1", Some("10k"), 1);
    let value = place_one_component(&mut symbols, &new, &at, &found(1)).unwrap();
    assert_eq!(value, "10k");
    (field(&symbols[0], "Reference"), field(&symbols[0], "Value"))
}

#[test]
fn placement_carries_the_librarys_field_justification() {
    let mut at = placement(101.6, 50.8, 0.0);
    at.reference_justify = vec!["left".to_string()];
    at.value_justify = vec!["left".to_string()];
    let mut symbols = vec![];
    let new = new_component("Regulator_Linear:AP2112K-3.3", "U2", Some("AP2112K-3.3"), 1);
    place_one_component(&mut symbols, &new, &at, &found(1)).unwrap();
    for name in ["Reference", "Value"] {
        let written = field(&symbols[0], name);
        assert!(
            written.contains("(justify left)"),
            "{name} must keep the library's justification: {written}"
        );
    }
    // Hidden fields have no library anchor here, so they stay centred.
    assert!(!field(&symbols[0], "Footprint").contains("justify"));

    let (reference, _) = place_rotated_resistor(0.0);
    assert!(
        !reference.contains("justify"),
        "a centred library field must not gain a justify: {reference}"
    );
}

#[test]
fn unrotated_symbol_takes_the_librarys_field_anchors() {
    let (reference, value) = place_rotated_resistor(0.0);
    assert!(
        reference.contains("(at 103.632 50.8 90)"),
        "Reference belongs beside the body, rotated: {reference}"
    );
    assert!(
        value.contains("(at 101.6 50.8 90)"),
        "Value belongs on the body's axis, rotated: {value}"
    );
}

#[test]
fn rotated_symbol_carries_its_fields_around_with_it() {
    let (reference, value) = place_rotated_resistor(90.0);
    assert!(
        reference.contains("(at 101.6 48.768 90)"),
        "Reference must follow the rotated body: {reference}"
    );
    assert!(
        value.contains("(at 101.6 50.8 90)"),
        "Value must follow the rotated body: {value}"
    );
}

#[test]
fn add_schematic_component_hides_power_reference() {
    let mut symbols = vec![];
    let new = new_component("power:GND", "#PWR010", Some("GND"), 1);
    place_one_component(&mut symbols, &new, &placement(50.8, 60.96, 0.0), &found(1)).unwrap();
    let ref_sexp = field(&symbols[0], "Reference");
    let hide_at = ref_sexp.find("(hide yes)").expect("property-level hide");
    let effects_at = ref_sexp.find("(effects").expect("effects");
    assert!(hide_at < effects_at, "{ref_sexp}");
    let val_sexp = field(&symbols[0], "Value");
    assert!(!val_sexp.contains("hide"), "Value stays visible: {val_sexp}");
}

#[test]
fn add_component_writes_eeschema_style_instance_path() {
    let context: SheetInstanceContext =
        sheet_instance_context(&project_name_for("/tmp/x/amp.kicad_sch"), "root-uuid", &None);
    let mut new = new_component("Device:R", "R1", None, 1);
    new.project_name = context.project_name;
    new.instance_path = context.instance_path;
    let mut symbols = vec![];
    place_one_component(&mut symbols, &new, &placement(100.33, 80.01, 0.0), &found(1)).unwrap();
    let entry: &InstanceEntry = &symbols[0].instances[0];
    assert_eq!((entry.project.as_str(), entry.path.as_str()), ("amp", "/root-uuid"));
    assert_eq!((entry.reference.as_str(), entry.unit), ("R1", 1));
}

#[test]
fn add_component_writes_requested_unit() {
    let mut symbols = vec![];
    let new = new_component("Device:OPAMP_DUAL", "U1", None, 3);
    place_one_component(&mut symbols, &new, &placement(100.33, 80.01, 0.0), &found(3)).unwrap();
    assert_eq!(symbols[0].unit, 3, "symbol (unit N) must match the requested unit");
    assert_eq!(symbols[0].instances[0].unit, 3, "instance unit must be 3");
    assert_eq!(symbols[0].field("Value"), Some("OPAMP_DUAL"));
}

#[test]
fn add_component_rejects_out_of_range_unit() {
    let mut symbols = vec![];
    let at = placement(100.33, 80.01, 0.0);
    for bad_unit in [0, 99] {
        let new = new_component("Device:OPAMP_DUAL", "U1", None, bad_unit);
        let err = place_one_component(&mut symbols, &new, &at, &found(3)).err().unwrap();
        assert!(err.message.contains("3 unit"), "error must state the unit count: {}", err.message);
    }
    // A single-unit symbol only accepts unit 1.
    let new = new_component("Device:R", "R1", None, 2);
    assert!(place_one_component(&mut symbols, &new, &at, &found(1)).is_err());
    assert!(symbols.is_empty(), "rejected placements must not modify the schematic");
}

#[test]
fn add_component_repairs_legacy_file_without_root_uuid() {
    let mut uuid = None;
    assert_eq!(ensure_root_uuid(&mut uuid, "fresh".to_string()), "fresh");
    assert_eq!(uuid.as_deref(), Some("fresh"));
    let context = sheet_instance_context(&project_name_for("legacy.kicad_sch"), "fresh", &None);
    assert_eq!(context.project_name, "legacy");
    assert_eq!(context.instance_path, "/fresh");
    // A file that has one keeps it.
    assert_eq!(ensure_root_uuid(&mut uuid, "other".to_string()), "fresh");
}

#[test]
fn add_component_with_nonexistent_lib_id_errors_with_suggestion() {
    let mut symbols = vec![];
    let missing = Definition {
        embedded: false,
        unit_count: 1,
        library_exists: true,
        suggestions: vec!["Device:C_Polarized".to_string()],
    };
    let new = new_component("Device:CP", "C1", None, 1);
    let err = place_one_component(&mut symbols, &new, &placement(0.0, 0.0, 0.0), &missing)
        .err()
        .unwrap();
    assert!(err.message.contains("Device:CP"), "names the bad lib_id: {}", err.message);
    assert!(
        err.message.contains("C_Polarized"),
        "did-you-mean should surface the rename: {}",
        err.message
    );
    assert!(symbols.is_empty());
}

#[test]
fn add_component_with_unknown_library_says_so() {
    let mut symbols = vec![];
    let missing =
        Definition { embedded: false, unit_count: 1, library_exists: false, suggestions: vec![] };
    let new = new_component("Transistor_FET_xyzzy:IRF830", "?", None, 1);
    let err = place_one_component(&mut symbols, &new, &placement(0.0, 0.0, 0.0), &missing)
        .err()
        .unwrap();
    assert!(
        err.message.contains("Library 'Transistor_FET_xyzzy' not found"),
        "distinguishes missing library from missing symbol: {}",
        err.message
    );
}

fn property(name: &str, value: &str, at: Option<(f64, f64, f64)>) -> Property {
    let atom = |t: String| SexpNode::Atom(t);
    let sub_nodes = match at {
        Some((x, y, r)) => vec![SexpNode::List(vec![
            atom("at".to_string()),
            atom(shown(x)),
            atom(shown(y)),
            atom(shown(r)),
        ])],
        None => vec![],
    };
    Property { name: name.to_string(), value: value.to_string(), sub_nodes }
}

fn stale_resistor(with_value: bool) -> Symbol {
    let mut properties = vec![property("Reference", "R1", Some((101.6, 46.99, 0.0)))];
    if with_value {
        properties.push(property("Value", "10k", Some((101.6, 54.61, 0.0))));
    }
    Symbol {
        lib_id: "Device:R".to_string(),
        x: num(101.6),
        y: num(50.8),
        rotation: Some(num(0.0)),
        mirror: None,
        unit: 1,
        uuid: "bbbbbbbb-bbbb-cccc-dddd-eeeeeeeeeeee".to_string(),
        properties,
        instances: vec![],
    }
}

fn resistor_targets() -> Vec<FieldTargets> {
    vec![FieldTargets {
        reference: Some(field_at((2.032, 0.0, 90.0), (101.6, 50.8), 0.0)),
        value: Some(field_at((0.0, 0.0, 90.0), (101.6, 50.8), 0.0)),
    }]
}

fn names(list: &[&str]) -> Option<Vec<String>> {
    Some(list.iter().map(|s| s.to_string()).collect())
}

#[test]
fn reset_field_positions_puts_stale_fields_back_on_their_anchors() {
    let mut symbols = vec![stale_resistor(true)];
    let targets = resistor_targets();
    let report = reset_field_positions(&mut symbols, &targets, &None);
    assert_eq!(report.moved, vec!["R1.Reference", "R1.Value"]);
    assert!(!report.writes(true), "dry_run must not write");
    assert!(report.writes(false));
    assert!(field(&symbols[0], "Reference").contains("(at 103.632 50.8 90)"));
    assert!(field(&symbols[0], "Value").contains("(at 101.6 50.8 90)"));

    // Idempotent: nothing left to move on a second pass.
    let again = reset_field_positions(&mut symbols, &targets, &None);
    assert!(again.moved.is_empty());
    assert_eq!(again.unchanged, vec!["R1.Reference", "R1.Value"]);
    assert!(!again.writes(false));
}

#[test]
fn reset_field_positions_reports_an_unknown_reference() {
    let mut symbols = vec![stale_resistor(true)];
    let report = reset_field_positions(&mut symbols, &resistor_targets(), &names(&["R9"]));
    assert_eq!(report.not_found, vec!["R9"]);
    assert!(report.moved.is_empty());
    assert!(field(&symbols[0], "Reference").contains("46.99"));
}

#[test]
fn reset_field_positions_reports_unknown_references_in_a_stable_order() {
    let mut symbols = vec![stale_resistor(true)];
    let only = names(&["R9", "R2", "U7", "C3"]);
    let report = reset_field_positions(&mut symbols, &resistor_targets(), &only);
    assert_eq!(report.not_found, vec!["C3", "R2", "R9", "U7"]);
    let twice = names(&["R9", "R1", "R10", "R9"]);
    let report = reset_field_positions(&mut symbols, &resistor_targets(), &twice);
    assert_eq!(report.not_found, vec!["R10", "R9"]);
    assert!(text_precedes("R10", "R9") && !text_precedes("R9", "R9"));
}

#[test]
fn reset_field_positions_reports_a_field_the_symbol_does_not_have() {
    let mut symbols = vec![stale_resistor(false)];
    let report = reset_field_positions(&mut symbols, &resistor_targets(), &None);
    assert_eq!(report.moved, vec!["R1.Reference"]);
    assert_eq!(
        report.no_property,
        vec!["R1.Value"],
        "the skipped field must be accounted for"
    );
}

#[test]
fn fields_without_a_library_anchor_are_left_alone() {
    let mut symbols = vec![stale_resistor(true)];
    let targets = vec![FieldTargets { reference: None, value: None }];
    let report = reset_field_positions(&mut symbols, &targets, &None);
    assert_eq!(report.no_anchor, vec!["R1.Reference", "R1.Value"]);
    assert!(report.moved.is_empty());
    assert!(field(&symbols[0], "Value").contains("54.61"));
}

#[test]
fn a_field_without_a_place_is_given_one_first() {
    let mut p = property("Reference", "R1", None);
    p.sub_nodes.push(SexpNode::List(vec![SexpNode::Atom("effects".to_string())]));
    let target = place(1.0, 2.0, 90.0);
    assert!(set_property_at(&mut p, &target));
    assert_eq!(written(&p.sub_nodes[0]), "(at 1 2 90)");
    assert_eq!(p.sub_nodes.len(), 2);
    // Moving it there again is no move.
    assert!(!set_property_at(&mut p, &target));
}

#[test]
fn components_are_found_and_deleted_by_designator() {
    let mut symbols = vec![stale_resistor(true)];
    assert_eq!(find_component(&symbols, "R1").unwrap(), 0);
    assert_eq!(find_component(&symbols, "R2").err().unwrap().message, "Component 'R2' not found");
    assert_eq!(
        delete_component(&mut symbols, "R2").err().unwrap().message,
        "Component 'R2' not found in schematic"
    );
    assert!(delete_component(&mut symbols, "R1").is_ok());
    assert!(symbols.is_empty());
}

#[test]
fn a_report_fills_in_what_a_symbol_lacks() {
    let mut sym = stale_resistor(true);
    sym.mirror = Some("x".to_string());
    sym.rotation = None;
    let none = vec![];
    let r = component_report(&sym, &none);
    assert!(matches!(r.pins, Err(NoPins::NotFound)));
    assert_eq!((r.reference, r.value, r.footprint), ("R1", "10k", ""));
    assert_eq!((r.mirror_x, r.mirror_y), (true, false));
    assert_eq!(r.rotation, num(0.0));
    sym.properties.clear();
    let bare = component_report(&sym, &none);
    assert_eq!((bare.reference, bare.value), ("?", ""));
    assert!(bare.properties.is_empty());
}

#[test]
fn a_report_holds_every_property_and_the_pins_of_its_own_unit() {
    let mut sym = stale_resistor(true);
    let unit = |x: Num, y: Num, numbers: &[&str]| PlacedSymbol {
        reference: "R1".to_string(),
        lib_symbol_name: "Device:R".to_string(),
        x,
        y,
        rotation: num(0.0),
        definition: Some(SymbolPins {
            pins: numbers
                .iter()
                .map(|n| PinPlace {
                    number: n.to_string(),
                    name: "~".to_string(),
                    x,
                    y,
                    outward: num(0.0),
                    length: num(1.27),
                })
                .collect(),
            extends: None,
        }),
    };
    let placed = vec![unit(num(1e5), num(1e5), &["1"]), unit(sym.x, sym.y, &["2", "3"])];
    let names: Vec<String> = sym.properties.iter().map(|p| p.name.clone()).collect();
    let r = component_report(&sym, &placed);
    assert_eq!(r.properties.iter().map(|p| p.name.clone()).collect::<Vec<_>>(), names);
    assert_eq!(r.pins.ok(), Some(1));
    sym.x = num(-7.0);
    assert_eq!(component_report(&sym, &placed).pins.ok(), pins_of(&placed, "R1").ok());
}

#[test]
fn a_deleted_component_takes_all_its_units_with_it() {
    let mut symbols: Vec<Symbol> = vec![];
    for (reference, unit) in [("U6", 1), ("R1", 1), ("U6", 2)] {
        let new = new_component("Device:R", reference, None, unit);
        let at = placement(100.0, 80.0, 0.0);
        assert!(place_one_component(&mut symbols, &new, &at, &found(2)).is_ok());
    }
    assert!(delete_component(&mut symbols, "U6").is_ok());
    assert_eq!(symbols.len(), 1);
    assert_eq!(symbols[0].field("Reference"), Some("R1"));
    assert!(delete_component(&mut symbols, "U6").is_err());
}

#[test]
fn a_symbol_is_named_by_what_follows_its_last_colon() {
    assert_eq!(symbol_base_name("Device:R"), "R");
    assert_eq!(symbol_base_name("a:b:c"), "c");
    assert_eq!(symbol_base_name("R"), "R");
    assert_eq!(symbol_base_name("Device:"), "");
}

#[test]
fn a_placed_component_is_found_and_can_be_taken_out_again() {
    let mut symbols: Vec<Symbol> = vec![];
    for reference in ["R1", "R2"] {
        let new = new_component("Device:R", reference, None, 1);
        let at = placement(100.0, 80.0, 0.0);
        assert!(place_one_component(&mut symbols, &new, &at, &found(1)).is_ok());
    }
    assert_eq!(find_component(&symbols, "R2").ok(), Some(1));
    assert!(delete_component(&mut symbols, "R2").is_ok());
    assert_eq!(symbols.len(), 1);
    assert_eq!(symbols[0].field("Reference"), Some("R1"));
    assert!(find_component(&symbols, "R2").is_err());
}
