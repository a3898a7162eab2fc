use konnect_core::num::Num;
use konnect_core::pins::{
    all_pin_endpoints, batch_pins, component_pin_endpoints, midwire_junctions, no_pins_entry, no_pins_error, pin_outward_at, pins_of, placed_pins,
    placed_pins_by_reference, resolve_stub_direction, stub_direction, NoPins, PinEnd, PinPlace,
    PinSight, PlacedSymbol, SymbolPins,
};

fn num(v: f64) -> Num {
    Num { bits: v.to_bits() }
}

fn pin(number: &str) -> PinPlace {
    PinPlace {
        number: number.to_string(),
        name: "~".to_string(),
        x: num(0.0),
        y: num(0.0),
        outward: num(0.0),
        length: num(1.27),
    }
}

fn placed(reference: &str, lib: &str, definition: Option<SymbolPins>) -> PlacedSymbol {
    PlacedSymbol {
        reference: reference.to_string(),
        lib_symbol_name: lib.to_string(),
        x: num(100.0),
        y: num(80.0),
        rotation: num(0.0),
        definition,
    }
}

fn with_pins(numbers: &[&str]) -> Option<SymbolPins> {
    Some(SymbolPins { pins: numbers.iter().map(|n| pin(n)).collect(), extends: None })
}

#[test]
fn pin_locations_error_on_extends_stub_with_zero_pins() {
    let stub = SymbolPins { pins: vec![], extends: Some("Device:OPAMP_DUAL".to_string()) };
    let all = vec![placed("U1", "Device:OPAMP_DERIVED", Some(stub))];
    let why = pins_of(&all, "U1").err().expect("extends stub with zero pins must be an error");
    let text = no_pins_error("U1", &why).message;
    assert!(text.contains("Device:OPAMP_DERIVED"), "error must name the lib_id: {text}");
    assert!(text.contains("Device:OPAMP_DUAL"), "error must name the extends target: {text}");
    let entry = no_pins_entry(&why);
    assert!(entry.contains("Device:OPAMP_DUAL"), "batch entry must carry the stub error: {entry}");
}

#[test]
fn pin_locations_error_when_definition_not_embedded() {
    let all = vec![placed("C1", "Device:CP", None)];
    let why = pins_of(&all, "C1").err().expect("missing definition must be an error");
    let msg = no_pins_error("C1", &why).message;
    assert!(msg.contains("Device:CP"));
    assert!(msg.contains("no embedded definition"));
    assert_eq!(
        no_pins_entry(&why),
        "no embedded definition for 'Device:CP' in lib_symbols — likely added with a nonexistent \
         lib_id"
    );
}

#[test]
fn a_component_that_is_not_there_is_not_found() {
    let none = vec![];
    let why = pins_of(&none, "R1").err().unwrap();
    assert!(matches!(why, NoPins::NotFound));
    assert_eq!(no_pins_error("R1", &why).message, "Component 'R1' not found");
    assert_eq!(no_pins_entry(&why), "not found");
}

#[test]
fn a_definition_without_pins_of_its_own_or_a_parent_has_none() {
    let all = vec![
        placed("J1", "Connector:Logo", with_pins(&[])),
        placed("R1", "Device:R", with_pins(&["1", "2"])),
        placed("R1", "Device:R_alt", None),
    ];
    assert_eq!(pins_of(&all, "J1").ok(), Some(0));
    assert_eq!(pins_of(&all, "R1").ok(), Some(1));
}

#[test]
fn pins_are_listed_symbol_by_symbol() {
    let all = vec![
        placed("U1", "a", with_pins(&["1", "2"])),
        placed("X1", "b", None),
        placed("U2", "c", with_pins(&["3"])),
    ];
    assert_eq!(placed_pins_by_reference(&all), vec![0, 2]);
    let numbers: Vec<&str> = placed_pins(&all).iter().map(|p| p.number.as_str()).collect();
    assert_eq!(numbers, vec!["1", "2", "3"]);
    assert_eq!(all_pin_endpoints(&all), vec![(num(0.0), num(0.0)); 3]);
}

#[test]
fn the_pin_ends_of_a_component_are_those_of_its_units() {
    let mut all = vec![
        placed("U1", "a", with_pins(&["1", "2"])),
        placed("U2", "b", with_pins(&["3"])),
        placed("U1", "a", None),
        placed("U1", "a", with_pins(&["4"])),
    ];
    for (i, symbol) in all.iter_mut().enumerate() {
        for (k, pin) in symbol.definition.iter_mut().flat_map(|d| d.pins.iter_mut()).enumerate() {
            pin.x = num(i as f64);
            pin.y = num(k as f64);
        }
    }
    assert_eq!(
        component_pin_endpoints(&all, "U1"),
        vec![(num(0.0), num(0.0)), (num(0.0), num(1.0)), (num(3.0), num(0.0))]
    );
    assert_eq!(component_pin_endpoints(&all, "U2"), vec![(num(1.0), num(0.0))]);
    assert!(component_pin_endpoints(&all, "U3").is_empty());
}

fn sight(here: bool, outward: f64) -> PinSight {
    PinSight { here, outward: num(outward) }
}

#[test]
fn stacked_pins_must_agree_on_the_way_out() {
    let pins = vec![sight(true, 90.0), sight(false, 0.0), sight(true, 90.0)];
    assert_eq!(pin_outward_at(&pins), Some(num(90.0)));
    assert_eq!(pin_outward_at(&vec![sight(true, 90.0), sight(true, 180.0)]), None);
    assert_eq!(pin_outward_at(&vec![sight(false, 90.0)]), None);
}

#[test]
fn a_stub_leaves_the_way_it_is_told_or_the_way_its_pin_leads() {
    for (name, dx, dy, angle) in
        [("right", 1, 0, 0), ("up", 0, -1, 90), ("left", -1, 0, 180), ("down", 0, 1, 270)]
    {
        let told = stub_direction(name, None);
        assert_eq!((told.name, told.dx, told.dy, told.angle), (name, dx, dy, angle));
        let led = stub_direction("auto", Some(num(angle as f64)));
        assert_eq!(led.name, name);
    }
    assert_eq!(stub_direction("auto", None).name, "right");
    assert_eq!(stub_direction("auto", Some(num(45.0))).name, "right");
    assert_eq!(stub_direction("sideways", Some(num(90.0))).name, "right");
    let there = vec![sight(true, 270.0)];
    assert_eq!(resolve_stub_direction("auto", &there).name, "down");
    assert_eq!(resolve_stub_direction("left", &there).name, "left");
}

#[test]
fn junctions_go_where_pins_lie_inside_wires_one_to_a_place() {
    let end = |mid_wire, on_junction| PinEnd { mid_wire, on_junction };
    let ends = vec![end(true, false), end(true, false), end(false, false), end(true, true)];
    let near = vec![
        vec![true, true, false, false],
        vec![true, true, false, false],
        vec![false, false, true, false],
        vec![false, false, false, true],
    ];
    assert_eq!(midwire_junctions(&ends, &near), vec![0]);
    let apart: Vec<Vec<bool>> = (0..4).map(|i| (0..4).map(|k| i == k).collect()).collect();
    assert_eq!(midwire_junctions(&ends, &apart), vec![0, 1]);
    assert!(midwire_junctions(&vec![], &vec![]).is_empty());
    // With the junction there, the next call adds none.
    let joined = vec![end(true, true), end(true, true), end(false, false), end(true, true)];
    assert!(midwire_junctions(&joined, &near).is_empty());
}

#[test]
fn a_batch_answers_as_single_requests_do() {
    let all = vec![placed("R1", "Device:R", with_pins(&["1", "2"])), placed("C1", "Device:C", None)];
    let references: Vec<String> = ["C1", "R1", "X9"].iter().map(|r| r.to_string()).collect();
    let batch = batch_pins(&all, &references);
    assert_eq!(batch.len(), 3);
    for (reference, answer) in references.iter().zip(&batch) {
        match (answer, pins_of(&all, reference)) {
            (Ok(i), Ok(k)) => assert_eq!(*i, k),
            (Err(a), Err(b)) => assert_eq!(no_pins_entry(a), no_pins_entry(&b)),
            _ => panic!("{reference}"),
        }
    }
    assert!(batch[1].is_ok());
}
