use konnect_core::symbols::{find_all_symbol_instance_blocks, find_symbol_instance_block};

/// Instance blocks as eeschema writes them: tab-indented, and preceded by a
/// library definition that carries a Reference property of its own.
const EESCHEMA_STYLE: &str = "(kicad_sch\n\t(lib_symbols\n\t\t(symbol \"Device:R\"\n\t\t\t(property \"Reference\" \"R\"\n\t\t\t\t(at 2.032 0 90)\n\t\t\t)\n\t\t)\n\t)\n\t(symbol\n\t\t(lib_id \"Device:R\")\n\t\t(at 100 80 0)\n\t\t(property \"Reference\" \"R1\"\n\t\t\t(at 102 78 0)\n\t\t)\n\t\t(property \"Value\" \"10k\"\n\t\t\t(at 102 82 0)\n\t\t)\n\t)\n)\n";

/// The same shape, indented by two spaces.
const KONNECT_STYLE: &str = "(kicad_sch\n  (lib_symbols\n    (symbol \"Device:R\"\n      (property \"Reference\" \"R\"\n        (at 2.032 0 90)\n      )\n    )\n  )\n  (symbol\n    (lib_id \"Device:R\")\n    (at 100 80 0)\n    (property \"Reference\" \"R1\"\n      (at 102 78 0)\n    )\n  )\n)\n";

#[test]
fn finds_instance_in_tab_indented_file() {
    let (start, end) = find_symbol_instance_block(EESCHEMA_STYLE, "R1").expect("R1 block");
    let block = &EESCHEMA_STYLE[start..end];
    assert!(block.starts_with("(symbol"));
    assert!(block.contains("(lib_id \"Device:R\")"));
    assert!(block.contains("\"R1\""));
    assert!(block.contains("\"10k\""), "block must span the whole symbol");
}

#[test]
fn finds_instance_in_space_indented_file() {
    let (start, end) = find_symbol_instance_block(KONNECT_STYLE, "R1").expect("R1 block");
    assert!(KONNECT_STYLE[start..end].contains("(lib_id \"Device:R\")"));
}

#[test]
fn library_definition_is_not_mistaken_for_an_instance() {
    let sch = "(kicad_sch\n\t(lib_symbols\n\t\t(symbol \"Custom:Thing\"\n\t\t\t(property \"Reference\" \"U1\"\n\t\t\t\t(at 0 0 0)\n\t\t\t)\n\t\t)\n\t)\n\t(symbol\n\t\t(lib_id \"Custom:Thing\")\n\t\t(property \"Reference\" \"U1\"\n\t\t\t(at 5 5 0)\n\t\t)\n\t)\n)\n";
    let (start, end) = find_symbol_instance_block(sch, "U1").expect("instance");
    assert!(
        sch[start..end].contains("(lib_id "),
        "must skip the lib_symbols definition and return the placed instance"
    );
}

#[test]
fn unknown_reference_is_none() {
    assert!(find_symbol_instance_block(EESCHEMA_STYLE, "R99").is_none());
}

#[test]
fn reference_prefix_does_not_match_longer_designator() {
    // "R1" must not match the R12 instance.
    let sch = "(kicad_sch\n\t(symbol\n\t\t(lib_id \"Device:R\")\n\t\t(property \"Reference\" \"R12\"\n\t\t\t(at 1 1 0)\n\t\t)\n\t)\n)\n";
    assert!(find_symbol_instance_block(sch, "R1").is_none());
}

#[test]
fn every_unit_of_a_part_is_found_once() {
    let sch = "(kicad_sch\n  (symbol (lib_id \"A:B\") (unit 1) (property \"Reference\" \"U6\"))\n  (symbol (lib_id \"A:B\") (unit 2) (property \"Reference\" \"U6\") (property \"Reference\" \"U6\"))\n)\n";
    let all = find_all_symbol_instance_blocks(sch, "U6");
    assert_eq!(all.len(), 2);
    assert!(sch[all[0].0..all[0].1].contains("(unit 1)"));
    assert!(sch[all[1].0..all[1].1].contains("(unit 2)"));
    assert_eq!(find_symbol_instance_block(sch, "U6"), Some(all[0]));
}

#[test]
fn a_parenthesis_in_a_string_does_not_end_a_block() {
    let sch = "(symbol (lib_id \"é:)\") (property \"Reference\" \"é1\") (x))";
    assert_eq!(find_symbol_instance_block(sch, "é1"), Some((0, sch.len())));
}

#[test]
fn units_are_found_in_file_order() {
    let unit = |n: u32| format!("(symbol (lib_id \"A:B\") (unit {n}) (property \"Reference\" \"U6\"))");
    let sch = format!("(kicad_sch {} {} {})", unit(3), unit(1), unit(2));
    let all = find_all_symbol_instance_blocks(&sch, "U6");
    let order: Vec<&str> = all.iter().map(|&(s, e)| &sch[s..e]).collect();
    assert_eq!(order, [unit(3), unit(1), unit(2)]);
    assert!(all.windows(2).all(|w| w[0].1 <= w[1].0));
}
