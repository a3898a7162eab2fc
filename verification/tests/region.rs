use konnect_core::args::{ErrorKind, Json, JsonNumber};
use konnect_core::coord::FixedCoord;
use konnect_core::node::parse_sexp;
use konnect_core::num::Num;
use konnect_core::numeral::PointText;
use konnect_core::region::{
    decide, find_item_sites, item_kind, move_region_content, refuse_candidate, refuse_commit,
    region_items, region_request, skip_reason, structural_error, wire_points, Box2, Decision,
    CandidateStep, Export, MovedRegion, Reading, RegionKind, Validation,
};

const FIXTURE: &str = r##"(kicad_sch
	(version 20250610)
	(generator "eeschema")
	(uuid "11111111-2222-3333-4444-555555555555")
	(paper "A4")
	(lib_symbols
		(symbol "Device:R"
			(property "Reference" "R" (at 20 20 0))
			(symbol "R_0_1"
				(rectangle (start 20 20) (end 22 22))
			)
		)
	)
	(wire (pts (xy 10 10) (xy 20 10)) (stroke (width 0) (type default)) (uuid "internal-wire"))
	(wire (pts (xy 5 25) (xy 60 25)) (stroke (width 0) (type default)) (uuid "boundary-wire"))
	(label "SIG" (at 15 20 0) (effects (font (size 1.27 1.27))) (uuid "label-1"))
	(junction (at 20 10) (diameter 0) (color 0 0 0 0) (uuid "junction-1"))
	(no_connect (at 22 22) (uuid "no-connect-1"))
	(symbol
		(lib_id "Device:R")
		(at 30 40 0)
		(unit 1)
		(uuid "symbol-1")
		(property "Reference" "R1" (at 32 38 0))
		(property "Value" "10k" (at 32 42 90))
		(instances
			(project "p" (path "/11111111-2222-3333-4444-555555555555" (reference "R1") (unit 1)))
		)
	)
	(symbol
		(lib_id "power:GND")
		(at 40 45 0)
		(unit 1)
		(uuid "power-1")
		(property "Reference" "#PWR01" (at 40 48 0))
		(property "Value" "GND" (at 40 50 0))
	)
	(rectangle (start 10 10) (end 40 40) (stroke (width 0) (type dash)) (uuid "rect-1"))
	(text "BLOCK" (at 12 48 0) (effects (font (size 1.27 1.27))) (uuid "text-1"))
)
"##;

fn num(v: f64) -> Num {
    Num { bits: v.to_bits() }
}

fn number(text: &str) -> f64 {
    text.parse().unwrap()
}

fn point(p: &Option<PointText>) -> Option<(f64, f64)> {
    p.as_ref().map(|p| (number(&p.x), number(&p.y)))
}

fn area(x1: f64, y1: f64, x2: f64, y2: f64) -> Box2 {
    Box2 { x1: num(x1), y1: num(y1), x2: num(x2), y2: num(y2) }
}

/// Whether a segment with both ends outside a box passes through it.
fn clips(a: (f64, f64), b: (f64, f64), bounds: (f64, f64, f64, f64)) -> bool {
    let (x1, y1, x2, y2) = bounds;
    let (dx, dy) = (b.0 - a.0, b.1 - a.1);
    let (mut lo, mut hi) = (0.0f64, 1.0f64);
    for (p, q) in [(-dx, a.0 - x1), (dx, x2 - a.0), (-dy, a.1 - y1), (dy, y2 - a.1)] {
        if p.abs() < f64::EPSILON {
            if q < 0.0 {
                return false;
            }
        } else {
            let t = q / p;
            if p < 0.0 {
                lo = lo.max(t);
            } else {
                hi = hi.min(t);
            }
            if lo > hi {
                return false;
            }
        }
    }
    true
}

fn moved_by(
    content: &str,
    bounds: (f64, f64, f64, f64),
    dx: f64,
    dy: f64,
) -> Result<MovedRegion, String> {
    let (x1, y1, x2, y2) = bounds;
    let readings = region_items(content)
        .iter()
        .map(|item| {
            let (a, b) = (point(&item.a), point(&item.b));
            let sites = find_item_sites(&content[item.start..item.end], item.kind);
            let moved = sites
                .unwrap_or_default()
                .iter()
                .map(|site| {
                    let r = site.numbers.rotation.as_deref().map_or(0.0, number);
                    FixedCoord {
                        x: format!("{:.6}", number(&site.numbers.at.x) + dx),
                        y: format!("{:.6}", number(&site.numbers.at.y) + dy),
                        rotation: format!("{r:.6}"),
                    }
                })
                .collect();
            Reading {
                a: a.map(|(x, y)| (num(x), num(y))),
                b: b.map(|(x, y)| (num(x), num(y))),
                clipped: matches!((a, b), (Some(a), Some(b)) if clips(a, b, bounds)),
                moved,
            }
        })
        .collect();
    move_region_content(content, area(x1, y1, x2, y2), &readings)
}

#[test]
fn moves_complete_block_and_reports_boundary_wire() {
    let done = moved_by(FIXTURE, (10.0, 10.0, 50.0, 50.0), 5.0, 7.0).unwrap();
    let out = &done.content;
    assert!(out.contains("(xy 15 17)") && out.contains("(xy 25 17)"));
    assert!(out.contains("(at 20 27 0)"));
    assert!(out.contains("(at 35 47 0)"));
    assert!(out.contains("(junction (at 25 17)"));
    assert!(out.contains("(no_connect (at 27 29)"));
    assert!(!out.contains("(junction (at 25 17 0)"));
    assert!(!out.contains("(no_connect (at 27 29 0)"));
    assert!(out.contains("(start 15 17)") && out.contains("(end 45 47)"));
    assert!(out.contains("(uuid \"internal-wire\")"));
    assert!(out.contains("(uuid \"power-1\")"));
    assert!(out.contains("(uuid \"rect-1\")"));
    assert!(out.contains("(xy 5 25) (xy 60 25)"), "crossing wire changed: {out}");
    assert_eq!(done.moved_count(RegionKind::Wire), 1);
    assert_eq!(done.moved_count(RegionKind::Label), 1);
    assert_eq!(done.moved_count(RegionKind::PowerSymbol), 1);
    assert_eq!(done.moved_count(RegionKind::Rectangle), 1);
    assert_eq!(done.moved_count(RegionKind::Text), 1);
    assert_eq!(done.moved_count(RegionKind::Symbol), 1);
    assert_eq!(done.skipped.len(), 1);
    assert_eq!(done.skipped[0].uuid, "boundary-wire");
}

#[test]
fn handler_round_trips_native_fixture_through_kicad_and_preserves_ids() {
    let moved = moved_by(FIXTURE, (10.0, 10.0, 50.0, 50.0), 5.0, 7.0).unwrap();
    assert_eq!(structural_error(&moved.content), None);
    assert_eq!(moved.moved_count(RegionKind::Junction), 1);
    assert_eq!(moved.moved_count(RegionKind::NoConnect), 1);
    assert_eq!(moved.moved_count(RegionKind::PowerSymbol), 1);
    assert_eq!(moved.moved_count(RegionKind::Rectangle), 1);
    assert_eq!(moved.moved_count(RegionKind::Text), 1);
    assert_eq!(moved.skipped[0].uuid, "boundary-wire");

    let after_move = &moved.content;
    for id in [
        "internal-wire",
        "boundary-wire",
        "label-1",
        "junction-1",
        "no-connect-1",
        "symbol-1",
        "power-1",
        "rect-1",
        "text-1",
    ] {
        assert_eq!(
            after_move.matches(&format!("(uuid \"{id}\")")).count(),
            1,
            "UUID {id} changed"
        );
    }
    assert!(after_move.contains("(xy 5 25) (xy 60 25)"));
    assert!(after_move.contains("(label \"SIG\""));
    assert!(after_move.contains("(lib_id \"power:GND\")"));

    let inverse = moved_by(after_move, (15.0, 17.0, 55.0, 57.0), -5.0, -7.0).unwrap();
    assert_eq!(structural_error(&inverse.content), None);
    assert_eq!(inverse.content, FIXTURE);
}

#[test]
fn validation_failure_preserves_original_bytes_and_reports_evidence() {
    let failed = Validation {
        structural_error: None,
        export: Some(Export::Failed("No such file or directory".to_string())),
    };
    assert!(!failed.valid());
    let evidence = "{\"kicad_cli_export_pdf\":{\"ok\":false}}";
    let refusal = refuse_candidate(evidence);
    assert_eq!(refusal.kind_name(), Some("handler_error"));
    match refusal.kind {
        Some(ErrorKind::HandlerError { reason }) => {
            assert!(reason.contains("move_region validation failed"));
            assert!(reason.contains("kicad_cli_export_pdf"));
            assert_eq!(reason, format!("move_region validation failed; evidence={evidence}"));
        }
        other => panic!("{other:?}"),
    }
    assert_eq!(
        refusal.message,
        "move_region refused to replace the schematic; the original was preserved byte-for-byte"
    );
}

#[test]
fn a_failed_commit_reports_its_evidence_and_its_error() {
    let refusal = refuse_commit("{}", "changed on disk");
    match refusal.kind {
        Some(ErrorKind::HandlerError { reason }) => assert_eq!(
            reason,
            "move_region commit failed; evidence={}; error=changed on disk"
        ),
        other => panic!("{other:?}"),
    }
    assert_eq!(
        refusal.message,
        "move_region could not commit the validated candidate; the source was not replaced"
    );
}

#[test]
fn a_candidate_that_cannot_be_read_is_refused_without_an_export() {
    let broken = Validation::begin("(kicad_sch");
    assert_eq!(broken.next_step(), CandidateStep::Refuse);
    assert_eq!(
        broken.structural_error.as_deref(),
        Some("candidate is not one S-expression")
    );
    assert_eq!(Validation::begin("(kicad_pcb)").next_step(), CandidateStep::Refuse);
    let read = Validation::begin("(kicad_sch)");
    assert_eq!(read.next_step(), CandidateStep::Export);
    let failed = read.exported(Export::Failed("no cli".to_string()));
    assert_eq!(failed.next_step(), CandidateStep::Refuse);
    let done = Validation::begin("(kicad_sch)").exported(Export::Done(7));
    assert_eq!(done.next_step(), CandidateStep::Commit);
}

#[test]
fn a_candidate_is_valid_when_it_parses_and_exports() {
    let valid = Validation { structural_error: None, export: Some(Export::Done(1024)) };
    assert!(valid.valid());
    let unparsed = Validation { structural_error: Some("x".to_string()), export: None };
    assert!(!unparsed.valid());
    assert!(!Validation { structural_error: None, export: None }.valid());
    assert_eq!(
        structural_error("(kicad_pcb)").as_deref(),
        Some("candidate root is not kicad_sch")
    );
    assert!(structural_error("(kicad_sch").is_some());
}

#[test]
fn fields_move_with_their_symbol_and_libraries_stay() {
    let out = moved_by(FIXTURE, (10.0, 10.0, 50.0, 50.0), 5.0, 7.0).unwrap().content;
    assert!(out.contains("(property \"Reference\" \"R1\" (at 37 45 0))"), "{out}");
    assert!(out.contains("(property \"Value\" \"10k\" (at 37 49 90))"), "{out}");
    assert!(out.contains("(property \"Reference\" \"R\" (at 20 20 0))"), "{out}");
    assert!(out.contains("(rectangle (start 20 20) (end 22 22))"), "{out}");
}

#[test]
fn what_does_not_move_stands_as_it_was() {
    let done = moved_by(FIXTURE, (10.0, 10.0, 35.0, 35.0), 0.5, 0.5).unwrap();
    let skipped: Vec<&str> = done.skipped.iter().map(|i| i.uuid.as_str()).collect();
    assert_eq!(skipped, vec!["boundary-wire", "rect-1"]);
    for item in region_items(FIXTURE) {
        if done.moved.iter().all(|m| m.uuid != item.uuid) {
            assert!(done.content.contains(&FIXTURE[item.start..item.end]), "{}", item.uuid);
        }
    }
    assert_eq!(skip_reason(done.skipped[0].kind), "boundary_crossing_wire");
    assert_eq!(skip_reason(done.skipped[1].kind), "boundary_crossing_object");
}

#[test]
fn a_moved_sheet_reads_as_before_but_for_coordinates() {
    let before = region_items(FIXTURE);
    let done = moved_by(FIXTURE, (0.0, 0.0, 100.0, 100.0), 1.0, 1.0).unwrap();
    let after = region_items(&done.content);
    assert_eq!(before.len(), after.len());
    for (b, a) in before.iter().zip(&after) {
        assert_eq!((b.kind, &b.uuid), (a.kind, &a.uuid));
    }
    assert_eq!(done.moved.len(), before.len());
    assert!(done.skipped.is_empty());
}

#[test]
fn an_empty_region_moves_nothing() {
    let done = moved_by(FIXTURE, (200.0, 200.0, 300.0, 300.0), 5.0, 7.0).unwrap();
    assert_eq!(done.content, FIXTURE);
    assert!(done.moved.is_empty() && done.skipped.is_empty());
}

#[test]
fn a_wire_that_only_passes_by_is_left() {
    let r = |clipped| Reading {
        a: Some((num(0.0), num(0.0))),
        b: Some((num(100.0), num(0.0))),
        clipped,
        moved: vec![],
    };
    let region = area(10.0, 10.0, 50.0, 50.0);
    assert_eq!(decide(region, RegionKind::Wire, &r(false)), Decision::Leave);
    assert_eq!(decide(region, RegionKind::Wire, &r(true)), Decision::Skip);
    assert_eq!(decide(region, RegionKind::Rectangle, &r(true)), Decision::Skip);
    let inside = Reading {
        a: Some((num(10.0), num(50.0))),
        b: Some((num(50.0), num(10.0))),
        clipped: false,
        moved: vec![],
    };
    assert_eq!(decide(region, RegionKind::Wire, &inside), Decision::Move);
    assert_eq!(decide(region, RegionKind::Rectangle, &inside), Decision::Move);
    assert!(region.contains((num(10.0), num(50.0))));
    assert!(!region.contains((num(9.99), num(50.0))));
}

#[test]
fn items_are_told_by_their_heads() {
    let kind = |s: &str| item_kind(&parse_sexp(s).unwrap());
    assert_eq!(kind("(global_label \"x\")"), Some(RegionKind::GlobalLabel));
    assert_eq!(kind("(hierarchical_label \"x\")"), Some(RegionKind::HierarchicalLabel));
    assert_eq!(kind("(text_box \"x\")"), Some(RegionKind::TextBox));
    assert_eq!(kind("(symbol (lib_id \"power:+5V\"))"), Some(RegionKind::PowerSymbol));
    assert_eq!(kind("(symbol (lib_id \"Device:R\"))"), Some(RegionKind::Symbol));
    assert_eq!(kind("(symbol \"Device:R\")"), None);
    assert_eq!(kind("(sheet)"), None);
    assert_eq!(RegionKind::PowerSymbol.name(), "power_symbol");
    assert_eq!(RegionKind::NoConnect.name(), "no_connect");
}

#[test]
fn old_wires_have_ends_instead_of_points() {
    let ends = |s: &str| {
        wire_points(&parse_sexp(s).unwrap())
            .map(|(a, b)| (number(&a.x), number(&a.y), number(&b.x), number(&b.y)))
    };
    assert_eq!(ends("(wire (start 1 2) (end 3 4))"), Some((1.0, 2.0, 3.0, 4.0)));
    assert_eq!(ends("(wire (pts (xy 1 2) (xy 3 4)))"), Some((1.0, 2.0, 3.0, 4.0)));
    assert_eq!(ends("(wire (pts (xy 1 2)))"), None);
    let sheet = "(kicad_sch (wire (start 1 2) (end 3 4) (uuid \"w\")))";
    let out = moved_by(sheet, (0.0, 0.0, 9.0, 9.0), 1.0, -1.0).unwrap().content;
    assert_eq!(out, "(kicad_sch (wire (start 2 1) (end 4 3) (uuid \"w\")))");
}

#[test]
fn an_unreadable_anchor_stops_the_move() {
    let sheet = "(kicad_sch (symbol (lib_id \"a:b\") (at 1 2 0) (uuid \"s\") (property \"V\" \"x\" (at 1 y 0))))";
    let why = moved_by(sheet, (0.0, 0.0, 9.0, 9.0), 1.0, 1.0).err().unwrap();
    assert_eq!(why, "invalid property anchor");
}

fn request(values: Vec<(&str, f64)>) -> Json {
    Json::Object(
        values
            .into_iter()
            .map(|(k, v)| {
                let n = JsonNumber { value: num(v), unsigned: None };
                (k.to_string(), Json::Number(n))
            })
            .collect(),
    )
}

#[test]
fn a_request_needs_six_numbers_in_range_and_in_order() {
    let full = |x1, x2| {
        request(vec![
            ("x1", x1), ("y1", 1.0), ("x2", x2), ("y2", 2.0), ("dx", 5.0), ("dy", -7.0),
        ])
    };
    let good = region_request(&full(0.0, 1.0)).unwrap();
    assert_eq!((good.area.x1, good.area.y2), (num(0.0), num(2.0)));
    assert_eq!((good.dx, good.dy), (num(5.0), num(-7.0)));
    assert_eq!(
        region_request(&full(1.0, 1.0)).err().unwrap().message,
        "region bounds must satisfy x1 < x2 and y1 < y2"
    );
    assert_eq!(
        region_request(&full(f64::INFINITY, 1.0)).err().unwrap().message,
        "x1 must be finite and within ±1000000 mm"
    );
    let missing = region_request(&request(vec![("x1", 0.0)])).err().unwrap();
    assert_eq!(missing.kind_name(), Some("invalid_argument"));
    assert_eq!(missing.message, "Argument 'y1' is invalid: missing or not a number");
}
