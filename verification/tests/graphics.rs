use konnect_core::args::{opt_f64, opt_str, Json, JsonNumber};
use konnect_core::coord::{CoordText, FixedCoord};
use konnect_core::graphics::{
    anchor_numbers, asks_move, begin_graphic_edit, delete_graphic, edit_graphic,
    find_graphic_sites, first_string_span, record, records, replace_graphic, target_position,
    translate_block, GraphicKind, GraphicNumbers, MovedCoord,
};
use konnect_core::node::parse_sexp;
use konnect_core::num::Num;
use konnect_core::numeral::PointText;
use konnect_core::scan::find_balanced_block;

const FIXTURE: &str = r#"(kicad_sch
	(version 20250610)
	(generator "eeschema")
	(uuid "root")
	(paper "A4")
	(lib_symbols
		(symbol "Device:R"
			(rectangle (start -1.016 -2.54) (end 1.016 2.54) (uuid "lib-rect"))
		)
	)
	(rectangle
		(start 10 20)
		(end 30 40)
		(stroke
			(width 0)
			(type dash)
		)
		(fill
			(type none)
		)
		(uuid "rect-1")
	)
	(text "POWER"
		(exclude_from_sim no)
		(at 50 60 0)
		(effects
			(font
				(size 1.27 1.27)
			)
			(justify left bottom)
		)
		(uuid "text-1")
	)
	(text_box "Notes (draft)"
		(exclude_from_sim no)
		(at 70 80 0)
		(size 20 10)
		(margins 0.9525 0.9525 0.9525 0.9525)
		(stroke
			(width 0)
			(type solid)
		)
		(effects
			(font
				(size 1.27 1.27)
			)
		)
		(uuid "box-1")
	)
)
"#;

fn num(v: f64) -> Num {
    Num { bits: v.to_bits() }
}

fn number(text: &str) -> f64 {
    text.parse().unwrap()
}

fn point(p: &PointText) -> (f64, f64) {
    (number(&p.x), number(&p.y))
}

fn fixed(x: f64, y: f64, rotation: f64) -> FixedCoord {
    FixedCoord {
        x: format!("{x:.6}"),
        y: format!("{y:.6}"),
        rotation: format!("{rotation:.6}"),
    }
}

fn turn(c: &CoordText) -> f64 {
    c.rotation.as_deref().map_or(0.0, number)
}

fn moved_by(block: &str, kind: GraphicKind, dx: f64, dy: f64) -> Vec<MovedCoord> {
    find_graphic_sites(block, kind)
        .sites
        .iter()
        .map(|site| {
            let (x, y) = point(&site.numbers.at);
            let (x, y) = (x + dx, y + dy);
            MovedCoord { x: num(x), y: num(y), fixed: fixed(x, y, turn(&site.numbers)) }
        })
        .collect()
}

/// The block moved by `(dx, dy)`.
fn translated(block: &str, kind: GraphicKind, dx: f64, dy: f64) -> Result<String, String> {
    translate_block(block, kind, &moved_by(block, kind, dx, dy))
}

/// The numbers that an edit works with; those of a step that is not reached count for nothing.
fn numbers(content: &str, uuid: &str, args: &Json) -> GraphicNumbers {
    let mut out = GraphicNumbers { anchor: None, moved: vec![], turned: fixed(0.0, 0.0, 0.0) };
    let item = match record(content, uuid) {
        Ok(item) => item,
        Err(_) => return out,
    };
    out.anchor = item.at.as_ref().map(|c| point(&c.at)).map(|(x, y)| (num(x), num(y)));
    let mut block = match begin_graphic_edit(content, uuid, opt_str(args, "text")) {
        Ok(edit) => edit.block,
        Err(_) => return out,
    };
    if asks_move(args) {
        let (x, y) = match target_position(opt_f64(args, "x"), opt_f64(args, "y"), out.anchor) {
            Ok(place) => place,
            Err(_) => return out,
        };
        let (ox, oy) = item.origin().map_or((0.0, 0.0), point);
        let (dx, dy) = (f64::from_bits(x.bits) - ox, f64::from_bits(y.bits) - oy);
        out.moved = moved_by(&block, item.kind, dx, dy);
        block = match translate_block(&block, item.kind, &out.moved) {
            Ok(block) => block,
            Err(_) => return out,
        };
    }
    if let (Some(angle), Some(c)) = (opt_f64(args, "rotation"), anchor_numbers(&block)) {
        let (x, y) = point(&c.at);
        out.turned = fixed(x, y, f64::from_bits(angle.bits));
    }
    out
}

/// The graphic with a new text, a new place and a new rotation, as far as they are given.
fn edited(
    content: &str,
    uuid: &str,
    text: Option<&str>,
    x: Option<f64>,
    y: Option<f64>,
    rotation: Option<f64>,
) -> Result<String, String> {
    let mut members = vec![];
    if let Some(t) = text {
        members.push(("text".to_string(), Json::Text(t.to_string())));
    }
    for (name, value) in [("x", x), ("y", y), ("rotation", rotation)] {
        if let Some(v) = value {
            let number = JsonNumber { value: num(v), unsigned: None };
            members.push((name.to_string(), Json::Number(number)));
        }
    }
    let args = Json::Object(members);
    edit_graphic(content, uuid, &args, &numbers(content, uuid, &args))
}

fn rectangle_block() -> &'static str {
    let start = FIXTURE.find("\t(rectangle\n").unwrap() + 1;
    let (_, end) = find_balanced_block(FIXTURE, start).unwrap();
    &FIXTURE[start..end]
}

#[test]
fn lists_native_graphics_with_geometry_and_style() {
    let items = records(FIXTURE);
    assert_eq!(items.len(), 3);
    assert_eq!(items[0].kind.name(), "rectangle");
    assert_eq!(items[0].start_xy.as_ref().map(point), Some((10.0, 20.0)));
    assert!(items[0].style_tags.iter().any(|t| t == "stroke"));
    assert_eq!(items[1].text.as_deref(), Some("POWER"));
    assert_eq!(items[2].kind.name(), "text_box");
}

#[test]
fn moves_and_edits_by_uuid_without_changing_uuid() {
    let moved = translated(rectangle_block(), GraphicKind::Rectangle, 5.0, 6.0).unwrap();
    assert!(moved.contains("(start 15 26)"));
    let edited =
        edited(FIXTURE, "text-1", Some("VCC RAIL"), Some(55.0), Some(66.0), Some(90.0)).unwrap();
    assert!(edited.contains("VCC RAIL"));
    assert!(edited.contains("(uuid \"text-1\")"));
    assert!(edited.contains("(at 55 66 90)"));
}

#[test]
fn delete_targets_only_the_requested_uuid() {
    let out = delete_graphic(FIXTURE, "box-1").unwrap();
    assert!(!out.contains("box-1"));
    assert!(out.contains("rect-1"));
    assert!(out.contains("text-1"));
}

#[test]
fn a_graphic_of_a_library_symbol_is_none_of_the_sheets() {
    assert!(records(FIXTURE).iter().all(|g| g.uuid != "lib-rect"));
    assert_eq!(
        record(FIXTURE, "lib-rect").err().unwrap(),
        "Schematic graphic UUID 'lib-rect' not found on the current sheet"
    );
}

#[test]
fn other_graphics_stay_as_they_are() {
    let others: Vec<&str> = records(FIXTURE)
        .iter()
        .filter(|g| g.uuid != "text-1")
        .map(|g| &FIXTURE[g.start..g.end])
        .collect();
    assert_eq!(others.len(), 2);
    for out in [
        delete_graphic(FIXTURE, "text-1").unwrap(),
        edited(FIXTURE, "text-1", Some("X"), None, Some(-3.5), None).unwrap(),
    ] {
        for other in &others {
            assert!(out.contains(other));
        }
    }
}

#[test]
fn a_moved_graphic_reads_as_it_did_but_for_its_coordinates() {
    let before = record(FIXTURE, "rect-1").unwrap();
    let block = translated(&FIXTURE[before.start..before.end], before.kind, 1.5, -2.25).unwrap();
    let out = replace_graphic(FIXTURE, &before, &block);
    assert!(parse_sexp(&out).is_ok());
    let after = record(&out, "rect-1").unwrap();
    assert_eq!(after.kind, before.kind);
    assert_eq!(after.style_tags, before.style_tags);
    assert_eq!(after.start_xy.as_ref().map(point), Some((11.5, 17.75)));
    assert_eq!(after.end_xy.as_ref().map(point), Some((31.5, 37.75)));
}

#[test]
fn a_text_box_moves_by_its_anchor() {
    let out = edited(FIXTURE, "box-1", None, Some(71.5), None, None).unwrap();
    assert!(out.contains("(at 71.5 80 0)"), "{out}");
    assert!(out.contains("(size 20 10)"));
}

#[test]
fn a_text_box_without_an_anchor_moves_by_its_corners() {
    let block = "(text_box \"x\" (start 1 2) (end 3 4) (uuid \"b\"))";
    assert_eq!(
        translated(block, GraphicKind::TextBox, 10.0, 20.0).unwrap(),
        "(text_box \"x\" (start 11 22) (end 13 24) (uuid \"b\"))"
    );
}

#[test]
fn a_quoted_text_reads_back() {
    let text = "5 V \\ \"rail\"\nline two — Ω";
    let out = edited(FIXTURE, "text-1", Some(text), None, None, None).unwrap();
    assert_eq!(record(&out, "text-1").unwrap().text.as_deref(), Some(text));
}

#[test]
fn numbers_are_written_without_trailing_zeros() {
    let block = "(text \"x\" (at 0.5 -1 0) (uuid \"t\"))";
    let out = translated(block, GraphicKind::Text, -0.5, 1.0 / 3.0).unwrap();
    assert_eq!(out, "(text \"x\" (at 0 -0.666667 0) (uuid \"t\"))");
    let out = translated(block, GraphicKind::Text, -0.5000001, 101.0).unwrap();
    assert_eq!(out, "(text \"x\" (at 0 100 0) (uuid \"t\"))");
}

#[test]
fn a_move_out_of_range_is_refused() {
    let why = translated(rectangle_block(), GraphicKind::Rectangle, 1e6, 0.0).unwrap_err();
    assert_eq!(why, "x must be finite and within ±1000000 mm");
    let why = translated(rectangle_block(), GraphicKind::Rectangle, 0.0, f64::NAN).unwrap_err();
    assert_eq!(why, "y must be finite and within ±1000000 mm");
}

#[test]
fn unreadable_geometry_is_refused() {
    let block = "(rectangle (start 1 two) (end 3 4) (uuid \"r\"))";
    let why = translated(block, GraphicKind::Rectangle, 1.0, 1.0).unwrap_err();
    assert_eq!(why, "invalid (start) geometry");
}

#[test]
fn what_a_graphic_has_not_cannot_be_edited() {
    assert_eq!(
        edited(FIXTURE, "rect-1", None, Some(1.0), None, None).unwrap_err(),
        "graphic has no anchor position; use rectangle geometry fields"
    );
    assert_eq!(
        edited(FIXTURE, "rect-1", None, None, None, Some(90.0)).unwrap_err(),
        "graphic has no rotation-bearing anchor"
    );
    assert_eq!(
        edited(FIXTURE, "rect-1", Some("t"), None, None, None).unwrap_err(),
        "graphic 'rect-1' has no editable text"
    );
    assert_eq!(
        edited(FIXTURE, "text-1", None, None, None, Some(2e6)).unwrap_err(),
        "rotation must be finite and within ±1000000 mm"
    );
    assert_eq!(
        edited(FIXTURE, "text-1", None, Some(f64::INFINITY), None, None).unwrap_err(),
        "x must be finite and within ±1000000 mm"
    );
}

#[test]
fn an_edit_that_asks_for_nothing_leaves_the_sheet_as_it_is() {
    assert_eq!(edited(FIXTURE, "text-1", None, None, None, None).unwrap(), FIXTURE);
    assert_eq!(
        edited(FIXTURE, "gone", None, None, None, None).unwrap_err(),
        "Schematic graphic UUID 'gone' not found on the current sheet"
    );
}

#[test]
fn the_first_step_of_an_edit_that_fails_is_the_answer() {
    assert_eq!(
        edited(FIXTURE, "rect-1", Some("t"), Some(1.0), None, Some(2e6)).unwrap_err(),
        "graphic 'rect-1' has no editable text"
    );
    assert_eq!(
        edited(FIXTURE, "rect-1", None, Some(1.0), None, Some(2e6)).unwrap_err(),
        "graphic has no anchor position; use rectangle geometry fields"
    );
    assert_eq!(
        edited(FIXTURE, "rect-1", None, Some(1.0), Some(2.0), Some(2e6)).unwrap_err(),
        "rotation must be finite and within ±1000000 mm"
    );
}

#[test]
fn a_rectangle_goes_where_its_first_corner_is_asked_to_go() {
    let out = edited(FIXTURE, "rect-1", None, Some(1.0), Some(2.0), None).unwrap();
    assert!(out.contains("(start 1 2)"), "{out}");
    assert!(out.contains("(end 21 22)"), "{out}");
    let item = record(FIXTURE, "text-1").unwrap();
    assert_eq!(item.origin().map(point), item.at.as_ref().map(|c| point(&c.at)));
}

#[test]
fn a_place_that_is_no_number_asks_for_the_place_it_has() {
    let args = Json::Object(vec![("x".to_string(), Json::Null)]);
    assert!(asks_move(&args));
    let out = edit_graphic(FIXTURE, "text-1", &args, &numbers(FIXTURE, "text-1", &args)).unwrap();
    let at = |sheet: &str| record(sheet, "text-1").unwrap().at.map(|c| point(&c.at));
    assert_eq!(at(&out), at(FIXTURE));
    assert!(!asks_move(&Json::Object(vec![])));
}

#[test]
fn the_first_string_of_a_block_is_found() {
    let block = r#"(text "a \" b" (uuid "t"))"#;
    let (s, e) = first_string_span(block).unwrap();
    assert_eq!(&block[s..e], r#""a \" b""#);
    let block = r#"(text (at 1 2) bold "late" (uuid "t"))"#;
    let (s, e) = first_string_span(block).unwrap();
    assert_eq!(&block[s..e], "\"late\"");
    assert_eq!(first_string_span(r#"(rectangle (start 1 2) (uuid "r"))"#), None);
    assert_eq!(first_string_span("(text (open \"x\""), None);
    assert_eq!(first_string_span("(text"), None);
    assert_eq!(first_string_span("(text \"open"), None);
}

#[test]
fn a_rectangle_without_both_corners_is_no_graphic() {
    let sheet = "(kicad_sch (rectangle (start 1 2) (uuid \"r\")) (text \"t\" (uuid \"t\")))";
    let items = records(sheet);
    assert_eq!(items.len(), 1);
    assert_eq!(items[0].uuid, "t");
    assert!(items[0].at.is_none());
}

#[test]
fn an_edited_text_is_read_back_under_its_uuid() {
    let out = edited(FIXTURE, "text-1", Some("say \"hi\" (now)"), None, None, None).unwrap();
    let before = record(FIXTURE, "text-1").ok().unwrap();
    let after = record(&out, "text-1").ok().unwrap();
    assert_eq!(after.text.as_deref(), Some("say \"hi\" (now)"));
    assert_eq!(after.start, before.start);
    assert_eq!(after.kind.name(), before.kind.name());
    assert_eq!(after.style_tags, before.style_tags);
    assert_eq!(records(&out).len(), 3);
}

#[test]
fn a_deleted_graphic_is_no_longer_found() {
    let out = delete_graphic(FIXTURE, "text-1").unwrap();
    assert!(record(&out, "text-1").is_err());
    let left: Vec<String> = records(&out).into_iter().map(|g| g.uuid).collect();
    assert_eq!(left, ["rect-1", "box-1"]);
}

#[test]
fn a_moved_anchor_is_read_back() {
    let out = edited(FIXTURE, "box-1", None, Some(-1.5), Some(80.25), Some(270.0)).unwrap();
    let g = record(&out, "box-1").ok().unwrap();
    let at = anchor_numbers(&out[g.start..g.end]).unwrap();
    assert_eq!((at.at.x.as_str(), at.at.y.as_str()), ("-1.5", "80.25"));
    assert_eq!(at.rotation.as_deref(), Some("270"));
}
