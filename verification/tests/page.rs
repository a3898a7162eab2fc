use konnect_core::page::{page_dimensions, paper_dimensions, paper_sizes, set_page};

const WITH_PAPER: &str =
    "(kicad_sch\n  (version 20260306)\n  (uuid \"root\")\n  (paper \"A4\")\n  (symbol)\n)\n";
const NO_PAPER: &str = "(kicad_sch\n  (version 20260306)\n  (uuid \"root\")\n  (symbol)\n)\n";

/// The sheet as it stands after the call, whether or not the call succeeds.
fn paged(body: &str, size: &str, portrait: bool) -> String {
    set_page(body, size, portrait).unwrap_or_else(|_| body.to_string())
}

#[test]
fn replaces_an_existing_paper_node() {
    let out = paged(WITH_PAPER, "A2", false);
    assert!(out.contains("(paper \"A2\")"), "got {out}");
    assert!(!out.contains("A4"), "old size must be gone: {out}");
    assert_eq!(out.matches("(paper").count(), 1);
}

#[test]
fn inserts_when_absent_and_stays_in_the_header() {
    let out = paged(NO_PAPER, "A3", false);
    assert!(out.contains("(paper \"A3\")"), "got {out}");
    assert!(out.find("(paper").unwrap() < out.find("(symbol").unwrap());
}

#[test]
fn portrait_is_marked_on_the_node() {
    let out = paged(WITH_PAPER, "A3", true);
    assert!(out.contains("(paper \"A3\" portrait)"), "got {out}");
}

#[test]
fn unknown_size_leaves_the_file_alone() {
    let out = paged(WITH_PAPER, "A9", false);
    assert!(out.contains("(paper \"A4\")"), "must not have written: {out}");
}

#[test]
fn paper_table_is_landscape_and_unique() {
    let table = paper_sizes();
    let mut names: Vec<_> = table.iter().map(|p| p.name).collect();
    let count = names.len();
    names.sort_unstable();
    names.dedup();
    assert_eq!(names.len(), count, "duplicate paper size name");
    for p in &table {
        assert!(p.width > p.height, "{} is listed portrait; the table is landscape", p.name);
    }
}

#[test]
fn create_schematic_honours_size_and_orientation() {
    // The dimensions are swapped for portrait.
    let (w, h) = page_dimensions("A3", true).unwrap();
    assert_eq!(w as f64 / 10.0, 297.0);
    assert_eq!(h as f64 / 10.0, 420.0);
    assert_eq!(page_dimensions("A3", false).unwrap(), (4200, 2970));
    let out = paged(NO_PAPER, "A3", true);
    assert!(out.contains("(paper \"A3\" portrait)"), "got {out}");
}

#[test]
fn create_schematic_refuses_an_unknown_size_before_writing() {
    let err = page_dimensions("A9", false).unwrap_err();
    assert_eq!(err.kind_name(), Some("invalid_argument"));
    assert_eq!(
        err.message,
        "Argument 'size' is invalid: unknown paper size 'A9'; valid: A0, A1, A2, A3, A4, A5, A, B, \
         C, D, E, USLetter, USLegal, USLedger"
    );
}

#[test]
fn sizes_are_in_tenths_of_a_millimetre() {
    assert_eq!(paper_dimensions("A4").unwrap(), (2970, 2100));
    assert_eq!(paper_dimensions("USLetter").unwrap(), (2794, 2159));
    assert_eq!(paper_dimensions("E").unwrap(), (11176, 8636));
    assert!(paper_dimensions("a4").is_err());
}

#[test]
fn the_last_paper_wins() {
    for body in [WITH_PAPER, NO_PAPER, "", "\n(kicad_sch)", "(uuid \"x\""] {
        let once = paged(body, "A0", true);
        assert_eq!(paged(&once, "A5", false), paged(body, "A5", false));
    }
}

#[test]
fn a_sheet_without_a_uuid_takes_its_paper_behind_the_first_line() {
    assert_eq!(paged("(kicad_sch\n)\n", "A4", false), "(kicad_sch\n\n  (paper \"A4\"))\n");
    assert_eq!(paged("(kicad_sch)", "A4", false), "\n  (paper \"A4\")(kicad_sch)");
}

#[test]
fn a_paper_node_that_never_closes_is_replaced_to_the_end() {
    assert_eq!(paged("(kicad_sch (paper \"A4\"", "A3", false), "(kicad_sch (paper \"A3\")");
}
