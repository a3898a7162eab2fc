use konnect_core::coord::{coord_numbers, coord_span, coord_text};
use konnect_core::edit::{apply_edits, SexpEdit};
use konnect_core::node::{parse_sexp, same_tree, SexpNode};
use konnect_core::numeral::{
    coordinate_text, decimal_text, get_numeral, is_number_text, node_pair, node_xy,
};
use konnect_core::quote::{escape, quote};
use konnect_core::scan::{
    find_balanced_block, find_block_starts, find_direct_child_blocks, find_enclosing_block,
};

#[test]
fn a_tree_is_read() {
    let t = parse_sexp("  (a \"b \\\"c\\\"\\n\" (d 1.5) (d) x)\n").unwrap();
    assert_eq!(t.head(), Some("a"));
    assert_eq!(t.get(1).and_then(|n| n.as_str()), Some("b \"c\"\n"));
    assert_eq!(t.find_all("d").len(), 2);
    assert_eq!(t.find("d").and_then(|n| get_numeral(n, 1)), Some("1.5"));
    assert_eq!(t.find_str("d"), Some("1.5"));
    assert_eq!(t.children().map(|c| c.len()), Some(5));
    assert!(t.get(9).is_none());
}

#[test]
fn what_is_no_tree_is_refused() {
    for bad in ["", "(a", "a)", "(a) b", "\"open", ")"] {
        assert!(parse_sexp(bad).is_err(), "{bad:?}");
    }
}

#[test]
fn trees_are_the_same_whatever_their_layout() {
    let a = parse_sexp("(a (b \"c\") 1)").unwrap();
    let b = parse_sexp("(a\n\t(b\n\"c\")1)").unwrap();
    assert!(same_tree(&a, &b));
    assert!(!same_tree(&a, &parse_sexp("(a (b c) 1)").unwrap()));
    assert!(!same_tree(&SexpNode::Atom("1".to_string()), &SexpNode::Atom("1.0".to_string())));
}

#[test]
fn a_block_ends_where_it_closes() {
    let s = "x (a \")\" (b)) y";
    assert_eq!(find_balanced_block(s, 2), Some((2, 13)));
    assert_eq!(find_balanced_block(s, 0), None);
    assert_eq!(find_balanced_block("(a (b)", 0), None);
}

#[test]
fn blocks_are_found_by_their_exact_head_and_outside_strings() {
    let s = "(xy) (xyz) \"(xy)\" (xy 1)";
    assert_eq!(find_block_starts(s, "xy"), vec![0, 18]);
}

#[test]
fn the_innermost_enclosing_block_is_found() {
    let s = "(symbol (symbol (p)) (q))";
    assert_eq!(find_enclosing_block(s, "symbol", 17), Some((8, 20)));
    assert_eq!(find_enclosing_block(s, "symbol", 22), Some((0, 25)));
    assert_eq!(find_enclosing_block(s, "sheet", 17), None);
}

#[test]
fn only_direct_children_are_listed() {
    let s = "(top (a (b)) \"(no)\" (c))";
    let texts: Vec<&str> =
        find_direct_child_blocks(s, "top").iter().map(|(a, b)| &s[*a..*b]).collect();
    assert_eq!(texts, vec!["(a (b))", "(c)"]);
    assert!(find_direct_child_blocks(s, "absent").is_empty());
}

#[test]
fn edits_are_made_from_left_to_right_whatever_their_order() {
    let edits = vec![
        SexpEdit::insert(6, "!".to_string()),
        SexpEdit::replace(0, 1, "AA".to_string()),
        SexpEdit::delete(2, 4),
    ];
    assert_eq!(apply_edits("abcdef", edits), "AAbef!");
    assert_eq!(apply_edits("abc", vec![]), "abc");
}

#[test]
fn text_outside_edits_stays() {
    let edits = vec![
        SexpEdit::replace(1, 2, "---".to_string()),
        SexpEdit::replace(7, 8, "".to_string()),
    ];
    let out = apply_edits("0123456789", edits);
    assert_eq!(out, "0---2345689");
    assert!(out.contains("23456"));
}

#[test]
fn quoted_text_reads_back() {
    for text in ["", "plain", "a\"b\\c", "line\nbreak", "\\n", "Ω \"µ\"", "\\"] {
        let inside = format!("(x {} y)", quote(text));
        let tree = parse_sexp(&inside).unwrap();
        assert_eq!(tree.get(1).and_then(|n| n.as_str()), Some(text));
        let kept = format!("(x \"{}\")", escape(text, false));
        assert_eq!(parse_sexp(&kept).unwrap().get(1).and_then(|n| n.as_str()), Some(text));
    }
    assert_eq!(quote("a\"\n\\"), "\"a\\\"\\n\\\\\"");
    assert_eq!(escape("a\nb", false), "a\nb");
}

#[test]
fn numbers_are_what_rust_reads_as_floating_point() {
    for text in [
        "0", "-1", "+2.5", ".5", "5.", "1e3", "1E-3", "-1.5e+10", "inf", "-inf", "nan", "NaN",
        "infinity", "+Infinity", "", ".", "-", "e3", "1e", "1e+", "0x10", "1_000", " 1", "1 ",
        "--1", "1.2.3", "in", "infinit", "1f",
    ] {
        assert_eq!(is_number_text(text), text.parse::<f64>().is_ok(), "{text:?}");
    }
}

#[test]
fn coordinates_lose_what_they_do_not_need() {
    for (fixed, shown) in [
        ("15.000000", "15"),
        ("0.500000", "0.5"),
        ("-0.000000", "0"),
        ("-0.000001", "-0.000001"),
        ("100.000000", "100"),
        ("-12.700000", "-12.7"),
    ] {
        assert_eq!(coordinate_text(fixed), shown);
    }
    assert_eq!(decimal_text(0), "0");
    assert_eq!(decimal_text(1070), "1070");
    assert_eq!(decimal_text(u64::MAX), "18446744073709551615");
}

#[test]
fn coordinate_lists_are_read_and_written() {
    let block = "(text \"x\" (at 1 -2.5 90) (uuid \"u\"))";
    let (start, end) = coord_span(block, "at").unwrap();
    assert_eq!(&block[start..end], "(at 1 -2.5 90)");
    let c = coord_numbers(block, start, end).unwrap();
    assert_eq!((c.at.x.as_str(), c.at.y.as_str()), ("1", "-2.5"));
    assert_eq!(c.rotation.as_deref(), Some("90"));
    assert_eq!(coord_span(block, "xy"), None);
    assert_eq!(coord_text("at", "1.000000", "2.500000", Some("0.000000")), "(at 1 2.5 0)");
    assert_eq!(coord_text("xy", "1.000000", "-0.000000", None), "(xy 1 0)");
    let node = parse_sexp("(wire (start 1 2) (end 3 x))").unwrap();
    let p = node_xy(&node, "start").unwrap();
    assert_eq!((p.x.as_str(), p.y.as_str()), ("1", "2"));
    assert!(node_xy(&node, "end").is_none());
    assert!(node_pair(&parse_sexp("(xy 1)").unwrap()).is_none());
}
