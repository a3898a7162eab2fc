use konnect_core::args::{
    flag, get_path, invalid_arg, opt_f64, opt_str, require_array, require_f64, require_str,
    require_u64, string_items, ErrorKind, Json, JsonNumber, ToolError,
};
use konnect_core::num::{valid_number, Num};
use konnect_core::project::{Cause, MissingArgument};

fn num(v: f64) -> Num {
    Num { bits: v.to_bits() }
}

fn number(v: f64) -> Json {
    let unsigned = if v >= 0.0 && v.fract() == 0.0 { Some(v as u64) } else { None };
    Json::Number(JsonNumber { value: num(v), unsigned })
}

fn object(members: Vec<(&str, Json)>) -> Json {
    Json::Object(members.into_iter().map(|(k, v)| (k.to_string(), v)).collect())
}

fn text(s: &str) -> Json {
    Json::Text(s.to_string())
}

fn refused(e: &ToolError) -> (String, String) {
    match &e.kind {
        Some(ErrorKind::InvalidArgument { field, reason }) => (field.clone(), reason.clone()),
        other => panic!("expected an invalid argument, got {other:?}"),
    }
}

#[test]
fn require_str_missing_produces_structured_invalid_argument() {
    let args = object(vec![]);
    let err = require_str(&args, "path").expect_err("should fail");
    assert_eq!(err.kind_name(), Some("invalid_argument"));
    let (field, _) = refused(&err);
    assert_eq!(field, "path");
}

#[test]
fn require_f64_non_number_produces_structured_invalid_argument() {
    let args = object(vec![("x", text("not a number"))]);
    let err = require_f64(&args, "x").expect_err("should fail");
    assert_eq!(err.kind_name(), Some("invalid_argument"));
}

#[test]
fn require_str_present_returns_value() {
    let args = object(vec![("name", text("ok"))]);
    let v = require_str(&args, "name").expect("should parse");
    assert_eq!(v, "ok");
}

#[test]
fn each_refusal_says_what_was_wanted() {
    let args = object(vec![("a", Json::Null), ("n", number(-1.5))]);
    let cases = vec![
        (require_str(&args, "a").err().unwrap(), "a", "missing or not a string"),
        (require_f64(&args, "a").err().unwrap(), "a", "missing or not a number"),
        (require_array(&args, "z").err().unwrap(), "z", "missing or not an array"),
        (require_u64(&args, "n").err().unwrap(), "n", "missing or not a non-negative integer"),
    ];
    for (err, field, reason) in cases {
        assert_eq!(refused(&err), (field.to_string(), reason.to_string()));
        assert_eq!(err.message, format!("Argument '{field}' is invalid: {reason}"));
    }
}

#[test]
fn an_empty_array_is_an_array() {
    let args = object(vec![("references", Json::Array(vec![]))]);
    assert_eq!(require_array(&args, "references").unwrap().len(), 0);
}

#[test]
fn numbers_are_read_as_they_are() {
    let args = object(vec![("x", number(2.5)), ("n", number(7.0))]);
    assert_eq!(require_f64(&args, "x").unwrap(), num(2.5));
    assert_eq!(opt_f64(&args, "x"), Some(num(2.5)));
    assert_eq!(opt_f64(&args, "y"), None);
    assert_eq!(require_u64(&args, "n").unwrap(), 7);
}

#[test]
fn optional_arguments_are_absent_where_they_have_another_type() {
    let args = object(vec![("s", text("v")), ("b", Json::Bool(true)), ("n", number(1.0))]);
    assert_eq!(opt_str(&args, "s"), Some("v"));
    assert_eq!(opt_str(&args, "b"), None);
    assert_eq!(opt_str(&text("not an object"), "s"), None);
    assert!(flag(&args, "b"));
    assert!(!flag(&args, "n"));
    assert!(!flag(&args, "absent"));
}

#[test]
fn only_strings_are_taken_from_a_list() {
    let items = vec![text("R1"), number(2.0), text("R3"), Json::Null];
    assert_eq!(string_items(&items), vec!["R1", "R3"]);
}

#[test]
fn a_path_that_is_missing_names_its_field() {
    let args = object(vec![("schematic", text("/tmp/a.kicad_sch")), ("n", number(1.0))]);
    assert_eq!(get_path(&args, "schematic").unwrap(), "/tmp/a.kicad_sch");
    assert_eq!(get_path(&args, "n").err().unwrap().field, "n");
    let missing = get_path(&args, "path").err().unwrap();
    assert_eq!(missing.message(), "Missing required argument: 'path'");
}

#[test]
fn the_first_missing_argument_in_a_chain_is_named() {
    let chain = vec![
        Cause::Other("while handling the call".to_string()),
        Cause::Missing(MissingArgument { field: "first".to_string() }),
        Cause::Missing(MissingArgument { field: "second".to_string() }),
    ];
    assert_eq!(MissingArgument::field_in(&chain), Some("first"));
    assert_eq!(MissingArgument::field_in(&vec![Cause::Other("io".to_string())]), None);
}

#[test]
fn a_plain_error_has_no_kind() {
    let err = ToolError::plain("Component 'R1' not found".to_string());
    assert!(err.kind.is_none());
    assert_eq!(err.kind_name(), None);
    assert_eq!(invalid_arg("size", "too big").message, "Argument 'size' is invalid: too big");
}

#[test]
fn numbers_compare_as_floating_point_numbers_do() {
    let values = [
        f64::NEG_INFINITY, -1e300, -2.5, -1.0, -0.0, 0.0, 1e-300, 1.0, 2.5, 1e6, f64::INFINITY,
        f64::NAN,
    ];
    for a in values {
        for b in values {
            assert_eq!(num(a).at_most(num(b)), a <= b, "{a} <= {b}");
            assert_eq!(num(a).below(num(b)), a < b, "{a} < {b}");
            assert_eq!(num(a).same(num(b)), a == b, "{a} == {b}");
            if !a.is_nan() && !b.is_nan() {
                assert_eq!(f64::from_bits(num(a).min_with(num(b)).bits), a.min(b));
                assert_eq!(f64::from_bits(num(a).max_with(num(b)).bits), a.max(b));
            }
        }
        assert_eq!(num(a).nan(), a.is_nan());
    }
    assert_eq!(f64::from_bits(num(f64::NAN).min_with(num(3.0)).bits), 3.0);
    assert_eq!(f64::from_bits(num(3.0).max_with(num(f64::NAN)).bits), 3.0);
}

#[test]
fn coordinates_are_finite_and_within_a_kilometre() {
    for good in [0.0, -0.0, 1_000_000.0, -1_000_000.0, 12.7] {
        assert_eq!(valid_number(num(good), "x"), Ok(num(good)));
    }
    for bad in [1_000_000.5, -1_000_001.0, f64::INFINITY, f64::NEG_INFINITY, f64::NAN] {
        let why = valid_number(num(bad), "dx").unwrap_err();
        assert_eq!(why, "dx must be finite and within ±1000000 mm");
    }
}
