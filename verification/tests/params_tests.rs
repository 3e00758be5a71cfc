use qcircuit::params::{
    check_float_literal, check_zero, format_param, parse_param_expr, parse_params,
    parse_valid_params, pi_from_captures, ParamExpr, PiPattern,
};
use qcircuit::pattern::Pattern;

fn chars(s: &str) -> Vec<char> {
    s.chars().collect()
}

fn round_trip(text: &str) -> String {
    format_param(&parse_param_expr(text).unwrap())
}

#[test]
fn tabulated_multiples_of_pi_round_trip() {
    for form in ["2*pi", "pi", "pi/2", "pi/3", "pi/4", "pi/6", "pi/8", "3*pi/4", "3*pi/2", "2*pi/3"] {
        assert_eq!(round_trip(form), form);
        let neg = format!("-{}", form);
        assert_eq!(round_trip(&neg), neg);
    }
}

#[test]
fn pi_over_two_has_its_parts() {
    match parse_param_expr("pi/2").unwrap() {
        ParamExpr::Pi { negative, coeff, denom } => {
            assert!(!negative);
            assert_eq!(coeff, "");
            assert_eq!(denom, "2");
        }
        _ => panic!("not a multiple of pi"),
    }
    match parse_param_expr(" -3 * PI / 4 ").unwrap() {
        ParamExpr::Pi { negative, coeff, denom } => {
            assert!(negative);
            assert_eq!(coeff, "3");
            assert_eq!(denom, "4");
        }
        _ => panic!("not a multiple of pi"),
    }
}

#[test]
fn numbers_are_kept_as_written() {
    for text in ["0.5", "1", "-2.25", "1e-3", "+7", ".5", "5.", "1E5"] {
        match parse_param_expr(text).unwrap() {
            ParamExpr::Number { text: t } => assert_eq!(t, text),
            _ => panic!("not a number"),
        }
    }
    match parse_param_expr("  0.25\t").unwrap() {
        ParamExpr::Number { text } => assert_eq!(text, "0.25"),
        _ => panic!("not a number"),
    }
}

#[test]
fn zero_divisor_and_garbage_are_refused() {
    assert!(parse_param_expr("pi/0").is_none());
    assert!(parse_param_expr("pi/0.0").is_none());
    assert!(parse_param_expr("pi/00").is_none());
    assert!(parse_param_expr("garbage").is_none());
    assert!(parse_param_expr("").is_none());
    assert!(parse_param_expr("   ").is_none());
    assert!(parse_param_expr(".pi").is_none());
    assert!(parse_param_expr("pi/").is_none());
    assert!(parse_param_expr("2pi/x").is_none());
    assert!(parse_param_expr("1.2.3").is_none());
    assert!(parse_param_expr("e5").is_none());
    assert!(parse_param_expr("1e").is_none());
    assert!(parse_param_expr(".").is_none());
    assert!(parse_param_expr("--1").is_none());
}

#[test]
fn coefficient_without_star_is_read() {
    assert_eq!(round_trip("2pi"), "2*pi");
    assert_eq!(round_trip("0.5*pi"), "0.5*pi");
    assert_eq!(round_trip("pi / 2"), "pi/2");
}

#[test]
fn float_literal_grammar() {
    for ok in ["0", "12", "1.5", ".5", "5.", "1e10", "1E-10", "-1.5e+3", "+0"] {
        assert!(check_float_literal(&chars(ok)), "{}", ok);
    }
    for bad in [
        "", "+", "-", ".", "e", "1e", "1e+", "1.2.3", "1 ", " 1", "0x10", "infinit", "1_0", "١", "inf",
        "INF", "nan", "NaN", "Infinity", "-inf", "+infinity", "-nan",
    ] {
        assert!(!check_float_literal(&chars(bad)), "{}", bad);
    }
}

#[test]
fn zero_test_looks_at_digits_before_exponent() {
    assert!(check_zero(&chars("0")));
    assert!(check_zero(&chars("0.000")));
    assert!(check_zero(&chars("0e5")));
    assert!(!check_zero(&chars("0.001")));
    assert!(!check_zero(&chars("10")));
}

#[test]
fn parameter_lists() {
    let v = parse_params("pi/2, 0.5").unwrap();
    assert_eq!(v.len(), 2);
    assert_eq!(format_param(&v[0]), "pi/2");
    assert_eq!(format_param(&v[1]), "0.5");
    assert_eq!(parse_params("pi/2, ,0.5,").unwrap().len(), 2);
    assert_eq!(parse_params("").unwrap().len(), 0);
    assert!(parse_params("pi/2, x").is_none());
    assert!(parse_params("pi/0").is_none());
    let kept = parse_valid_params("pi/2, x, 3");
    assert_eq!(kept.len(), 2);
    assert_eq!(format_param(&kept[1]), "3");
}

#[test]
fn pi_from_groups_of_a_match() {
    let g = vec![Some("-3*pi/4".to_string()), Some("-".to_string()), Some("3".to_string()), Some("4".to_string())];
    assert_eq!(format_param(&pi_from_captures(&g).unwrap()), "-3*pi/4");
    let g = vec![Some("pi".to_string()), Some("".to_string()), Some("".to_string()), None];
    assert_eq!(format_param(&pi_from_captures(&g).unwrap()), "pi");
    let g = vec![Some("pi/0".to_string()), Some("".to_string()), Some("".to_string()), Some("0".to_string())];
    assert!(pi_from_captures(&g).is_none());
    let g = vec![Some(".pi".to_string()), Some("".to_string()), Some(".".to_string()), None];
    assert!(pi_from_captures(&g).is_none());
    let g: Vec<Option<String>> = vec![];
    assert_eq!(format_param(&pi_from_captures(&g).unwrap()), "pi");
}

#[test]
fn clone_keeps_the_parameter() {
    let p = parse_param_expr("-pi/8").unwrap();
    assert_eq!(format_param(&p.clone()), "-pi/8");
    let n = ParamExpr::Number { text: "1.5".to_string() };
    assert_eq!(format_param(&n.clone()), "1.5");
}

#[test]
fn compiled_pattern_is_used_many_times() {
    let pi = PiPattern::new();
    assert_eq!(format_param(&pi.parse("3*pi/2").unwrap()), "3*pi/2");
    assert!(pi.parse("tau").is_none());
    assert_eq!(pi.parse_list("pi, 2").unwrap().len(), 2);
    assert!(pi.parse_list("pi, two").is_none());
    assert_eq!(pi.parse_valid("pi, two").len(), 1);
}

#[test]
fn pattern_captures_groups() {
    let p = Pattern::new("^(a+)(b)?(c*)$");
    assert_eq!(
        p.captures("aac"),
        Some(vec![Some("aac".to_string()), Some("aa".to_string()), None, Some("c".to_string())])
    );
    assert_eq!(p.captures("x"), None);
    let broken = Pattern::new("(");
    assert_eq!(broken.captures("("), None);
}

#[test]
fn words_for_no_real_number_are_refused() {
    for text in ["inf", "INF", "Inf", "infinity", "Infinity", "-inf", "+inf", "-Infinity", "nan", "NaN", "-nan", " inf "] {
        assert!(parse_param_expr(text).is_none(), "{}", text);
    }
    assert!(parse_params("1, inf").is_none());
    assert!(parse_params("nan").is_none());
}
