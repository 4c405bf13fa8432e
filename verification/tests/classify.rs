//! Classification edge cases: the integer-first priority, the float grammar,
//! and the symbol fallback.

use sexpr::{parse_atom, parse_sexpr, Atom, Node};

#[test]
fn int_with_leading_zeros() {
    assert_eq!(parse_sexpr("007").unwrap(), Node::Atom(Atom::Int(7)));
}

#[test]
fn negative_int() {
    assert_eq!(parse_sexpr("-5").unwrap(), Node::Atom(Atom::Int(-5)));
}

#[test]
fn negative_zero_is_int() {
    assert_eq!(parse_sexpr("-0").unwrap(), Node::Atom(Atom::Int(0)));
}

#[test]
fn int_extremes() {
    assert_eq!(
        parse_sexpr("9223372036854775807").unwrap(),
        Node::Atom(Atom::Int(i64::MAX))
    );
    assert_eq!(
        parse_sexpr("-9223372036854775808").unwrap(),
        Node::Atom(Atom::Int(i64::MIN))
    );
}

#[test]
fn int_overflow_falls_to_float() {
    assert_eq!(
        parse_sexpr("9223372036854775808").unwrap(),
        Node::Atom(Atom::Float("9223372036854775808".to_string()))
    );
    assert_eq!(
        parse_sexpr("99999999999999999999999").unwrap(),
        Node::Atom(Atom::Float("99999999999999999999999".to_string()))
    );
}

#[test]
fn integer_shaped_never_float() {
    // every integer-shaped token classifies as Int, even though each is also
    // float-shaped
    for t in ["0", "10", "42", "-17", "0007", "-000"] {
        match parse_atom(t) {
            Atom::Int(_) => {}
            other => panic!("{:?} classified as {:?}", t, other),
        }
    }
}

#[test]
fn float_shapes() {
    for t in [
        "1.5", ".5", "5.", "1e3", "1E3", "2.5e-2", "+5", "-1.", "inf", "-inf", "Infinity", "NaN",
        "nan", "3e+7",
    ] {
        assert_eq!(
            parse_atom(t),
            Atom::Float(t.to_string()),
            "expected {:?} to be float-shaped",
            t
        );
    }
}

#[test]
fn float_shape_agrees_with_std() {
    // every token the classifier calls float-shaped parses as an f64, and the
    // near-miss shapes it rejects are rejected by f64 parsing too
    for t in ["1.5", ".5", "5.", "1e3", "2.5e-2", "inf", "NaN", "+4", "-.5"] {
        assert!(matches!(parse_atom(t), Atom::Float(_)) || matches!(parse_atom(t), Atom::Int(_)));
        assert!(t.parse::<f64>().is_ok());
    }
    for t in ["1.5.2", "e5", "1e", "1e+", "--5", ".", "infx", "1.5f", "0x10"] {
        assert!(matches!(parse_atom(t), Atom::Symbol(_)));
        assert!(t.parse::<f64>().is_err());
    }
}

#[test]
fn symbol_fallback() {
    for t in ["hello", "+", "*", "a1.5", "1.5.2", "-", "--3", "i", "in"] {
        assert_eq!(parse_atom(t), Atom::Symbol(t.to_string()));
    }
}
