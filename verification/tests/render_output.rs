//! The printer's fixed debug format: not re-parseable, by design.

use sexpr::{parse_sexpr, Atom, Node, SexprSyntaxError};

#[test]
fn render_empty_list() {
    assert_eq!(Node::List(vec![]).render(), "()");
}

#[test]
fn render_float_prefixed() {
    assert_eq!(Node::Atom(Atom::Float("1.5".to_string())).render(), "f1.5");
}

#[test]
fn render_symbol_quoted() {
    assert_eq!(Node::Atom(Atom::Symbol("x".to_string())).render(), "\"x\"");
}

#[test]
fn render_ints_plain() {
    assert_eq!(Node::Atom(Atom::Int(0)).render(), "0");
    assert_eq!(Node::Atom(Atom::Int(42)).render(), "42");
    assert_eq!(Node::Atom(Atom::Int(-42)).render(), "-42");
    assert_eq!(Node::Atom(Atom::Int(i64::MAX)).render(), "9223372036854775807");
    assert_eq!(Node::Atom(Atom::Int(i64::MIN)).render(), "-9223372036854775808");
}

#[test]
fn render_tree_space_joined() {
    let tree = parse_sexpr("(+ (+ 1 2.5) x)").unwrap();
    assert_eq!(tree.render(), "(\"+\" (\"+\" 1 f2.5) \"x\")");
}

#[test]
fn error_messages() {
    assert_eq!(
        SexprSyntaxError::Empty.message(),
        "Empty S-expression provided"
    );
    assert_eq!(
        SexprSyntaxError::UnmatchedParen.message(),
        "Unmatched parentheses found"
    );
}
