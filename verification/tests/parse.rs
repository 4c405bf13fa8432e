use sexpr::{parse_sexpr, Atom, Node, SexprSyntaxError};

#[test]
fn empty_err() {
    assert_eq!(parse_sexpr("").unwrap_err(), SexprSyntaxError::Empty);
}

#[test]
fn atom_int() {
    assert_eq!(parse_sexpr("1").unwrap(), Node::Atom(Atom::Int(1)));
}

#[test]
fn atom_float() {
    assert_eq!(
        parse_sexpr("1.5").unwrap(),
        Node::Atom(Atom::Float("1.5".to_string()))
    );
}

#[test]
fn atom_str() {
    assert_eq!(
        parse_sexpr("hello").unwrap(),
        Node::Atom(Atom::Symbol("hello".to_string())),
    )
}

#[test]
fn empty_list() {
    assert_eq!(parse_sexpr("()").unwrap(), Node::List(vec![]),)
}

#[test]
fn basic() {
    assert_eq!(
        parse_sexpr("(+ 1 2)").unwrap(),
        Node::List(vec![
            Node::Atom(Atom::Symbol("+".to_string())),
            Node::Atom(Atom::Int(1)),
            Node::Atom(Atom::Int(2))
        ]),
    );
}

#[test]
fn single_unmatched_paren_err() {
    assert_eq!(
        parse_sexpr("(").unwrap_err(),
        SexprSyntaxError::UnmatchedParen,
    )
}

#[test]
fn single_unmatched_back_paren_err() {
    assert_eq!(
        parse_sexpr(")").unwrap_err(),
        SexprSyntaxError::UnmatchedParen,
    )
}

#[test]
fn unmatched_paren_err() {
    assert_eq!(
        parse_sexpr("(+ 1 2").unwrap_err(),
        SexprSyntaxError::UnmatchedParen,
    );
}

#[test]
fn unmatched_front_paren_err() {
    assert_eq!(
        parse_sexpr("+ 1 2)").unwrap_err(),
        SexprSyntaxError::UnmatchedParen,
    )
}

#[test]
fn unmatched_extra_paren_err() {
    assert_eq!(
        parse_sexpr("(+ 1 2))").unwrap_err(),
        SexprSyntaxError::UnmatchedParen,
    )
}

#[test]
fn unmatched_paren_nested_err() {
    assert_eq!(
        parse_sexpr("(+ (+ 3 4 2)").unwrap_err(),
        SexprSyntaxError::UnmatchedParen,
    );
}

#[test]
fn unmatched_extra_paren_nested_err() {
    assert_eq!(
        parse_sexpr("(+ (+ 3 4 2)))").unwrap_err(),
        SexprSyntaxError::UnmatchedParen,
    )
}

#[test]
fn basic_nested() {
    assert_eq!(
        parse_sexpr("(+ (+ 1 2) 3)").unwrap(),
        Node::List(vec![
            Node::Atom(Atom::Symbol("+".to_string())),
            Node::List(vec![
                Node::Atom(Atom::Symbol("+".to_string())),
                Node::Atom(Atom::Int(1)),
                Node::Atom(Atom::Int(2))
            ]),
            Node::Atom(Atom::Int(3))
        ],),
    );
}

#[test]
fn multiple_nested() {
    assert_eq!(
        parse_sexpr("(+ (+ 1 2) (+ 3 4))").unwrap(),
        Node::List(vec![
            Node::Atom(Atom::Symbol("+".to_string())),
            Node::List(vec![
                Node::Atom(Atom::Symbol("+".to_string())),
                Node::Atom(Atom::Int(1)),
                Node::Atom(Atom::Int(2))
            ]),
            Node::List(vec![
                Node::Atom(Atom::Symbol("+".to_string())),
                Node::Atom(Atom::Int(3)),
                Node::Atom(Atom::Int(4))
            ]),
        ],),
    );
}

#[test]
fn long_opname_multiple_nested() {
    assert_eq!(
        parse_sexpr("(add (add 1 2) (add 3 4))").unwrap(),
        Node::List(vec![
            Node::Atom(Atom::Symbol("add".to_string())),
            Node::List(vec![
                Node::Atom(Atom::Symbol("add".to_string())),
                Node::Atom(Atom::Int(1)),
                Node::Atom(Atom::Int(2)),
            ]),
            Node::List(vec![
                Node::Atom(Atom::Symbol("add".to_string())),
                Node::Atom(Atom::Int(3)),
                Node::Atom(Atom::Int(4))
            ]),
        ],),
    );
}

#[test]
fn deeply_nested() {
    let sexpr = "(car (list 1 (+ 2 3) (* (+ 4 5) 6)))";

    let expected_inner = Node::List(vec![
        Node::Atom(Atom::Symbol("list".to_string())),
        Node::Atom(Atom::Int(1)),
        Node::List(vec![
            Node::Atom(Atom::Symbol("+".to_string())),
            Node::Atom(Atom::Int(2)),
            Node::Atom(Atom::Int(3)),
        ]),
        Node::List(vec![
            Node::Atom(Atom::Symbol("*".to_string())),
            Node::List(vec![
                Node::Atom(Atom::Symbol("+".to_string())),
                Node::Atom(Atom::Int(4)),
                Node::Atom(Atom::Int(5)),
            ]),
            Node::Atom(Atom::Int(6)),
        ]),
    ]);

    assert_eq!(
        parse_sexpr(sexpr).unwrap(),
        Node::List(vec![
            Node::Atom(Atom::Symbol("car".to_string())),
            expected_inner,
        ])
    );
}
