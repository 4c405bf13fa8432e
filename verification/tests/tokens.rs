//! The tokenizer's splitting rules and the matching-parenthesis scan.

use sexpr::{find_matching_paren, parse_sexpr, tokenize, Node, Token};

#[test]
fn tokenize_empty() {
    assert_eq!(tokenize(""), vec![]);
    assert_eq!(tokenize("   \t\n  "), vec![]);
}

#[test]
fn tokenize_parens_split_words() {
    assert_eq!(
        tokenize("(+1)"),
        vec![
            Token::Open,
            Token::Word("+1".to_string()),
            Token::Close,
        ]
    );
}

#[test]
fn tokenize_whitespace_runs() {
    assert_eq!(
        tokenize("  a \n  bc\t( d)"),
        vec![
            Token::Word("a".to_string()),
            Token::Word("bc".to_string()),
            Token::Open,
            Token::Word("d".to_string()),
            Token::Close,
        ]
    );
}

#[test]
fn matching_paren_scan() {
    let toks = tokenize("(a (b c) d) e");
    assert_eq!(find_matching_paren(&toks), Some(7));
    let inner = tokenize("(b c) d");
    assert_eq!(find_matching_paren(&inner), Some(3));
    let unclosed = tokenize("(a (b");
    assert_eq!(find_matching_paren(&unclosed), None);
}

#[test]
fn unicode_whitespace_separates() {
    assert_eq!(
        parse_sexpr("(a\u{00A0}b)").unwrap(),
        Node::List(vec![
            Node::Atom(sexpr::Atom::Symbol("a".to_string())),
            Node::Atom(sexpr::Atom::Symbol("b".to_string())),
        ])
    );
}
