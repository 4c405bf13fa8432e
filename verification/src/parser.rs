//! The recursive-descent structural parser: from a finished token sequence to
//! one complete tree, or to the first structural error.

use vstd::prelude::*;
use crate::atom::spec_classify;
use crate::atom::parse_atom;
use crate::token::{Token, TokenV, tokens_view, tokenize, spec_tokenize};
use crate::tree::{Node, NodeV, SexprSyntaxError, node_view, nodes_view, lemma_nodes_view};

verus! {

/// Scanning `toks` from `i` with `depth` open parentheses outstanding: the
/// index of the close token that brings the depth down from one, if any.
pub open spec fn spec_find_match(toks: Seq<TokenV>, i: int, depth: int) -> Option<int>
    decreases toks.len() - i,
{
    if i < 0 || i >= toks.len() {
        None
    } else if toks[i] is Open {
        spec_find_match(toks, i + 1, depth + 1)
    } else if toks[i] is Close {
        if depth == 1 {
            Some(i)
        } else {
            spec_find_match(toks, i + 1, depth - 1)
        }
    } else {
        spec_find_match(toks, i + 1, depth)
    }
}

/// A found match lies within the sequence, at or after the scan start, on a
/// close token.
pub proof fn lemma_find_match_bound(toks: Seq<TokenV>, i: int, depth: int)
    ensures
        match spec_find_match(toks, i, depth) {
            Some(j) => i <= j < toks.len() && toks[j] is Close,
            None => true,
        },
    decreases toks.len() - i,
{
    if 0 <= i < toks.len() {
        lemma_find_match_bound(toks, i + 1, depth + 1);
        lemma_find_match_bound(toks, i + 1, depth - 1);
        lemma_find_match_bound(toks, i + 1, depth);
    }
}

/// The structural grammar, on a whole token sequence: an empty sequence is
/// the `Empty` error; a single non-parenthesis token is an atom; otherwise
/// the sequence must be wrapped in one matching parenthesis pair around a run
/// of elements, and any other shape is the `UnmatchedParen` error.
pub open spec fn spec_parse(toks: Seq<TokenV>) -> Result<NodeV, SexprSyntaxError>
    decreases toks.len(), 0int,
{
    if toks.len() == 0 {
        Err(SexprSyntaxError::Empty)
    } else if !(toks[0] is Open) {
        if toks.len() == 1 && !(toks[0] is Close) {
            Ok(NodeV::Atom(spec_classify(toks[0]->Word_0)))
        } else {
            Err(SexprSyntaxError::UnmatchedParen)
        }
    } else if !(toks.last() is Close) {
        Err(SexprSyntaxError::UnmatchedParen)
    } else {
        match spec_parse_elems(toks.subrange(1, toks.len() - 1)) {
            Ok(elems) => Ok(NodeV::List(elems)),
            Err(e) => Err(e),
        }
    }
}

/// The elements of a list body, left to right: each element is either a
/// single non-parenthesis token or a parenthesized span up to its matching
/// close; every element must itself parse.
pub open spec fn spec_parse_elems(toks: Seq<TokenV>) -> Result<Seq<NodeV>, SexprSyntaxError>
    decreases toks.len(), 1int,
    via spec_parse_elems_dec
{
    if toks.len() == 0 {
        Ok(Seq::empty())
    } else {
        let end = if toks[0] is Open {
            spec_find_match(toks, 0, 0)
        } else {
            Some(0int)
        };
        match end {
            None => Err(SexprSyntaxError::UnmatchedParen),
            Some(e) => match spec_parse(toks.subrange(0, e + 1)) {
                Err(err) => Err(err),
                Ok(node) => match spec_parse_elems(toks.skip(e + 1)) {
                    Err(err) => Err(err),
                    Ok(rest) => Ok(seq![node] + rest),
                },
            },
        }
    }
}

#[via_fn]
proof fn spec_parse_elems_dec(toks: Seq<TokenV>) {
    if toks.len() > 0 && toks[0] is Open {
        lemma_find_match_bound(toks, 0, 0);
    }
}

/// The whole pipeline as one mathematical function on the input text.
pub open spec fn spec_parse_sexpr(s: Seq<char>) -> Result<NodeV, SexprSyntaxError> {
    spec_parse(spec_tokenize(s))
}

/// The model of a parse outcome: the model of the tree on success, the same
/// error on failure.
pub open spec fn result_view(r: Result<Node, SexprSyntaxError>) -> Result<
    NodeV,
    SexprSyntaxError,
> {
    match r {
        Ok(n) => Ok(node_view(n)),
        Err(e) => Err(e),
    }
}

/// Token views of a token subrange are the subrange of the token views.
proof fn lemma_tokens_view_subrange(s: Seq<Token>, a: int, b: int)
    requires
        0 <= a <= b <= s.len(),
    ensures
        tokens_view(s.subrange(a, b)) == tokens_view(s).subrange(a, b),
{
    assert(tokens_view(s.subrange(a, b)) =~= tokens_view(s).subrange(a, b));
}

/// The index of the close token matching the open token that starts `tokens`,
/// by depth counting, scanned exactly as the grammar counts it.
pub fn find_matching_paren(tokens: &[Token]) -> (r: Option<usize>)
    ensures
        match r {
            Some(j) => spec_find_match(tokens_view(tokens@), 0, 0) == Some(j as int),
            None => spec_find_match(tokens_view(tokens@), 0, 0) is None,
        },
{
    let ghost tv = tokens_view(tokens@);
    let mut num_parens: i128 = 0;
    let mut idx: usize = 0;
    while idx < tokens.len()
        invariant
            0 <= idx <= tokens@.len(),
            tv == tokens_view(tokens@),
            tv.len() == tokens@.len(),
            -(idx as int) <= num_parens as int <= idx as int,
            spec_find_match(tv, 0, 0) == spec_find_match(tv, idx as int, num_parens as int),
        decreases tokens@.len() - idx,
    {
        proof {
            assert(tv[idx as int] == tokens@[idx as int]@);
        }
        match &tokens[idx] {
            Token::Open => {
                num_parens += 1;
            },
            Token::Close => {
                if num_parens == 1 {
                    return Some(idx);
                }
                num_parens -= 1;
            },
            Token::Word(_) => {},
        }
        idx += 1;
    }
    None
}

/// Parses a complete token sequence into one tree, or reports the first
/// structural error, exactly as the grammar states it.
#[verifier::loop_isolation(false)]
#[verifier::rlimit(60)]
pub fn parse_tokens(tokens: &[Token]) -> (r: Result<Node, SexprSyntaxError>)
    ensures
        result_view(r) == spec_parse(tokens_view(tokens@)),
    decreases tokens@.len(),
{
    let ghost tv = tokens_view(tokens@);
    let n = tokens.len();
    if n == 0 {
        return Err(SexprSyntaxError::Empty);
    }
    proof {
        assert(tv[0] == tokens@[0]@);
        assert(tv.last() == tokens@[n - 1]@);
    }
    match &tokens[0] {
        Token::Open => {},
        Token::Close => {
            return Err(SexprSyntaxError::UnmatchedParen);
        },
        Token::Word(w) => {
            if n == 1 {
                let a = parse_atom(w.as_str());
                return Ok(Node::Atom(a));
            } else {
                return Err(SexprSyntaxError::UnmatchedParen);
            }
        },
    }
    match &tokens[n - 1] {
        Token::Close => {},
        _ => {
            return Err(SexprSyntaxError::UnmatchedParen);
        },
    }
    let inner = &tokens[1..n - 1];
    let ghost iv = tokens_view(inner@);
    proof {
        lemma_tokens_view_subrange(tokens@, 1, n - 1);
    }
    let m = inner.len();
    let mut parsed_list: Vec<Node> = Vec::new();
    let mut element_start: usize = 0;
    proof {
        assert(iv.skip(0) =~= iv);
        assert(nodes_view(parsed_list@) =~= Seq::<NodeV>::empty());
        if spec_parse_elems(iv) is Ok {
            assert(nodes_view(parsed_list@) + spec_parse_elems(iv)->Ok_0 =~= spec_parse_elems(
                iv,
            )->Ok_0);
        }
    }
    while element_start < m
        invariant
            0 <= element_start <= m,
            m == inner@.len(),
            iv == tokens_view(inner@),
            iv.len() == m,
            tv == tokens_view(tokens@),
            spec_parse(tv) == (match spec_parse_elems(iv) {
                Ok(es) => Ok::<NodeV, SexprSyntaxError>(NodeV::List(es)),
                Err(e) => Err(e),
            }),
            match spec_parse_elems(iv.skip(element_start as int)) {
                Ok(rest) => spec_parse_elems(iv) == Ok::<Seq<NodeV>, SexprSyntaxError>(
                    nodes_view(parsed_list@) + rest,
                ),
                Err(e) => spec_parse_elems(iv) == Err::<Seq<NodeV>, SexprSyntaxError>(e),
            },
        decreases m - element_start,
    {
        let ghost rest_toks = iv.skip(element_start as int);
        proof {
            assert(rest_toks[0] == iv[element_start as int]);
            assert(iv[element_start as int] == inner@[element_start as int]@);
        }
        let is_open = match &inner[element_start] {
            Token::Open => true,
            _ => false,
        };
        let element_end: usize;
        if is_open {
            let tail = &inner[element_start..m];
            proof {
                lemma_tokens_view_subrange(inner@, element_start as int, m as int);
                assert(tokens_view(tail@) =~= rest_toks);
                lemma_find_match_bound(rest_toks, 0, 0);
            }
            match find_matching_paren(tail) {
                None => {
                    return Err(SexprSyntaxError::UnmatchedParen);
                },
                Some(off) => {
                    element_end = element_start + off;
                },
            }
        } else {
            element_end = element_start;
        }
        let element = &inner[element_start..element_end + 1];
        proof {
            lemma_tokens_view_subrange(inner@, element_start as int, element_end as int + 1);
            assert(tokens_view(element@) =~= rest_toks.subrange(
                0,
                element_end - element_start + 1,
            ));
        }
        let node = match parse_tokens(element) {
            Ok(nd) => nd,
            Err(e) => {
                return Err(e);
            },
        };
        let ghost old_pl = parsed_list@;
        parsed_list.push(node);
        proof {
            let e0 = element_end - element_start;
            assert(spec_parse(rest_toks.subrange(0, e0 + 1)) == Ok::<
                NodeV,
                SexprSyntaxError,
            >(node_view(node)));
            assert(spec_parse_elems(rest_toks) == (match spec_parse_elems(
                rest_toks.skip(e0 + 1),
            ) {
                Ok(rest2) => Ok::<Seq<NodeV>, SexprSyntaxError>(seq![node_view(node)] + rest2),
                Err(err) => Err::<Seq<NodeV>, SexprSyntaxError>(err),
            }));
            lemma_nodes_view(old_pl);
            lemma_nodes_view(parsed_list@);
            assert(parsed_list@ == old_pl.push(node));
            assert(nodes_view(parsed_list@) =~= nodes_view(old_pl) + seq![node_view(node)]);
            assert(rest_toks.skip(e0 + 1) =~= iv.skip(element_end as int + 1));
            match spec_parse_elems(iv.skip(element_end as int + 1)) {
                Ok(rest2) => {
                    assert(spec_parse_elems(rest_toks.skip(e0 + 1)) == Ok::<
                        Seq<NodeV>,
                        SexprSyntaxError,
                    >(rest2));
                    assert(spec_parse_elems(rest_toks) == Ok::<Seq<NodeV>, SexprSyntaxError>(
                        seq![node_view(node)] + rest2,
                    ));
                    assert(spec_parse_elems(iv) == Ok::<Seq<NodeV>, SexprSyntaxError>(
                        nodes_view(old_pl) + (seq![node_view(node)] + rest2),
                    ));
                    assert(nodes_view(old_pl) + (seq![node_view(node)] + rest2) =~= nodes_view(
                        parsed_list@,
                    ) + rest2);
                },
                Err(e) => {
                    assert(spec_parse_elems(rest_toks) == Err::<Seq<NodeV>, SexprSyntaxError>(e));
                    assert(spec_parse_elems(iv) == Err::<Seq<NodeV>, SexprSyntaxError>(e));
                },
            }
        }
        element_start = element_end + 1;
    }
    proof {
        assert(iv.skip(m as int) =~= Seq::<TokenV>::empty());
        assert(nodes_view(parsed_list@) + Seq::<NodeV>::empty() =~= nodes_view(parsed_list@));
    }
    Ok(Node::List(parsed_list))
}

/// The single entry point of the pipeline: tokenize, then parse. Returns one
/// complete tree or one structural error, never both and never a partial
/// tree; the outcome is the grammar applied to the input text.
pub fn parse_sexpr(code: &str) -> (r: Result<Node, SexprSyntaxError>)
    ensures
        result_view(r) == spec_parse_sexpr(code@),
{
    let toks = tokenize(code);
    parse_tokens(toks.as_slice())
}

} // verus!
