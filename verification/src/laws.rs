//! Laws of the parsing pipeline, proved over the grammar itself: any
//! well-formed tree is recovered exactly from its token sequence, children in
//! order, at any nesting depth; and integer-shaped tokens always classify as
//! integers.

use vstd::prelude::*;
use crate::atom::{AtomV, spec_classify, is_int_token, int_token_value, is_digit, all_digits,
    is_digits, digits_value, digit_val};
use crate::render::{int_rep, dec_rep, digit_char};
use crate::token::TokenV;
use crate::tree::{NodeV, SexprSyntaxError};
use crate::parser::{spec_parse, spec_parse_elems, spec_find_match};

verus! {

/// The token text a single atom stands for: its canonical decimal digits for
/// an integer, its carried text otherwise.
pub open spec fn atom_token(a: AtomV) -> Seq<char> {
    match a {
        AtomV::Int(i) => int_rep(i),
        AtomV::Float(s) => s,
        AtomV::Symbol(s) => s,
    }
}

/// An atom whose token text classifies back to exactly this atom.
pub open spec fn wf_atom(a: AtomV) -> bool {
    spec_classify(atom_token(a)) == a
}

/// A tree all of whose atoms are well-formed.
pub open spec fn wf_node(n: NodeV) -> bool
    decreases n,
{
    match n {
        NodeV::Atom(a) => wf_atom(a),
        NodeV::List(l) => forall|i: int| 0 <= i < l.len() ==> wf_node(#[trigger] l[i]),
    }
}

/// The token sequence a tree stands for: atoms as single word tokens, lists
/// as their children's sequences between one parenthesis pair.
pub open spec fn flat_tokens(n: NodeV) -> Seq<TokenV>
    decreases n,
{
    match n {
        NodeV::Atom(a) => seq![TokenV::Word(atom_token(a))],
        NodeV::List(l) => seq![TokenV::Open] + flat_list(l) + seq![TokenV::Close],
    }
}

/// The concatenated token sequences of a run of trees, in order.
pub open spec fn flat_list(l: Seq<NodeV>) -> Seq<TokenV>
    decreases l,
{
    if l.len() == 0 {
        Seq::empty()
    } else {
        flat_tokens(l[0]) + flat_list(l.skip(1))
    }
}

/// The parenthesis weight of one token.
spec fn tok_net(t: TokenV) -> int {
    match t {
        TokenV::Open => 1,
        TokenV::Close => -1,
        TokenV::Word(_) => 0,
    }
}

/// The net parenthesis depth change over a token sequence.
spec fn net(s: Seq<TokenV>) -> int
    decreases s.len(),
{
    if s.len() == 0 {
        0
    } else {
        tok_net(s[0]) + net(s.skip(1))
    }
}

proof fn lemma_net_add(a: Seq<TokenV>, b: Seq<TokenV>)
    ensures
        net(a + b) == net(a) + net(b),
    decreases a.len(),
{
    if a.len() == 0 {
        assert(a + b =~= b);
    } else {
        assert((a + b)[0] == a[0]);
        assert((a + b).skip(1) =~= a.skip(1) + b);
        lemma_net_add(a.skip(1), b);
    }
}

proof fn lemma_net_single(t: TokenV)
    ensures
        net(seq![t]) == tok_net(t),
{
    assert(seq![t].len() == 1);
    assert(seq![t][0] == t);
    assert(seq![t].skip(1) =~= Seq::<TokenV>::empty());
    assert(net(Seq::<TokenV>::empty()) == 0);
}

/// While the scan depth stays at least one across a segment, the matching
/// scan passes over the whole segment, depth carried along.
proof fn lemma_scan_segment(toks: Seq<TokenV>, i: int, depth: int, m: int)
    requires
        0 <= i,
        0 <= m,
        i + m <= toks.len(),
        depth >= 1,
        forall|k: int| 0 <= k <= m ==> depth + net(#[trigger] toks.subrange(i, i + k)) >= 1,
    ensures
        spec_find_match(toks, i, depth) == spec_find_match(
            toks,
            i + m,
            depth + net(toks.subrange(i, i + m)),
        ),
    decreases m,
{
    if m == 0 {
        assert(toks.subrange(i, i) =~= Seq::<TokenV>::empty());
    } else {
        let t = toks[i];
        assert(toks.subrange(i, i + 1) =~= seq![t]);
        lemma_net_single(t);
        assert(depth + net(toks.subrange(i, i + 1)) >= 1);
        let depth2 = depth + tok_net(t);
        if t is Close {
            assert(depth >= 2);
        }
        assert(spec_find_match(toks, i, depth) == spec_find_match(toks, i + 1, depth2));
        assert forall|k: int| 0 <= k <= m - 1 implies depth2 + net(
            #[trigger] toks.subrange(i + 1, i + 1 + k),
        ) >= 1 by {
            assert(toks.subrange(i, i + 1 + k) =~= toks.subrange(i, i + 1) + toks.subrange(
                i + 1,
                i + 1 + k,
            ));
            lemma_net_add(toks.subrange(i, i + 1), toks.subrange(i + 1, i + 1 + k));
            assert(depth + net(toks.subrange(i, i + (k + 1))) >= 1);
        }
        lemma_scan_segment(toks, i + 1, depth2, m - 1);
        assert(toks.subrange(i, i + m) =~= toks.subrange(i, i + 1) + toks.subrange(i + 1, i + m));
        lemma_net_add(toks.subrange(i, i + 1), toks.subrange(i + 1, i + m));
    }
}

/// A tree's token sequence is balanced: net depth zero, no prefix below zero.
proof fn lemma_flat_node_bal(n: NodeV)
    ensures
        net(flat_tokens(n)) == 0,
        forall|k: int| 0 <= k <= flat_tokens(n).len() ==> net(#[trigger] flat_tokens(n).take(k))
            >= 0,
    decreases n,
{
    match n {
        NodeV::Atom(a) => {
            lemma_net_single(TokenV::Word(atom_token(a)));
            assert forall|k: int| 0 <= k <= flat_tokens(n).len() implies net(
                #[trigger] flat_tokens(n).take(k),
            ) >= 0 by {
                if k == 0 {
                    assert(flat_tokens(n).take(0) =~= Seq::<TokenV>::empty());
                } else {
                    assert(flat_tokens(n).take(k) =~= flat_tokens(n));
                }
            }
        },
        NodeV::List(l) => {
            lemma_flat_list_bal(l);
            let fl = flat_list(l);
            let whole = seq![TokenV::Open] + fl + seq![TokenV::Close];
            lemma_net_single(TokenV::Open);
            lemma_net_single(TokenV::Close);
            lemma_net_add(seq![TokenV::Open], fl);
            lemma_net_add(seq![TokenV::Open] + fl, seq![TokenV::Close]);
            assert(net(whole) == 0);
            assert forall|k: int| 0 <= k <= whole.len() implies net(#[trigger] whole.take(k))
                >= 0 by {
                if k == 0 {
                    assert(whole.take(0) =~= Seq::<TokenV>::empty());
                } else if k <= 1 + fl.len() {
                    assert(whole.take(k) =~= seq![TokenV::Open] + fl.take(k - 1));
                    lemma_net_add(seq![TokenV::Open], fl.take(k - 1));
                    assert(net(fl.take(k - 1)) >= 0);
                } else {
                    assert(whole.take(k) =~= whole);
                }
            }
        },
    }
}

/// A run of trees' concatenated token sequence is balanced too.
proof fn lemma_flat_list_bal(l: Seq<NodeV>)
    ensures
        net(flat_list(l)) == 0,
        forall|k: int| 0 <= k <= flat_list(l).len() ==> net(#[trigger] flat_list(l).take(k)) >= 0,
    decreases l,
{
    if l.len() == 0 {
        assert forall|k: int| 0 <= k <= flat_list(l).len() implies net(
            #[trigger] flat_list(l).take(k),
        ) >= 0 by {
            assert(flat_list(l).take(k) =~= Seq::<TokenV>::empty());
        }
    } else {
        let ft = flat_tokens(l[0]);
        let rest = flat_list(l.skip(1));
        lemma_flat_node_bal(l[0]);
        lemma_flat_list_bal(l.skip(1));
        lemma_net_add(ft, rest);
        assert forall|k: int| 0 <= k <= flat_list(l).len() implies net(
            #[trigger] flat_list(l).take(k),
        ) >= 0 by {
            if k <= ft.len() {
                assert(flat_list(l).take(k) =~= ft.take(k));
            } else {
                assert(flat_list(l).take(k) =~= ft + rest.take(k - ft.len()));
                lemma_net_add(ft, rest.take(k - ft.len()));
            }
        }
    }
}

/// Nesting is order-preserving and depth-unlimited: a well-formed tree is
/// parsed back, exactly and whole, from the token sequence it stands for.
pub proof fn lemma_parse_round_trip(n: NodeV)
    requires
        wf_node(n),
    ensures
        spec_parse(flat_tokens(n)) == Ok::<NodeV, SexprSyntaxError>(n),
    decreases n,
{
    match n {
        NodeV::Atom(a) => {
            let toks = flat_tokens(n);
            assert(toks.len() == 1);
            assert(toks[0] == TokenV::Word(atom_token(a)));
        },
        NodeV::List(l) => {
            let fl = flat_list(l);
            let toks = seq![TokenV::Open] + fl + seq![TokenV::Close];
            assert(toks[0] is Open);
            assert(toks.last() is Close);
            assert(toks.subrange(1, toks.len() - 1) =~= fl);
            lemma_parse_elems_round_trip(l);
            assert(spec_parse_elems(fl) == Ok::<Seq<NodeV>, SexprSyntaxError>(l));
        },
    }
}

/// Each element of a run is carved out at its own matching close and parsed
/// back in order.
proof fn lemma_parse_elems_round_trip(l: Seq<NodeV>)
    requires
        forall|i: int| 0 <= i < l.len() ==> wf_node(#[trigger] l[i]),
    ensures
        spec_parse_elems(flat_list(l)) == Ok::<Seq<NodeV>, SexprSyntaxError>(l),
    decreases l,
{
    if l.len() == 0 {
        assert(l =~= Seq::<NodeV>::empty());
        assert(spec_parse_elems(flat_list(l)) == Ok::<Seq<NodeV>, SexprSyntaxError>(
            Seq::empty(),
        ));
    } else {
        let ft = flat_tokens(l[0]);
        let rest = flat_list(l.skip(1));
        let toks = ft + rest;
        assert(toks[0] == ft[0]);
        assert forall|i: int| 0 <= i < l.skip(1).len() implies wf_node(#[trigger] l.skip(1)[i]) by {
            assert(l.skip(1)[i] == l[i + 1]);
        }
        lemma_parse_elems_round_trip(l.skip(1));
        lemma_parse_round_trip(l[0]);
        let e: int = match l[0] {
            NodeV::Atom(_) => 0,
            NodeV::List(m) => {
                let fm = flat_list(m);
                assert(ft == seq![TokenV::Open] + fm + seq![TokenV::Close]);
                assert(toks[0] is Open);
                lemma_flat_list_bal(m);
                assert forall|k: int| 0 <= k <= fm.len() implies 1 + net(
                    #[trigger] toks.subrange(1, 1 + k),
                ) >= 1 by {
                    assert(toks.subrange(1, 1 + k) =~= fm.take(k));
                }
                lemma_scan_segment(toks, 1, 1, fm.len() as int);
                assert(toks.subrange(1, 1 + fm.len() as int) =~= fm);
                assert(toks[1 + fm.len() as int] is Close);
                assert(spec_find_match(toks, 0, 0) == spec_find_match(toks, 1, 1));
                assert(spec_find_match(toks, 1 + fm.len() as int, 1) == Some(1 + fm.len() as int));
                1 + fm.len() as int
            },
        };
        assert(ft.len() == e + 1);
        assert(toks.subrange(0, e + 1) =~= ft);
        assert(toks.skip(e + 1) =~= rest);
        assert(spec_parse(ft) == Ok::<NodeV, SexprSyntaxError>(l[0]));
        assert(spec_parse_elems(rest) == Ok::<Seq<NodeV>, SexprSyntaxError>(l.skip(1)));
        assert(seq![l[0]] + l.skip(1) =~= l);
        match l[0] {
            NodeV::Atom(_) => {
                assert(spec_parse_elems(toks) == Ok::<Seq<NodeV>, SexprSyntaxError>(l));
            },
            NodeV::List(_) => {
                assert(spec_find_match(toks, 0, 0) == Some(e));
                assert(spec_parse_elems(toks) == Ok::<Seq<NodeV>, SexprSyntaxError>(l));
            },
        }
    }
}

proof fn lemma_dec_rep_digits(n: int)
    requires
        n >= 0,
    ensures
        all_digits(dec_rep(n)),
        dec_rep(n).len() >= 1,
        digits_value(dec_rep(n)) == n,
    decreases n,
{
    if n < 10 {
        assert(dec_rep(n) == seq![digit_char(n)]);
        assert(digit_char(n) as u32 == 48 + n);
        assert(is_digit(digit_char(n)));
        assert(seq![digit_char(n)].drop_last() =~= Seq::<char>::empty());
        assert(seq![digit_char(n)].last() == digit_char(n));
        assert(digit_val(digit_char(n)) == n);
        assert(digits_value(Seq::<char>::empty()) == 0);
        assert(digits_value(seq![digit_char(n)]) == digits_value(Seq::<char>::empty()) * 10
            + digit_val(digit_char(n)));
    } else {
        lemma_dec_rep_digits(n / 10);
        let pre = dec_rep(n / 10);
        let c = digit_char(n % 10);
        assert(dec_rep(n) == pre + seq![c]);
        assert((pre + seq![c]).drop_last() =~= pre);
        assert((pre + seq![c]).last() == c);
        assert(c as u32 == 48 + n % 10);
        assert(digit_val(c) == n % 10);
        assert(digits_value(dec_rep(n)) == digits_value(pre) * 10 + digit_val(c));
        assert(digits_value(pre) == n / 10);
        assert(n / 10 * 10 + n % 10 == n);
        assert forall|j: int| 0 <= j < dec_rep(n).len() implies is_digit(dec_rep(n)[j]) by {
            if j < pre.len() {
                assert(dec_rep(n)[j] == pre[j]);
            } else {
                assert(dec_rep(n)[j] == c);
            }
        }
    }
}

/// An integer atom is always well-formed: its canonical decimal digits
/// classify back to exactly it.
pub proof fn lemma_int_atom_wf(i: int)
    requires
        i64::MIN <= i <= i64::MAX,
    ensures
        wf_atom(AtomV::Int(i)),
{
    if i >= 0 {
        lemma_dec_rep_digits(i);
        assert(int_rep(i) == dec_rep(i));
        assert(is_digit(int_rep(i)[0]));
        assert(int_rep(i)[0] != '-');
        assert(is_digits(int_rep(i)));
        assert(is_int_token(int_rep(i)));
        assert(int_token_value(int_rep(i)) == i);
    } else {
        lemma_dec_rep_digits(-i);
        let s = seq!['-'] + dec_rep(-i);
        assert(int_rep(i) == s);
        assert(s[0] == '-');
        assert(s.len() >= 2);
        assert(s.skip(1) =~= dec_rep(-i));
        assert(is_digits(s.skip(1)));
        assert(is_int_token(s));
        assert(int_token_value(s) == -digits_value(dec_rep(-i)));
        assert(int_token_value(s) == i);
    }
}

/// Parsing is deterministic and total: the outcome is a function of the
/// input text alone, and it is always exactly one complete tree or one
/// structural error, never a partial state.
pub proof fn lemma_parse_deterministic(
    s: Seq<char>,
    r1: Result<NodeV, SexprSyntaxError>,
    r2: Result<NodeV, SexprSyntaxError>,
)
    requires
        r1 == crate::parser::spec_parse_sexpr(s),
        r2 == crate::parser::spec_parse_sexpr(s),
    ensures
        r1 == r2,
        r1 is Ok <==> !(r1 is Err),
{
}

/// A token matching integer syntax, with its value in range, always
/// classifies as `Int` with exactly that value, never as a float.
pub proof fn lemma_int_shaped_classifies_int(s: Seq<char>)
    requires
        is_int_token(s),
        i64::MIN <= int_token_value(s) <= i64::MAX,
    ensures
        spec_classify(s) == AtomV::Int(int_token_value(s)),
{
}

} // verus!
