//! The printer: renders a tree to a display string for inspection. The output
//! is deliberately not re-parseable (floats carry an `f` prefix, symbols are
//! quoted without escaping).

use vstd::prelude::*;
use vstd::string::StringExecFns;
use crate::atom::{Atom, AtomV};
use crate::tree::{Node, NodeV, SexprSyntaxError, nodes_view, lemma_nodes_view};

verus! {

/// The character of one decimal digit value.
pub open spec fn digit_char(d: int) -> char {
    ((48 + d) as u8) as char
}

/// The decimal digits of a non-negative number, most significant first.
pub open spec fn dec_rep(n: int) -> Seq<char>
    decreases n,
{
    if n < 10 {
        seq![digit_char(n)]
    } else {
        dec_rep(n / 10) + seq![digit_char(n % 10)]
    }
}

/// The plain decimal rendering of a signed integer.
pub open spec fn int_rep(i: int) -> Seq<char> {
    if i < 0 {
        seq!['-'] + dec_rep(-i)
    } else {
        dec_rep(i)
    }
}

/// The display form of an atom: plain digits for an integer, an `f` prefix
/// before a float's text, double quotes verbatim around a symbol.
pub open spec fn render_atom(a: AtomV) -> Seq<char> {
    match a {
        AtomV::Int(i) => int_rep(i),
        AtomV::Float(s) => seq!['f'] + s,
        AtomV::Symbol(s) => seq!['"'] + s + seq!['"'],
    }
}

/// The display form of a node: an atom's form, or the children space-joined
/// between one parenthesis pair.
pub open spec fn render_node(n: NodeV) -> Seq<char>
    decreases n,
{
    match n {
        NodeV::Atom(a) => render_atom(a),
        NodeV::List(l) => seq!['('] + render_items(l) + seq![')'],
    }
}

/// The display forms of a run of nodes, joined by single spaces.
pub open spec fn render_items(l: Seq<NodeV>) -> Seq<char>
    decreases l,
{
    if l.len() == 0 {
        Seq::empty()
    } else if l.len() == 1 {
        render_node(l[0])
    } else {
        render_node(l[0]) + seq![' '] + render_items(l.skip(1))
    }
}

/// Joining one more rendered node appends a space first unless it is the
/// first.
proof fn lemma_render_items_push(s: Seq<NodeV>, x: NodeV)
    ensures
        render_items(s.push(x)) == if s.len() == 0 {
            render_node(x)
        } else {
            render_items(s) + seq![' '] + render_node(x)
        },
    decreases s.len(),
{
    if s.len() == 0 {
        assert(s.push(x) =~= seq![x]);
    } else {
        assert(s.push(x)[0] == s[0]);
        assert(s.push(x).skip(1) =~= s.skip(1).push(x));
        lemma_render_items_push(s.skip(1), x);
        if s.len() == 1 {
            assert(render_items(s) == render_node(s[0]));
        } else {
            assert((render_node(s[0]) + seq![' ']) + (render_items(s.skip(1)) + seq![' ']
                + render_node(x)) =~= ((render_node(s[0]) + seq![' '] + render_items(s.skip(1)))
                + seq![' ']) + render_node(x));
        }
    }
}

/// The text of one digit.
fn digit_str(d: u64) -> (r: &'static str)
    requires
        d < 10,
    ensures
        r@ == seq![digit_char(d as int)],
{
    proof {
        reveal_strlit("0");
        reveal_strlit("1");
        reveal_strlit("2");
        reveal_strlit("3");
        reveal_strlit("4");
        reveal_strlit("5");
        reveal_strlit("6");
        reveal_strlit("7");
        reveal_strlit("8");
        reveal_strlit("9");
    }
    let r = match d {
        0 => "0",
        1 => "1",
        2 => "2",
        3 => "3",
        4 => "4",
        5 => "5",
        6 => "6",
        7 => "7",
        8 => "8",
        _ => "9",
    };
    proof {
        assert(r@ =~= seq![digit_char(d as int)]);
    }
    r
}

/// The digit characters written before the remaining value `ds`, most recent
/// division first.
spec fn rev_chars(ds: Seq<u64>) -> Seq<char>
    decreases ds.len(),
{
    if ds.len() == 0 {
        Seq::empty()
    } else {
        seq![digit_char(ds.last() as int)] + rev_chars(ds.drop_last())
    }
}

/// The decimal text of an unsigned number.
#[verifier::loop_isolation(false)]
fn dec_string(n0: u64) -> (r: String)
    ensures
        r@ == dec_rep(n0 as int),
{
    let mut digits: Vec<u64> = Vec::new();
    let mut n = n0;
    proof {
        assert(dec_rep(n0 as int) + rev_chars(Seq::empty()) =~= dec_rep(n0 as int));
    }
    while n >= 10
        invariant
            dec_rep(n0 as int) == dec_rep(n as int) + rev_chars(digits@),
            forall|k: int| 0 <= k < digits@.len() ==> digits@[k] < 10,
        decreases n,
    {
        let ghost old_digits = digits@;
        digits.push(n % 10);
        proof {
            assert(digits@.drop_last() =~= old_digits);
            assert(rev_chars(digits@) == seq![digit_char((n % 10) as int)] + rev_chars(
                old_digits,
            ));
            assert((dec_rep((n / 10) as int) + seq![digit_char((n % 10) as int)]) + rev_chars(
                old_digits,
            ) =~= dec_rep((n / 10) as int) + (seq![digit_char((n % 10) as int)] + rev_chars(
                old_digits,
            )));
        }
        n = n / 10;
    }
    let mut r = digit_str(n).to_owned();
    let mut k = digits.len();
    proof {
        assert(digits@.take(digits@.len() as int) =~= digits@);
    }
    while k > 0
        invariant
            0 <= k <= digits@.len(),
            r@ + rev_chars(digits@.take(k as int)) == dec_rep(n0 as int),
        decreases k,
    {
        let d = digits[k - 1];
        let ghost old_r = r@;
        r.append(digit_str(d));
        proof {
            assert(digits@.take(k as int).last() == digits@[k - 1]);
            assert(digits@.take(k as int).drop_last() =~= digits@.take(k - 1));
            assert(rev_chars(digits@.take(k as int)) == seq![digit_char(digits@[k - 1] as int)]
                + rev_chars(digits@.take(k - 1)));
            assert(old_r + (seq![digit_char(digits@[k - 1] as int)] + rev_chars(
                digits@.take(k - 1),
            )) =~= (old_r + seq![digit_char(digits@[k - 1] as int)]) + rev_chars(
                digits@.take(k - 1),
            ));
        }
        k -= 1;
    }
    proof {
        assert(rev_chars(digits@.take(0)) =~= Seq::<char>::empty());
        assert(r@ + Seq::<char>::empty() =~= r@);
    }
    r
}

/// The plain decimal text of a signed integer.
fn render_int(v: i64) -> (r: String)
    ensures
        r@ == int_rep(v as int),
{
    if v < 0 {
        let mag: u64 = if v == i64::MIN {
            9223372036854775808u64
        } else {
            (-v) as u64
        };
        let mut r = "-".to_owned();
        let ds = dec_string(mag);
        r.append(ds.as_str());
        proof {
            reveal_strlit("-");
            assert("-"@ =~= seq!['-']);
        }
        r
    } else {
        dec_string(v as u64)
    }
}

impl Atom {
    /// The display form of this atom, as [`render_atom`] states it.
    pub fn render(&self) -> (r: String)
        ensures
            r@ == render_atom(self@),
    {
        match self {
            Atom::Int(i) => render_int(*i),
            Atom::Float(s) => {
                let mut r = "f".to_owned();
                r.append(s.as_str());
                proof {
                    reveal_strlit("f");
                    assert("f"@ =~= seq!['f']);
                }
                r
            },
            Atom::Symbol(s) => {
                let mut r = "\"".to_owned();
                r.append(s.as_str());
                r.append("\"");
                proof {
                    reveal_strlit("\"");
                    assert("\""@ =~= seq!['"']);
                }
                r
            },
        }
    }
}

impl Node {
    /// The display form of this tree, as [`render_node`] states it: purely
    /// for inspection, with no round-trip promise.
    #[verifier::loop_isolation(false)]
    pub fn render(&self) -> (r: String)
        ensures
            r@ == render_node(self@),
        decreases self@,
    {
        match self {
            Node::Atom(a) => a.render(),
            Node::List(l) => {
                proof {
                    lemma_nodes_view(l@);
                    reveal_strlit("(");
                    reveal_strlit(")");
                    reveal_strlit(" ");
                    assert("("@ =~= seq!['(']);
                    assert(")"@ =~= seq![')']);
                    assert(" "@ =~= seq![' ']);
                }
                let ghost lv = nodes_view(l@);
                let mut r = "(".to_owned();
                let n = l.len();
                let mut i: usize = 0;
                while i < n
                    invariant
                        0 <= i <= n,
                        i == 0 ==> r@ == seq!['('],
                        i > 0 ==> r@ == seq!['('] + render_items(lv.take(i as int)),
                    decreases n - i,
                {
                    if i > 0 {
                        r.append(" ");
                    }
                    proof {
                        assert(decreases_to!(self@ => self@->List_0));
                        assert(decreases_to!(lv => lv[i as int]));
                        assert(lv[i as int] == l@[i as int]@);
                    }
                    let child = l[i].render();
                    r.append(child.as_str());
                    proof {
                        lemma_render_items_push(lv.take(i as int), lv[i as int]);
                        assert(lv.take(i as int + 1) =~= lv.take(i as int).push(lv[i as int]));
                        if i > 0 {
                            assert((seq!['('] + render_items(lv.take(i as int))) + (seq![' ']
                                + render_node(lv[i as int])) =~= seq!['('] + (render_items(
                                lv.take(i as int),
                            ) + seq![' '] + render_node(lv[i as int])));
                        }
                    }
                    i += 1;
                }
                r.append(")");
                proof {
                    assert(lv.take(n as int) =~= lv);
                    if n == 0 {
                        assert(seq!['('] + render_items(lv) + seq![')'] =~= seq!['('] + seq![
                            ')',
                        ]);
                    }
                }
                r
            },
        }
    }
}

/// The message text of each structural error.
pub open spec fn spec_error_message(e: SexprSyntaxError) -> Seq<char> {
    match e {
        SexprSyntaxError::Empty => "Empty S-expression provided"@,
        SexprSyntaxError::UnmatchedParen => "Unmatched parentheses found"@,
    }
}

impl SexprSyntaxError {
    /// The human-readable message of this error.
    pub fn message(&self) -> (r: String)
        ensures
            r@ == spec_error_message(*self),
    {
        match self {
            SexprSyntaxError::Empty => "Empty S-expression provided".to_owned(),
            SexprSyntaxError::UnmatchedParen => "Unmatched parentheses found".to_owned(),
        }
    }
}

} // verus!
