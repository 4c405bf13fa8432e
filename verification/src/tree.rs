//! The parsed tree: a two-variant recursive sum type, together with the
//! structural error taxonomy of the parser.

use vstd::prelude::*;
use crate::atom::{Atom, AtomV};

verus! {

/// The structural parse failures. The set of variants is open-ended at the
/// boundary; callers should not match on it exhaustively.
#[derive(Debug, PartialEq, Eq, Structural, Clone, Copy)]
#[non_exhaustive]
pub enum SexprSyntaxError {
    /// The input contained no tokens at all.
    Empty,
    /// A parenthesis-balance violation, or leftover tokens around a
    /// would-be atom or a completed form.
    UnmatchedParen,
}

/// The mathematical model of a [`Node`]: the same tree over `Seq` and
/// [`AtomV`].
pub enum NodeV {
    List(Seq<NodeV>),
    Atom(AtomV),
}

/// One form of an S-expression: an ordered list of sub-forms, or a single
/// classified atom.
#[derive(Debug)]
pub enum Node {
    List(Vec<Node>),
    Atom(Atom),
}

/// The model of a node: each list holds the models of its children, in order.
pub open spec fn node_view(n: Node) -> NodeV
    decreases n,
{
    match n {
        Node::Atom(a) => NodeV::Atom(a@),
        Node::List(l) => NodeV::List(nodes_view(l@)),
    }
}

/// The models of a sequence of nodes, in order.
pub open spec fn nodes_view(s: Seq<Node>) -> Seq<NodeV>
    decreases s,
{
    if s.len() == 0 {
        Seq::empty()
    } else {
        seq![node_view(s[0])] + nodes_view(s.skip(1))
    }
}

impl View for Node {
    type V = NodeV;

    open spec fn view(&self) -> NodeV {
        node_view(*self)
    }
}

/// `nodes_view` is the element-wise model: same length, the model of each
/// element at its index.
pub proof fn lemma_nodes_view(s: Seq<Node>)
    ensures
        nodes_view(s).len() == s.len(),
        forall|i: int| 0 <= i < s.len() ==> nodes_view(s)[i] == node_view(s[i]),
    decreases s.len(),
{
    if s.len() > 0 {
        lemma_nodes_view(s.skip(1));
        assert forall|i: int| 0 <= i < s.len() implies nodes_view(s)[i] == node_view(s[i]) by {
            if i > 0 {
                assert(nodes_view(s)[i] == nodes_view(s.skip(1))[i - 1]);
                assert(s.skip(1)[i - 1] == s[i]);
            }
        }
    }
}

/// Structural equality of two trees: equal exactly when their models are.
pub fn node_eq(a: &Node, b: &Node) -> (r: bool)
    ensures
        r == (a@ == b@),
    decreases a@,
{
    match a {
        Node::Atom(x) => match b {
            Node::Atom(y) => *x == *y,
            _ => false,
        },
        Node::List(x) => match b {
            Node::List(y) => {
            proof {
                lemma_nodes_view(x@);
                lemma_nodes_view(y@);
            }
            if x.len() != y.len() {
                return false;
            }
            let n = x.len();
            let mut i: usize = 0;
            while i < n
                invariant
                    n == x@.len() == y@.len(),
                    0 <= i <= n,
                    nodes_view(x@).len() == n,
                    nodes_view(y@).len() == n,
                    forall|j: int| 0 <= j < i ==> nodes_view(x@)[j] == nodes_view(y@)[j],
                    forall|j: int| 0 <= j < n ==> nodes_view(x@)[j] == node_view(x@[j]),
                    forall|j: int| 0 <= j < n ==> nodes_view(y@)[j] == node_view(y@[j]),
                    a@ == NodeV::List(nodes_view(x@)),
                    b@ == NodeV::List(nodes_view(y@)),
                decreases n - i,
            {
                proof {
                    assert(decreases_to!(a@ => a@->List_0));
                    assert(decreases_to!(nodes_view(x@) => nodes_view(x@)[i as int]));
                    assert(decreases_to!(a@ => x@[i as int]@));
                }
                if !node_eq(&x[i], &y[i]) {
                    proof {
                        assert(nodes_view(x@)[i as int] != nodes_view(y@)[i as int]);
                        assert(nodes_view(x@) != nodes_view(y@));
                    }
                    return false;
                }
                i += 1;
            }
                proof {
                    assert(nodes_view(x@) =~= nodes_view(y@));
                }
                true
            },
            _ => false,
        },
    }
}

impl PartialEq for Node {
    fn eq(&self, other: &Node) -> (r: bool) {
        node_eq(self, other)
    }
}

impl vstd::std_specs::cmp::PartialEqSpecImpl for Node {
    open spec fn obeys_eq_spec() -> bool {
        true
    }

    open spec fn eq_spec(&self, other: &Node) -> bool {
        self@ == other@
    }
}

} // verus!
