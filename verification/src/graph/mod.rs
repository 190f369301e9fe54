use vstd::prelude::*;
use vstd::string::StringExecFns;
use crate::types::address::Address;
use crate::types::text::fixed_text;

pub mod adjacencies;
pub mod augmenting_path;
pub mod conservation;
pub mod extract_transfers;
pub mod flow;
pub mod flow_map;
pub mod prune;

verus! {

/// A vertex of the flow network. A capacity edge `(from, to, token)` becomes the path
/// `Node(from)`, `BalanceNode(from, token)`, `TrustNode(to, token)`, `Node(to)`.
#[derive(Debug, Eq, PartialEq, Structural, Hash, Clone, Copy, PartialOrd, Ord)]
pub enum Node {
    /// The account itself.
    Node(Address),
    /// The account's pool of a token.
    BalanceNode(Address, Address),
    /// The account's intake of a token.
    TrustNode(Address, Address),
}

/// The three numbers by which vertices are ordered: the kind, then the account, then
/// the token.
pub open spec fn node_key(n: Node) -> (int, nat, nat) {
    match n {
        Node::Node(a) => (0, a@, 0),
        Node::BalanceNode(a, t) => (1, a@, t@),
        Node::TrustNode(a, t) => (2, a@, t@),
    }
}

/// The order of the vertices: by kind, then by account, then by token.
pub open spec fn node_lt(a: Node, b: Node) -> bool {
    let ka = node_key(a);
    let kb = node_key(b);
    ka.0 < kb.0 || (ka.0 == kb.0 && (ka.1 < kb.1 || (ka.1 == kb.1 && ka.2 < kb.2)))
}

/// Of two different vertices one is before the other.
pub proof fn lemma_node_order_total(a: Node, b: Node)
    ensures
        a == b || node_lt(a, b) || node_lt(b, a),
        !(node_lt(a, b) && node_lt(b, a)),
        !node_lt(a, a),
{
    if node_key(a) == node_key(b) {
        match (a, b) {
            (Node::Node(x), Node::Node(y)) => {
                Address::lemma_view_injective(x, y);
            },
            (Node::BalanceNode(x, s), Node::BalanceNode(y, t)) => {
                Address::lemma_view_injective(x, y);
                Address::lemma_view_injective(s, t);
            },
            (Node::TrustNode(x, s), Node::TrustNode(y, t)) => {
                Address::lemma_view_injective(x, y);
                Address::lemma_view_injective(s, t);
            },
            _ => {},
        }
    }
}

/// The order of the vertices is transitive.
pub proof fn lemma_node_order_transitive(a: Node, b: Node, c: Node)
    requires
        node_lt(a, b),
        node_lt(b, c),
    ensures
        node_lt(a, c),
{
}

/// Whether `a` is before `b` in the order of addresses, then `s` before `t` where the
/// addresses are the same.
fn pair_before(a: &Address, s: &Address, b: &Address, t: &Address) -> (r: bool)
    ensures
        r == (a@ < b@ || (a@ == b@ && s@ < t@)),
{
    proof {
        Address::lemma_bound(*a);
        if a@ == b@ {
            Address::lemma_view_injective(*a, *b);
        }
    }
    *a < *b || (*a == *b && *s < *t)
}

/// Whether `a` is before `b` in the order of the vertices.
pub fn node_before(a: &Node, b: &Node) -> (r: bool)
    ensures
        r == node_lt(*a, *b),
{
    match (a, b) {
        (Node::Node(x), Node::Node(y)) => *x < *y,
        (Node::Node(_), _) => true,
        (Node::BalanceNode(_, _), Node::Node(_)) => false,
        (Node::BalanceNode(x, s), Node::BalanceNode(y, t)) => pair_before(x, s, y, t),
        (Node::BalanceNode(_, _), Node::TrustNode(_, _)) => true,
        (Node::TrustNode(x, s), Node::TrustNode(y, t)) => pair_before(x, s, y, t),
        (Node::TrustNode(_, _), _) => false,
    }
}

/// The account of a vertex that is an account.
pub fn node_as_address(node: &Node) -> (r: &Address)
    requires
        node is Node,
    ensures
        *node == Node::Node(*r),
{
    match node {
        Node::Node(address) => address,
        Node::BalanceNode(address, _) => address,
        Node::TrustNode(address, _) => address,
    }
}

/// The account and the token of a vertex that is an intake.
pub fn as_trust_node(node: &Node) -> (r: (&Address, &Address))
    requires
        node is TrustNode,
    ensures
        *node == Node::TrustNode(*r.0, *r.1),
{
    match node {
        Node::TrustNode(to, token) => (to, token),
        Node::BalanceNode(to, token) => (to, token),
        Node::Node(to) => (to, to),
    }
}

/// An address as it is written: `0x` and its 40 hexadecimal digits.
pub open spec fn address_text(a: Address) -> Seq<char> {
    seq!['0', 'x'] + fixed_text(a@, 16, 40)
}

/// A vertex as it is written: an account by its address, a pool as
/// `(bal ADDRESS x TOKEN)`, an intake as `(trust ADDRESS x TOKEN)`.
pub open spec fn node_text(n: Node) -> Seq<char> {
    match n {
        Node::Node(a) => address_text(a),
        Node::BalanceNode(a, t) => "(bal "@ + address_text(a) + " x "@ + address_text(t) + ")"@,
        Node::TrustNode(a, t) => "(trust "@ + address_text(a) + " x "@ + address_text(t) + ")"@,
    }
}

impl Node {
    /// The vertex as it is written.
    pub fn to_string(&self) -> (r: String)
        ensures
            r@ == node_text(*self),
    {
        match self {
            Node::Node(address) => address.to_string(),
            Node::BalanceNode(from, token) => {
                let mut out = String::from_str("(bal ");
                out.append(from.to_string().as_str());
                out.append(" x ");
                out.append(token.to_string().as_str());
                out.append(")");
                out
            },
            Node::TrustNode(to, token) => {
                let mut out = String::from_str("(trust ");
                out.append(to.to_string().as_str());
                out.append(" x ");
                out.append(token.to_string().as_str());
                out.append(")");
                out
            },
        }
    }
}

} // verus!
