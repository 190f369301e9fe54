use vstd::prelude::*;
use crate::graph::flow_map::{
    capacity_of, has_entry, keys_unique, lemma_place, place_of, FlowEntry, FlowMap,
};
use crate::graph::{lemma_node_order_total, node_before, node_lt, Node};
use crate::types::address::Address;
use crate::types::edge::{touches, Edge, EdgeDB};
use crate::types::u256::{modulus, U256};

verus! {

/// The largest capacity among the edges of a token, nothing where there is none.
pub open spec fn max_capacity(edges: Seq<Edge>, token: Address) -> nat
    decreases edges.len(),
{
    if edges.len() == 0 {
        0
    } else {
        let rest = max_capacity(edges.drop_last(), token);
        let e = edges.last();
        if e.token == token && e.capacity@ > rest {
            e.capacity@
        } else {
            rest
        }
    }
}

/// The sum of the capacities of the edges of a token.
pub open spec fn sum_capacity(edges: Seq<Edge>, token: Address) -> nat
    decreases edges.len(),
{
    if edges.len() == 0 {
        0
    } else {
        let rest = sum_capacity(edges.drop_last(), token);
        let e = edges.last();
        if e.token == token {
            rest + e.capacity@
        } else {
            rest
        }
    }
}

/// The capacity of the last edge of a token to a receiver, nothing where there is none.
pub open spec fn last_capacity(edges: Seq<Edge>, to: Address, token: Address) -> nat
    decreases edges.len(),
{
    if edges.len() == 0 {
        0
    } else {
        let e = edges.last();
        if e.to == to && e.token == token {
            e.capacity@
        } else {
            last_capacity(edges.drop_last(), to, token)
        }
    }
}

/// The capacity that the capacity network gives to a pair of vertices of the flow
/// network, before any flow is pushed.
///
/// From an account to its pool of a token: the largest capacity among the account's
/// outgoing edges of that token. From a pool to an intake of the same token: the
/// capacity of the account's edge to that receiver. From an intake to its account: the
/// sum of the incoming edges of the token where the token is the account's own, capped
/// at the largest number, and their largest capacity otherwise. Edges without capacity
/// do not count, and every other pair has none.
pub open spec fn base_capacity(db: Seq<Edge>, from: Node, to: Node) -> nat {
    match (from, to) {
        (Node::Node(a), Node::BalanceNode(b, t)) => if a == b {
            max_capacity(db.filter(touches(false, a)), t)
        } else {
            0
        },
        (Node::BalanceNode(a, t), Node::TrustNode(b, s)) => if t == s {
            last_capacity(db.filter(touches(false, a)), b, t)
        } else {
            0
        },
        (Node::TrustNode(b, t), Node::Node(c)) => if b == c {
            let arriving = db.filter(touches(true, b));
            if b == t {
                if sum_capacity(arriving, t) < modulus() {
                    sum_capacity(arriving, t)
                } else {
                    (modulus() - 1) as nat
                }
            } else {
                max_capacity(arriving, t)
            }
        } else {
            0
        },
        _ => 0,
    }
}

/// The largest capacity among edges is that of an edge, so below two to the 256.
pub proof fn lemma_max_capacity_bound(edges: Seq<Edge>, token: Address)
    ensures
        max_capacity(edges, token) < modulus(),
    decreases edges.len(),
{
    if edges.len() > 0 {
        lemma_max_capacity_bound(edges.drop_last(), token);
        U256::lemma_limbs(edges.last().capacity);
    }
}

/// The capacity of the last edge to a receiver is below two to the 256.
pub proof fn lemma_last_capacity_bound(edges: Seq<Edge>, to: Address, token: Address)
    ensures
        last_capacity(edges, to, token) < modulus(),
    decreases edges.len(),
{
    if edges.len() > 0 {
        lemma_last_capacity_bound(edges.drop_last(), to, token);
        U256::lemma_limbs(edges.last().capacity);
    }
}

/// What the capacity network gives to a pair is below two to the 256, and it gives
/// nothing to a pair whose reverse it gives something to.
pub proof fn lemma_base_capacity(db: Seq<Edge>, from: Node, to: Node)
    ensures
        base_capacity(db, from, to) < modulus(),
        base_capacity(db, from, to) > 0 ==> base_capacity(db, to, from) == 0,
        base_capacity(db, from, to) > 0 ==> from != to,
{
    match (from, to) {
        (Node::Node(a), Node::BalanceNode(b, t)) => {
            lemma_max_capacity_bound(db.filter(touches(false, a)), t);
        },
        (Node::BalanceNode(a, t), Node::TrustNode(b, s)) => {
            lemma_last_capacity_bound(db.filter(touches(false, a)), b, t);
        },
        (Node::TrustNode(b, t), Node::Node(c)) => {
            lemma_max_capacity_bound(db.filter(touches(true, b)), t);
        },
        _ => {},
    }
}

/// Whether a table holds just the capacities that the capacity network gives to the
/// pairs that start at `from`.
pub open spec fn row_matches(row: Seq<FlowEntry>, db: Seq<Edge>, from: Node) -> bool {
    &&& keys_unique(row)
    &&& forall|j: int| 0 <= j < row.len() ==> (#[trigger] row[j]).from == from
    &&& forall|n: Node| #[trigger] capacity_of(row, from, n) == base_capacity(db, from, n)
}

/// Whether one listed pair stands before another: the larger capacity first, and of two
/// equal capacities the vertex that is first in the order of the vertices.
pub open spec fn listed_before(a: (Node, U256), b: (Node, U256)) -> bool {
    a.1@ > b.1@ || (a.1@ == b.1@ && node_lt(a.0, b.0))
}

/// Whether a list of vertices with capacities descends by capacity, equal capacities
/// ascending by vertex.
pub open spec fn sorted_by_capacity(s: Seq<(Node, U256)>) -> bool {
    forall|i: int, j: int| 0 <= i < j < s.len() ==> listed_before(#[trigger] s[i], #[trigger] s[j])
}

/// Whether a vertex is in a list of vertices with capacities.
pub open spec fn lists(s: Seq<(Node, U256)>, n: Node) -> bool {
    exists|i: int| 0 <= i < s.len() && (#[trigger] s[i]).0 == n
}

/// Puts a vertex that is not in the list at its place in the order of the list, and
/// returns that place.
fn insert_sorted(list: &mut Vec<(Node, U256)>, n: Node, c: U256) -> (p: usize)
    requires
        sorted_by_capacity(old(list)@),
        !lists(old(list)@, n),
    ensures
        p <= old(list)@.len(),
        final(list)@ == old(list)@.insert(p as int, (n, c)),
        sorted_by_capacity(final(list)@),
{
    let ghost before = list@;
    let mut p: usize = 0;
    while p < list.len() && (list[p].1 > c || (list[p].1 == c && node_before(&list[p].0, &n)))
        invariant
            list@ == before,
            p <= before.len(),
            forall|i: int| 0 <= i < p ==> listed_before(#[trigger] before[i], (n, c)),
        decreases before.len() - p,
    {
        p += 1;
    }
    list.insert(p, (n, c));
    proof {
        assert forall|i: int, j: int| 0 <= i < j < list@.len() implies listed_before(
            #[trigger] list@[i],
            #[trigger] list@[j],
        ) by {
            let i0 = if i < p { i } else { i - 1 };
            let j0 = if j < p { j } else { j - 1 };
            if i == p {
                // the new pair stands before what was at its place and behind it
                if before[p as int].1@ == c@ {
                    U256::lemma_view_injective(before[p as int].1, c);
                }
                assert(!listed_before(before[p as int], (n, c)));
                assert(before[p as int].0 != n);
                lemma_node_order_total(before[p as int].0, n);
                assert(listed_before((n, c), before[p as int]));
                if j0 > p {
                    assert(listed_before(before[p as int], before[j0]));
                    if before[p as int].1@ == before[j0].1@ && c@ == before[p as int].1@ {
                        crate::graph::lemma_node_order_transitive(
                            n,
                            before[p as int].0,
                            before[j0].0,
                        );
                    }
                }
            } else if j == p {
                assert(listed_before(before[i0], (n, c)));
            } else {
                assert(listed_before(before[i0], before[j0]));
            }
        }
    }
    p
}

/// The capacities of the pairs that start at one vertex, as the capacity network gives
/// them, kept once they have been worked out.
#[derive(Debug, Clone)]
pub struct CachedRow {
    node: Node,
    row: FlowMap,
}

/// The flow network over a capacity network. The capacities that the capacity network
/// gives are worked out vertex by vertex when they are first asked for; what has
/// been pushed since is kept apart, as amounts to add modulo two to the 256.
pub struct Adjacencies<'a> {
    edges: &'a EdgeDB,
    lazy_adjacencies: Vec<CachedRow>,
    capacity_adjustments: FlowMap,
}

impl<'a> Adjacencies<'a> {
    /// The edges of the capacity network.
    pub closed spec fn edges(&self) -> Seq<Edge> {
        self.edges@
    }

    /// What has been added to the capacity of a pair, modulo two to the 256.
    pub closed spec fn adjustment(&self, from: Node, to: Node) -> nat {
        capacity_of(self.capacity_adjustments@, from, to)
    }

    /// The capacity of a pair as it stands: what the capacity network gives plus what
    /// has been added, modulo two to the 256.
    pub closed spec fn capacity(&self, from: Node, to: Node) -> nat {
        (base_capacity(self.edges(), from, to) + self.adjustment(from, to)) % modulus()
    }

    /// The capacity of a pair is what the capacity network gives plus what has been
    /// added, modulo two to the 256: a number below two to the 256.
    pub proof fn lemma_capacity(&self, from: Node, to: Node)
        ensures
            self.capacity(from, to) == (base_capacity(self.edges(), from, to) + self.adjustment(
                from,
                to,
            )) % modulus(),
            self.capacity(from, to) < modulus(),
    {
        vstd::arithmetic::div_mod::lemma_mod_bound(
            (base_capacity(self.edges(), from, to) + self.adjustment(from, to)) as int,
            modulus() as int,
        );
    }

    /// Two flow networks in the same state give every pair the same capacity.
    pub proof fn lemma_same_state(&self, other: &Adjacencies)
        requires
            self.same_state(other),
        ensures
            forall|u: Node, v: Node| #[trigger] self.capacity(u, v) == other.capacity(u, v),
    {
    }

    /// The capacity network is well formed, no pair has two adjustments, and every
    /// row that is kept holds what the capacity network gives.
    pub closed spec fn wf(&self) -> bool {
        &&& self.edges.wf()
        &&& self.capacity_adjustments.wf()
        &&& forall|i: int|
            0 <= i < self.lazy_adjacencies@.len() ==> row_matches(
                (#[trigger] self.lazy_adjacencies@[i]).row@,
                self.edges@,
                self.lazy_adjacencies@[i].node,
            )
    }

    /// Whether two flow networks stand on the same capacity network with the same
    /// adjustments.
    pub open spec fn same_state(&self, other: &Adjacencies) -> bool {
        &&& self.edges() == other.edges()
        &&& forall|u: Node, v: Node| #[trigger] self.adjustment(u, v) == other.adjustment(u, v)
    }

    /// The flow network over `edges`, with nothing pushed.
    pub fn new(edges: &'a EdgeDB) -> (r: Self)
        requires
            edges.wf(),
        ensures
            r.wf(),
            r.edges() == edges@,
            forall|u: Node, v: Node| #[trigger] r.adjustment(u, v) == 0,
    {
        let r = Adjacencies {
            edges,
            lazy_adjacencies: Vec::new(),
            capacity_adjustments: FlowMap::new(),
        };
        assert forall|u: Node, v: Node| #[trigger] r.adjustment(u, v) == 0 by {
            assert(!has_entry(r.capacity_adjustments@, u, v));
        }
        r
    }

    /// Adds `adjustment` to the capacity of the pair, modulo two to the 256: to take
    /// capacity away, add its negative.
    pub fn adjust_capacity(&mut self, from: &Node, to: &Node, adjustment: U256)
        requires
            old(self).wf(),
        ensures
            final(self).wf(),
            final(self).edges() == old(self).edges(),
            final(self).adjustment(*from, *to) == (old(self).adjustment(*from, *to) + adjustment@)
                % modulus(),
            forall|u: Node, v: Node|
                !(u == *from && v == *to)
                    ==> #[trigger] final(self).adjustment(u, v) == old(self).adjustment(u, v),
    {
        let current = self.capacity_adjustments.get(from, to);
        self.capacity_adjustments.set(from, to, current.wrapping_add(adjustment));
    }

    /// Whether the capacity network gives the pair any capacity; what has been pushed
    /// does not count.
    pub fn is_adjacent(&mut self, from: &Node, to: &Node) -> (r: bool)
        requires
            old(self).wf(),
        ensures
            final(self).wf(),
            final(self).same_state(old(self)),
            r == (base_capacity(old(self).edges(), *from, *to) > 0),
    {
        let i = self.adjacencies_from(from);
        !self.lazy_adjacencies[i].row.get(from, to).is_zero()
    }

    /// The place of the first kept row of `from`, or nothing where no row of `from`
    /// has been worked out.
    fn find_row(&self, from: &Node) -> (r: Option<usize>)
        ensures
            r is Some ==> r->0 < self.lazy_adjacencies@.len() && self.lazy_adjacencies@[r->0 as int].node
                == *from,
            r is Some ==> forall|j: int|
                0 <= j < r->0 ==> (#[trigger] self.lazy_adjacencies@[j]).node != *from,
            r is None ==> forall|j: int|
                0 <= j < self.lazy_adjacencies@.len() ==> (#[trigger] self.lazy_adjacencies@[j]).node
                    != *from,
    {
        let mut i: usize = 0;
        while i < self.lazy_adjacencies.len()
            invariant
                i <= self.lazy_adjacencies@.len(),
                forall|j: int| 0 <= j < i ==> (#[trigger] self.lazy_adjacencies@[j]).node != *from,
            decreases self.lazy_adjacencies@.len() - i,
        {
            if self.lazy_adjacencies[i].node == *from {
                return Some(i);
            }
            i += 1;
        }
        None
    }

    /// Works out the row of `from` unless it is kept already, and returns its place
    /// among the kept rows.
    fn adjacencies_from(&mut self, from: &Node) -> (i: usize)
        requires
            old(self).wf(),
        ensures
            final(self).wf(),
            final(self).same_state(old(self)),
            i < final(self).lazy_adjacencies@.len(),
            final(self).lazy_adjacencies@[i as int].node == *from,
            row_matches(final(self).lazy_adjacencies@[i as int].row@, old(self).edges(), *from),
    {
        match self.find_row(from) {
            Some(i) => i,
            None => {
                let row = match from {
                    Node::Node(a) => node_row(self.edges, *a),
                    Node::BalanceNode(a, token) => balance_row(self.edges, *a, *token),
                    Node::TrustNode(to, token) => trust_row(self.edges, *to, *token),
                };
                let i = self.lazy_adjacencies.len();
                self.lazy_adjacencies.push(CachedRow { node: *from, row });
                i
            },
        }
    }

    /// The vertices that `from` can push to as things stand, each with its capacity:
    /// the larger capacity first, equal capacities in the order of the vertices.
    pub fn outgoing_edges_sorted_by_capacity(&mut self, from: &Node) -> (r: Vec<(Node, U256)>)
        requires
            old(self).wf(),
        ensures
            final(self).wf(),
            final(self).same_state(old(self)),
            sorted_by_capacity(r@),
            forall|i: int|
                0 <= i < r@.len() ==> (#[trigger] r@[i]).1@ == old(self).capacity(*from, r@[i].0)
                    && r@[i].1@ > 0,
            forall|n: Node| old(self).capacity(*from, n) > 0 ==> lists(r@, n),
    {
        let at = self.adjacencies_from(from);
        let ghost db = self.edges@;
        let row = &self.lazy_adjacencies[at].row;
        let adjustments = &self.capacity_adjustments;
        let mut result: Vec<(Node, U256)> = Vec::new();
        let mut j: usize = 0;
        while j < row.len()
            invariant
                j <= row@.len(),
                row_matches(row@, db, *from),
                adjustments.wf(),
                sorted_by_capacity(result@),
                forall|i: int|
                    0 <= i < result@.len() ==> (#[trigger] result@[i]).1@ == (base_capacity(
                        db,
                        *from,
                        result@[i].0,
                    ) + capacity_of(adjustments@, *from, result@[i].0)) % modulus() && result@[i].1@ > 0,
                forall|i: int|
                    0 <= i < result@.len() ==> exists|k: int|
                        0 <= k < j && (#[trigger] row@[k]).to == (#[trigger] result@[i]).0,
                forall|k: int|
                    0 <= k < j && (base_capacity(db, *from, (#[trigger] row@[k]).to)
                        + capacity_of(adjustments@, *from, row@[k].to)) % modulus() > 0 ==> lists(
                        result@,
                        row@[k].to,
                    ),
            decreases row@.len() - j,
        {
            let e = row.entry_at(j);
            let c = e.capacity.wrapping_add(adjustments.get(from, &e.to));
            proof {
                lemma_place(row@, j as int);
            }
            let ghost before = result@;
            if !c.is_zero() {
                proof {
                    if lists(before, e.to) {
                        let i = choose|i: int| 0 <= i < before.len() && (#[trigger] before[i]).0 == e.to;
                        let k = choose|k: int| 0 <= k < j && (#[trigger] row@[k]).to == before[i].0;
                        assert(!(row@[k].from == row@[j as int].from && row@[k].to == row@[j as int].to));
                    }
                }
                let p = insert_sorted(&mut result, e.to, c);
                proof {
                    assert forall|i: int| 0 <= i < result@.len() implies exists|k: int|
                        0 <= k < j + 1 && (#[trigger] row@[k]).to == (#[trigger] result@[i]).0 by {
                        if i == p {
                            assert(row@[j as int].to == result@[i].0);
                        } else {
                            let i0 = if i < p { i } else { i - 1 };
                            assert(result@[i] == before[i0]);
                            let k = choose|k: int| 0 <= k < j && (#[trigger] row@[k]).to == before[i0].0;
                            assert(row@[k].to == result@[i].0);
                        }
                    }
                    assert forall|k: int|
                        0 <= k < j + 1 && (base_capacity(db, *from, (#[trigger] row@[k]).to)
                            + capacity_of(adjustments@, *from, row@[k].to)) % modulus() > 0 implies lists(
                        result@,
                        row@[k].to,
                    ) by {
                        if k == j {
                            assert(result@[p as int].0 == row@[k].to);
                        } else {
                            let i0 = choose|i: int| 0 <= i < before.len() && (#[trigger] before[i]).0 == row@[k].to;
                            let i = if i0 < p { i0 } else { i0 + 1 };
                            assert(result@[i].0 == row@[k].to);
                        }
                    }
                }
            }
            j += 1;
        }
        let mut k: usize = 0;
        while k < adjustments.len()
            invariant
                k <= adjustments@.len(),
                row_matches(row@, db, *from),
                adjustments.wf(),
                sorted_by_capacity(result@),
                forall|i: int|
                    0 <= i < result@.len() ==> (#[trigger] result@[i]).1@ == (base_capacity(
                        db,
                        *from,
                        result@[i].0,
                    ) + capacity_of(adjustments@, *from, result@[i].0)) % modulus() && result@[i].1@ > 0,
                forall|i: int|
                    0 <= i < result@.len() ==> has_entry(row@, *from, (#[trigger] result@[i]).0) || exists|l: int|
                        0 <= l < k && (#[trigger] adjustments@[l]).from == *from && adjustments@[l].to == result@[i].0,
                forall|n: Node|
                    has_entry(row@, *from, n) && (base_capacity(db, *from, n) + capacity_of(adjustments@, *from, n)) % modulus() > 0 ==> lists(result@, n),
                forall|l: int|
                    0 <= l < k && (#[trigger] adjustments@[l]).from == *from && !has_entry(
                        row@,
                        *from,
                        adjustments@[l].to,
                    ) && adjustments@[l].capacity@ > 0 ==> lists(result@, adjustments@[l].to),
            decreases adjustments@.len() - k,
        {
            let e = adjustments.entry_at(k);
            let ghost before = result@;
            if e.from == *from && !row.contains(from, &e.to) && !e.capacity.is_zero() {
                proof {
                    lemma_place(adjustments@, k as int);
                    assert(capacity_of(row@, *from, e.to) == 0);
                    assert(base_capacity(db, *from, e.to) == 0);
                    U256::lemma_limbs(e.capacity);
                    vstd::arithmetic::div_mod::lemma_small_mod(e.capacity@, modulus());
                    if lists(before, e.to) {
                        let i = choose|i: int| 0 <= i < before.len() && (#[trigger] before[i]).0 == e.to;
                        let l = choose|l: int|
                            0 <= l < k && (#[trigger] adjustments@[l]).from == *from && adjustments@[l].to == before[i].0;
                        assert(!(adjustments@[l].from == adjustments@[k as int].from && adjustments@[l].to == adjustments@[k as int].to));
                    }
                }
                let p = insert_sorted(&mut result, e.to, e.capacity);
                proof {
                    assert forall|i: int| 0 <= i < result@.len() implies has_entry(
                        row@,
                        *from,
                        (#[trigger] result@[i]).0,
                    ) || exists|l: int|
                        0 <= l < k + 1 && (#[trigger] adjustments@[l]).from == *from && adjustments@[l].to == result@[i].0 by {
                        if i == p {
                            assert(adjustments@[k as int].to == result@[i].0);
                        } else {
                            let i0 = if i < p { i } else { i - 1 };
                            assert(result@[i] == before[i0]);
                            if !has_entry(row@, *from, before[i0].0) {
                                let l = choose|l: int|
                                    0 <= l < k && (#[trigger] adjustments@[l]).from == *from && adjustments@[l].to == before[i0].0;
                                assert(adjustments@[l].to == result@[i].0);
                            }
                        }
                    }
                    assert forall|n: Node| lists(before, n) implies lists(result@, n) by {
                        let i0 = choose|i: int| 0 <= i < before.len() && (#[trigger] before[i]).0 == n;
                        let i = if i0 < p { i0 } else { i0 + 1 };
                        assert(result@[i].0 == n);
                    }
                    assert forall|n: Node|
                        has_entry(row@, *from, n) && (base_capacity(db, *from, n) + capacity_of(
                            adjustments@,
                            *from,
                            n,
                        )) % modulus() > 0 implies lists(result@, n) by {
                        assert(lists(before, n));
                    }
                    assert(result@[p as int].0 == e.to);
                    assert forall|l: int|
                        0 <= l < k + 1 && (#[trigger] adjustments@[l]).from == *from && !has_entry(
                            row@,
                            *from,
                            adjustments@[l].to,
                        ) && adjustments@[l].capacity@ > 0 implies lists(result@, adjustments@[l].to) by {
                        if l < k {
                            assert(lists(before, adjustments@[l].to));
                        }
                    }
                }
            }
            k += 1;
        }
        proof {
            assert forall|i: int| 0 <= i < result@.len() implies (#[trigger] result@[i]).1@
                == self.capacity(*from, result@[i].0) by {
                assert(self.adjustment(*from, result@[i].0) == capacity_of(
                    adjustments@,
                    *from,
                    result@[i].0,
                ));
            }
            assert forall|n: Node| self.capacity(*from, n) > 0 implies lists(result@, n) by {
                assert(self.adjustment(*from, n) == capacity_of(adjustments@, *from, n));
                if !has_entry(row@, *from, n) {
                    assert(capacity_of(row@, *from, n) == 0);
                    assert(base_capacity(db, *from, n) == 0);
                    let adj = capacity_of(adjustments@, *from, n);
                    assert(adj > 0) by {
                        if adj == 0 {
                            vstd::arithmetic::div_mod::lemma_small_mod(0, modulus());
                        }
                    }
                    let l = place_of(adjustments@, *from, n);
                    lemma_place(adjustments@, l);
                }
            }
        }
        result
    }
}

/// The row of an account: for each token that it can send, the largest capacity among
/// its outgoing edges of that token.
fn node_row(edges: &EdgeDB, a: Address) -> (row: FlowMap)
    requires
        edges.wf(),
    ensures
        row_matches(row@, edges@, Node::Node(a)),
{
    let from = Node::Node(a);
    let leaving = edges.outgoing(&a);
    let mut row = FlowMap::new();
    let mut i: usize = 0;
    proof {
        assert forall|n: Node| #[trigger] capacity_of(row@, from, n) == 0 by {
            assert(!has_entry(row@, from, n));
        }
    }
    while i < leaving.len()
        invariant
            i <= leaving@.len(),
            from == Node::Node(a),
            leaving@ == edges@.filter(touches(false, a)),
            row.wf(),
            forall|j: int| 0 <= j < row@.len() ==> (#[trigger] row@[j]).from == from,
            forall|n: Node| #[trigger]
                capacity_of(row@, from, n) == match n {
                    Node::BalanceNode(b, t) => if b == a {
                        max_capacity(leaving@.take(i as int), t)
                    } else {
                        0
                    },
                    _ => 0,
                },
        decreases leaving@.len() - i,
    {
        let e = leaving[i];
        proof {
            edges@.lemma_filter_pred(touches(false, a), i as int);
            assert(e.from == a);
            assert(leaving@.take(i + 1).drop_last() =~= leaving@.take(i as int));
        }
        let key = Node::BalanceNode(a, e.token);
        let current = row.get(&from, &key);
        if e.capacity > current {
            let ghost before = row@;
            row.set(&from, &key, e.capacity);
            proof {
                assert forall|j: int| 0 <= j < row@.len() implies (#[trigger] row@[j]).from == from by {
                    if j < before.len() {
                        assert(row@[j].from == before[j].from);
                    }
                }
            }
        }
        i += 1;
    }
    proof {
        assert(leaving@.take(i as int) =~= leaving@);
    }
    row
}

/// The row of an account's pool of a token: for each receiver of an outgoing edge of
/// that token, the capacity of the edge.
fn balance_row(edges: &EdgeDB, a: Address, token: Address) -> (row: FlowMap)
    requires
        edges.wf(),
    ensures
        row_matches(row@, edges@, Node::BalanceNode(a, token)),
{
    let from = Node::BalanceNode(a, token);
    let leaving = edges.outgoing(&a);
    let mut row = FlowMap::new();
    let mut i: usize = 0;
    proof {
        assert forall|n: Node| #[trigger] capacity_of(row@, from, n) == 0 by {
            assert(!has_entry(row@, from, n));
        }
    }
    while i < leaving.len()
        invariant
            i <= leaving@.len(),
            from == Node::BalanceNode(a, token),
            leaving@ == edges@.filter(touches(false, a)),
            row.wf(),
            forall|j: int| 0 <= j < row@.len() ==> (#[trigger] row@[j]).from == from,
            forall|n: Node| #[trigger]
                capacity_of(row@, from, n) == match n {
                    Node::TrustNode(b, s) => if s == token {
                        last_capacity(leaving@.take(i as int), b, token)
                    } else {
                        0
                    },
                    _ => 0,
                },
        decreases leaving@.len() - i,
    {
        let e = leaving[i];
        proof {
            assert(leaving@.take(i + 1).drop_last() =~= leaving@.take(i as int));
        }
        if e.token == token {
            let key = Node::TrustNode(e.to, token);
            let ghost before = row@;
            row.set(&from, &key, e.capacity);
            proof {
                assert forall|j: int| 0 <= j < row@.len() implies (#[trigger] row@[j]).from == from by {
                    if j < before.len() {
                        assert(row@[j].from == before[j].from);
                    }
                }
            }
        }
        i += 1;
    }
    proof {
        assert(leaving@.take(i as int) =~= leaving@);
    }
    row
}

/// The row of an account's intake of a token: the one pair to the account itself,
/// with the sum of the incoming edges of the token where the token is the account's
/// own, and their largest capacity otherwise.
fn trust_row(edges: &EdgeDB, to: Address, token: Address) -> (row: FlowMap)
    requires
        edges.wf(),
    ensures
        row_matches(row@, edges@, Node::TrustNode(to, token)),
{
    let from = Node::TrustNode(to, token);
    let arriving = edges.incoming(&to);
    let is_return_to_owner = to == token;
    let mut capacity = U256::zero();
    let mut i: usize = 0;
    while i < arriving.len()
        invariant
            i <= arriving@.len(),
            is_return_to_owner == (to == token),
            capacity@ == if is_return_to_owner {
                if sum_capacity(arriving@.take(i as int), token) < modulus() {
                    sum_capacity(arriving@.take(i as int), token)
                } else {
                    (modulus() - 1) as nat
                }
            } else {
                max_capacity(arriving@.take(i as int), token)
            },
        decreases arriving@.len() - i,
    {
        let e = arriving[i];
        proof {
            assert(arriving@.take(i + 1).drop_last() =~= arriving@.take(i as int));
            U256::lemma_limbs(e.capacity);
            U256::lemma_limbs(capacity);
        }
        if e.token == token {
            if is_return_to_owner {
                capacity = capacity.saturating_add(e.capacity);
            } else {
                capacity = capacity.max_of(e.capacity);
            }
        }
        i += 1;
    }
    let mut row = FlowMap::new();
    proof {
        assert(arriving@.take(i as int) =~= arriving@);
        assert forall|n: Node| #[trigger] capacity_of(row@, from, n) == 0 by {
            assert(!has_entry(row@, from, n));
        }
    }
    if arriving.len() > 0 {
        let ghost before = row@;
        row.set(&from, &Node::Node(to), capacity);
        proof {
            assert forall|j: int| 0 <= j < row@.len() implies (#[trigger] row@[j]).from == from by {}
        }
    }
    row
}

} // verus!
