use vstd::prelude::*;
use crate::types::address::Address;
use crate::types::address_map::AddressMap;
use crate::types::u256::U256;

verus! {

/// An edge of the capacity network: `from` can push up to `capacity` units of `token`
/// to `to`.
#[derive(Clone, Copy, Debug, Hash, PartialEq, Eq, Structural, PartialOrd, Ord)]
pub struct Edge {
    pub from: Address,
    pub to: Address,
    pub token: Address,
    pub capacity: U256,
}

impl Default for Edge {
    fn default() -> (r: Edge)
        ensures
            r.from@ == 0,
            r.to@ == 0,
            r.token@ == 0,
            r.capacity@ == 0,
    {
        Edge {
            from: Address::zero(),
            to: Address::zero(),
            token: Address::zero(),
            capacity: U256::zero(),
        }
    }
}

/// Whether two edges have the same sender, receiver and token.
pub open spec fn same_identity(e1: Edge, e2: Edge) -> bool {
    e1.from == e2.from && e1.to == e2.to && e1.token == e2.token
}

/// Whether two edges are the same but for their capacity.
pub fn eq_up_to_capacity(e1: &Edge, e2: &Edge) -> (r: bool)
    ensures
        r == same_identity(*e1, *e2),
{
    e1.from == e2.from && e1.to == e2.to && e1.token == e2.token
}

/// The end of an edge that an index is keyed by: the receiver for the index of
/// incoming edges, the sender for that of outgoing edges.
pub open spec fn endpoint(e: Edge, incoming: bool) -> Address {
    if incoming {
        e.to
    } else {
        e.from
    }
}

/// The places of the edges that have `a` at the given end, ascending.
pub open spec fn indices_of(edges: Seq<Edge>, incoming: bool, a: Address) -> Seq<usize>
    decreases edges.len(),
{
    if edges.len() == 0 {
        Seq::empty()
    } else {
        let rest = indices_of(edges.drop_last(), incoming, a);
        if endpoint(edges.last(), incoming) == a {
            rest.push((edges.len() - 1) as usize)
        } else {
            rest
        }
    }
}

/// The edges at the given places that have capacity left, in the order of the places.
pub open spec fn pick(edges: Seq<Edge>, places: Seq<usize>) -> Seq<Edge>
    decreases places.len(),
{
    if places.len() == 0 {
        Seq::empty()
    } else {
        let rest = pick(edges, places.drop_last());
        let e = edges[places.last() as int];
        if e.capacity@ != 0 {
            rest.push(e)
        } else {
            rest
        }
    }
}

/// The test that an edge has `a` at the given end and capacity left.
pub open spec fn touches(incoming: bool, a: Address) -> spec_fn(Edge) -> bool {
    |e: Edge| endpoint(e, incoming) == a && e.capacity@ != 0
}

/// The place of the first edge with the identity of `e`, if there is one.
pub open spec fn position_of(edges: Seq<Edge>, e: Edge) -> Option<int> {
    if exists|i: int| 0 <= i < edges.len() && same_identity(#[trigger] edges[i], e) {
        Some(
            choose|i: int|
                0 <= i < edges.len() && same_identity(#[trigger] edges[i], e) && forall|j: int|
                    0 <= j < i ==> !same_identity(#[trigger] edges[j], e),
        )
    } else {
        None
    }
}

/// The places listed for `a` ascend, are those of the edges that have `a` at the given
/// end, and are all of them.
pub proof fn lemma_indices_in_range(edges: Seq<Edge>, incoming: bool, a: Address)
    requires
        edges.len() <= usize::MAX,
    ensures
        ({
            let places = indices_of(edges, incoming, a);
            &&& forall|j: int|
                0 <= j < places.len() ==> (#[trigger] places[j]) < edges.len() && endpoint(
                    edges[places[j] as int],
                    incoming,
                ) == a
            &&& forall|j: int, k: int|
                0 <= j < k < places.len() ==> (#[trigger] places[j]) < (#[trigger] places[k])
            &&& forall|i: int|
                0 <= i < edges.len() && endpoint(#[trigger] edges[i], incoming) == a
                    ==> places.contains(i as usize)
        }),
    decreases edges.len(),
{
    if edges.len() > 0 {
        let init = edges.drop_last();
        lemma_indices_in_range(init, incoming, a);
        let now = indices_of(edges, incoming, a);
        let before = indices_of(init, incoming, a);
        assert forall|i: int|
            0 <= i < edges.len() && endpoint(#[trigger] edges[i], incoming) == a implies now.contains(
            i as usize,
        ) by {
            if i < init.len() {
                assert(init[i] == edges[i]);
                assert(before.contains(i as usize));
                let j = choose|j: int| 0 <= j < before.len() && before[j] == i as usize;
                assert(now[j] == i as usize);
            } else {
                assert(now[now.len() - 1] == i as usize);
            }
        }
        assert forall|j: int| 0 <= j < now.len() implies (#[trigger] now[j]) < edges.len()
            && endpoint(edges[now[j] as int], incoming) == a by {
            if j < before.len() {
                assert(now[j] == before[j]);
                assert(init[before[j] as int] == edges[before[j] as int]);
            }
        }
        assert forall|j: int, k: int| 0 <= j < k < now.len() implies (#[trigger] now[j]) < (
        #[trigger] now[k]) by {
            assert(now[j] == before[j]);
            if k < before.len() {
                assert(now[k] == before[k]);
            }
        }
    }
}

/// Picking from a longer run of edges at places within the shorter run changes nothing.
pub proof fn lemma_pick_prefix(edges: Seq<Edge>, init: Seq<Edge>, places: Seq<usize>)
    requires
        init.len() <= edges.len(),
        forall|i: int| 0 <= i < init.len() ==> init[i] == edges[i],
        forall|j: int| 0 <= j < places.len() ==> (#[trigger] places[j]) < init.len(),
    ensures
        pick(edges, places) == pick(init, places),
    decreases places.len(),
{
    if places.len() > 0 {
        lemma_pick_prefix(edges, init, places.drop_last());
    }
}

/// Picking at the places listed for `a` gives the edges that touch `a`, in their order.
pub proof fn lemma_pick_indices(edges: Seq<Edge>, incoming: bool, a: Address)
    requires
        edges.len() <= usize::MAX,
    ensures
        pick(edges, indices_of(edges, incoming, a)) == edges.filter(touches(incoming, a)),
    decreases edges.len(),
{
    reveal(Seq::filter);
    if edges.len() > 0 {
        let init = edges.drop_last();
        lemma_pick_indices(init, incoming, a);
        lemma_indices_in_range(init, incoming, a);
        let before = indices_of(init, incoming, a);
        lemma_pick_prefix(edges, init, before);
        if endpoint(edges.last(), incoming) == a {
            assert(indices_of(edges, incoming, a).drop_last() =~= before);
            assert(indices_of(edges, incoming, a).last() == (edges.len() - 1) as usize);
        }
    }
}


/// Whether an index lists, for every address, the places of the edges that have it at
/// the given end, and has no key without such an edge.
pub open spec fn index_matches(
    index: AddressMap<Vec<usize>>,
    edges: Seq<Edge>,
    incoming: bool,
) -> bool {
    &&& index.wf()
    &&& forall|a: Address| #[trigger]
        index@.contains_key(a) <==> indices_of(edges, incoming, a).len() > 0
    &&& forall|a: Address| #[trigger]
        index@.contains_key(a) ==> index@[a]@ == indices_of(edges, incoming, a)
}

/// Changing capacities changes no index.
pub proof fn lemma_indices_ignore_capacity(
    edges: Seq<Edge>,
    other: Seq<Edge>,
    incoming: bool,
    a: Address,
)
    requires
        edges.len() == other.len(),
        forall|i: int| 0 <= i < edges.len() ==> same_identity(#[trigger] edges[i], other[i]),
    ensures
        indices_of(edges, incoming, a) == indices_of(other, incoming, a),
    decreases edges.len(),
{
    if edges.len() > 0 {
        lemma_indices_ignore_capacity(edges.drop_last(), other.drop_last(), incoming, a);
        assert(same_identity(edges[edges.len() - 1], other[edges.len() - 1]));
    }
}

/// An index that matches a run of edges matches any run with the same identities.
pub proof fn lemma_index_ignores_capacity(
    index: AddressMap<Vec<usize>>,
    edges: Seq<Edge>,
    other: Seq<Edge>,
    incoming: bool,
)
    requires
        index_matches(index, edges, incoming),
        edges.len() == other.len(),
        forall|i: int| 0 <= i < edges.len() ==> same_identity(#[trigger] edges[i], other[i]),
    ensures
        index_matches(index, other, incoming),
{
    assert forall|a: Address|
        indices_of(edges, incoming, a) == indices_of(other, incoming, a) by {
        lemma_indices_ignore_capacity(edges, other, incoming, a);
    }
}

/// Enters the edge `e`, which is about to be stored at place `i`, into an index.
fn index_edge(
    index: &mut AddressMap<Vec<usize>>,
    edges: Ghost<Seq<Edge>>,
    e: Edge,
    i: usize,
    incoming: bool,
)
    requires
        index_matches(*old(index), edges@, incoming),
        i == edges@.len(),
    ensures
        index_matches(*final(index), edges@.push(e), incoming),
{
    let a = if incoming { e.to } else { e.from };
    let ghost before = *index;
    let ghost longer = edges@.push(e);
    proof {
        assert(longer.drop_last() =~= edges@);
        assert forall|b: Address|
            indices_of(longer, incoming, b) == if b == a {
                indices_of(edges@, incoming, b).push(i)
            } else {
                indices_of(edges@, incoming, b)
            } by {}
    }
    match index.find(a) {
        Some(p) => {
            index.value_at_mut(p).push(i);
            proof {
                before.lemma_entry(p as int);
                assert(index.wf());
                assert forall|b: Address| #[trigger] index@.contains_key(b) implies index@[b]@
                    == indices_of(longer, incoming, b) by {
                    let j = index.lemma_key_place(b);
                    before.lemma_entry(j);
                }
                assert forall|b: Address| #[trigger]
                    index@.contains_key(b) <==> indices_of(longer, incoming, b).len() > 0 by {
                    assert(index@.contains_key(b) == before@.contains_key(b));
                }
            }
        },
        None => {
            let mut places: Vec<usize> = Vec::new();
            places.push(i);
            let _ = index.insert(a, places);
            proof {
                assert(indices_of(edges@, incoming, a).len() == 0);
                assert(places@ =~= indices_of(edges@, incoming, a).push(i));
            }
        },
    }
}

/// The index of the places of the edges by one of their ends.
fn build_index(edges: &Vec<Edge>, incoming: bool) -> (index: AddressMap<Vec<usize>>)
    ensures
        index_matches(index, edges@, incoming),
{
    let mut index: AddressMap<Vec<usize>> = AddressMap::new();
    let mut i: usize = 0;
    while i < edges.len()
        invariant
            i <= edges@.len(),
            index_matches(index, edges@.take(i as int), incoming),
        decreases edges@.len() - i,
    {
        assert(edges@.take(i as int).push(edges@[i as int]) =~= edges@.take(i + 1));
        index_edge(&mut index, Ghost(edges@.take(i as int)), edges[i], i, incoming);
        i += 1;
    }
    assert(edges@.take(i as int) =~= edges@);
    index
}

/// The index of the edges by their sender.
fn outgoing_index(edges: &Vec<Edge>) -> (index: AddressMap<Vec<usize>>)
    ensures
        index_matches(index, edges@, false),
{
    build_index(edges, false)
}

/// The index of the edges by their receiver.
fn incoming_index(edges: &Vec<Edge>) -> (index: AddressMap<Vec<usize>>)
    ensures
        index_matches(index, edges@, true),
{
    build_index(edges, true)
}

/// The edges of a capacity network in the order in which they were stored, with an
/// index of their places by sender and one by receiver.
#[derive(Debug, Clone)]
pub struct EdgeDB {
    edges: Vec<Edge>,
    outgoing: AddressMap<Vec<usize>>,
    incoming: AddressMap<Vec<usize>>,
}

impl View for EdgeDB {
    type V = Seq<Edge>;

    closed spec fn view(&self) -> Seq<Edge> {
        self.edges@
    }
}

impl EdgeDB {
    /// Both indices match the stored edges.
    pub closed spec fn wf(&self) -> bool {
        &&& index_matches(self.outgoing, self.edges@, false)
        &&& index_matches(self.incoming, self.edges@, true)
    }

    /// Stores the edges as they are given, and indexes them in one pass each.
    pub fn new(edges: Vec<Edge>) -> (r: EdgeDB)
        ensures
            r.wf(),
            r@ == edges@,
    {
        let outgoing = outgoing_index(&edges);
        let incoming = incoming_index(&edges);
        EdgeDB { edges, outgoing, incoming }
    }

    /// A database of its own with the same edges in the same order.
    pub fn duplicate(&self) -> (r: EdgeDB)
        ensures
            r.wf(),
            r@ == self@,
    {
        let mut edges: Vec<Edge> = Vec::new();
        let mut i: usize = 0;
        while i < self.edges.len()
            invariant
                i <= self.edges@.len(),
                edges@ == self.edges@.take(i as int),
            decreases self.edges@.len() - i,
        {
            edges.push(self.edges[i]);
            assert(edges@ =~= self.edges@.take(i + 1));
            i += 1;
        }
        assert(self.edges@.take(i as int) =~= self.edges@);
        EdgeDB::new(edges)
    }

    /// The number of stored edges, those without capacity included.
    pub fn edge_count(&self) -> (r: usize)
        ensures
            r == self@.len(),
    {
        self.edges.len()
    }

    /// The stored edges, those without capacity included.
    pub fn edges(&self) -> (r: &Vec<Edge>)
        ensures
            r@ == self@,
    {
        &self.edges
    }

    /// The place of the first stored edge with the identity of `e`.
    fn index_of(&self, e: &Edge) -> (r: Option<usize>)
        requires
            self.wf(),
        ensures
            r is Some <==> position_of(self@, *e) is Some,
            r is Some ==> r->0 == position_of(self@, *e)->0,
            r is Some ==> r->0 < self@.len() && same_identity(self@[r->0 as int], *e),
    {
        let count = self.edges.len();
        proof {
            lemma_indices_in_range(self.edges@, false, e.from);
        }
        match self.outgoing.get(e.from) {
            None => {
                assert forall|i: int| 0 <= i < self@.len() implies !same_identity(
                    #[trigger] self@[i],
                    *e,
                ) by {
                    if self@[i].from == e.from {
                        assert(indices_of(self@, false, e.from).contains(i as usize));
                    }
                }
                None
            },
            Some(places) => {
                let mut k: usize = 0;
                while k < places.len()
                    invariant
                        self.wf(),
                        k <= places@.len(),
                        places@ == indices_of(self.edges@, false, e.from),
                        forall|j: int|
                            0 <= j < places@.len() ==> (#[trigger] places@[j]) < self.edges@.len()
                                && self.edges@[places@[j] as int].from == e.from,
                        forall|j: int, l: int|
                            0 <= j < l < places@.len() ==> (#[trigger] places@[j]) < (
                            #[trigger] places@[l]),
                        forall|i: int|
                            0 <= i < self.edges@.len() && (#[trigger] self.edges@[i]).from == e.from
                                ==> places@.contains(i as usize),
                        forall|j: int|
                            0 <= j < k ==> !same_identity(
                                self.edges@[(#[trigger] places@[j]) as int],
                                *e,
                            ),
                    decreases places@.len() - k,
                {
                    let i = places[k];
                    if eq_up_to_capacity(&self.edges[i], e) {
                        proof {
                            assert forall|j: int| 0 <= j < i implies !same_identity(
                                #[trigger] self@[j],
                                *e,
                            ) by {
                                if self@[j].from == e.from {
                                    assert(places@.contains(j as usize));
                                    let l = choose|l: int|
                                        0 <= l < places@.len() && places@[l] == j as usize;
                                    if l >= k {
                                        if l > k {
                                            assert(places@[k as int] < places@[l]);
                                        }
                                    }
                                }
                            }
                            assert(same_identity(self@[i as int], *e));
                        }
                        return Some(i);
                    }
                    k += 1;
                }
                proof {
                    assert forall|i: int| 0 <= i < self@.len() implies !same_identity(
                        #[trigger] self@[i],
                        *e,
                    ) by {
                        if self@[i].from == e.from {
                            assert(places@.contains(i as usize));
                        }
                    }
                }
                None
            },
        }
    }

    /// Gives the stored edge with the identity of `update` its capacity, or stores
    /// `update` behind the others where there is none. No edge is ever taken out.
    pub fn update(&mut self, update: Edge)
        requires
            old(self).wf(),
            old(self)@.len() < usize::MAX,
        ensures
            final(self).wf(),
            final(self)@ == match position_of(old(self)@, update) {
                Some(i) => old(self)@.update(
                    i,
                    Edge { capacity: update.capacity, ..old(self)@[i] },
                ),
                None => old(self)@.push(update),
            },
    {
        let ghost before = self.edges@;
        match self.index_of(&update) {
            Some(i) => {
                self.edges[i].capacity = update.capacity;
                proof {
                    assert(self.edges@ =~= before.update(
                        i as int,
                        Edge { capacity: update.capacity, ..before[i as int] },
                    ));
                    lemma_index_ignores_capacity(self.outgoing, before, self.edges@, false);
                    lemma_index_ignores_capacity(self.incoming, before, self.edges@, true);
                }
            },
            None => {
                let i = self.edges.len();
                index_edge(&mut self.outgoing, Ghost(before), update, i, false);
                index_edge(&mut self.incoming, Ghost(before), update, i, true);
                self.edges.push(update);
            },
        }
    }

    /// The edges at the given places that have capacity left.
    fn pick_edges(&self, places: &Vec<usize>) -> (r: Vec<Edge>)
        requires
            forall|j: int| 0 <= j < places@.len() ==> (#[trigger] places@[j]) < self@.len(),
        ensures
            r@ == pick(self@, places@),
    {
        let mut out: Vec<Edge> = Vec::new();
        let mut k: usize = 0;
        while k < places.len()
            invariant
                k <= places@.len(),
                forall|j: int| 0 <= j < places@.len() ==> (#[trigger] places@[j]) < self@.len(),
                out@ == pick(self@, places@.take(k as int)),
            decreases places@.len() - k,
        {
            let e = self.edges[places[k]];
            assert(places@.take(k + 1).drop_last() =~= places@.take(k as int));
            if !e.capacity.is_zero() {
                out.push(e);
            }
            k += 1;
        }
        assert(places@.take(k as int) =~= places@);
        out
    }

    /// The edges that leave `source` and have capacity left, in the order in which
    /// they are stored.
    pub fn outgoing(&self, source: &Address) -> (r: Vec<Edge>)
        requires
            self.wf(),
        ensures
            r@ == self@.filter(touches(false, *source)),
    {
        let count = self.edges.len();
        proof {
            lemma_indices_in_range(self.edges@, false, *source);
            lemma_pick_indices(self.edges@, false, *source);
        }
        match self.outgoing.get(*source) {
            Some(places) => self.pick_edges(places),
            None => {
                assert(pick(self@, Seq::<usize>::empty()) =~= Seq::<Edge>::empty());
                Vec::new()
            },
        }
    }

    /// The edges that arrive at `to` and have capacity left, in the order in which
    /// they are stored.
    pub fn incoming(&self, to: &Address) -> (r: Vec<Edge>)
        requires
            self.wf(),
        ensures
            r@ == self@.filter(touches(true, *to)),
    {
        let count = self.edges.len();
        proof {
            lemma_indices_in_range(self.edges@, true, *to);
            lemma_pick_indices(self.edges@, true, *to);
        }
        match self.incoming.get(*to) {
            Some(places) => self.pick_edges(places),
            None => {
                assert(pick(self@, Seq::<usize>::empty()) =~= Seq::<Edge>::empty());
                Vec::new()
            },
        }
    }
}

} // verus!
