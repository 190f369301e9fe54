use vstd::prelude::*;
use std::collections::VecDeque;
use crate::graph::adjacencies::Adjacencies;
use crate::graph::Node;
use crate::types::address::Address;
use crate::types::u256::{modulus, U256};

verus! {

broadcast use vstd::std_specs::vecdeque::group_vec_dequeue_axioms;

/// Whether `path`, written from the sink back to the source, is a path of the flow
/// network on which every step has at least the capacity `flow` and one step has
/// exactly that much.
pub open spec fn is_augmenting_path(
    adjacencies: &Adjacencies,
    path: Seq<Node>,
    source: Address,
    sink: Address,
    flow: nat,
) -> bool {
    &&& path.len() >= 2
    &&& path[0] == Node::Node(sink)
    &&& path[path.len() - 1] == Node::Node(source)
    &&& path.no_duplicates()
    &&& forall|i: int|
        0 <= i < path.len() - 1 ==> adjacencies.capacity(#[trigger] path[i + 1], path[i]) >= flow
    &&& exists|i: int|
        0 <= i < path.len() - 1 && adjacencies.capacity(#[trigger] path[i + 1], path[i]) == flow
}

/// A vertex that the search has reached: the place of the vertex it was reached from,
/// the number of steps from the source, and the smallest capacity on the way.
#[derive(Debug, Clone, Copy)]
pub struct Visit {
    pub node: Node,
    pub parent: usize,
    pub depth: u64,
    pub flow: U256,
}

/// Whether no vertex was reached twice.
#[verifier::opaque]
pub open spec fn nodes_distinct(order: Seq<Visit>) -> bool {
    forall|i: int, j: int|
        0 <= i < j < order.len() ==> (#[trigger] order[i]).node != (#[trigger] order[j]).node
}

/// Whether the vertex at place `i` was reached from an earlier one over a step with
/// capacity, one step deeper and within the limit, and carries the smaller of that
/// capacity and what its parent carries.
pub open spec fn reached_from_parent(
    adjacencies: &Adjacencies,
    order: Seq<Visit>,
    limit: Option<u64>,
    i: int,
) -> bool {
    let v = order[i];
    let p = order[v.parent as int];
    &&& v.parent < i
    &&& v.depth == p.depth + 1
    &&& (limit is Some ==> v.depth <= limit->0)
    &&& adjacencies.capacity(p.node, v.node) > 0
    &&& v.flow@ == if p.flow@ <= adjacencies.capacity(p.node, v.node) {
        p.flow@
    } else {
        adjacencies.capacity(p.node, v.node)
    }
}

/// Whether the vertices reached so far form a tree rooted at the source, which
/// carries the largest number.
pub open spec fn is_search_tree(
    adjacencies: &Adjacencies,
    order: Seq<Visit>,
    source: Address,
    limit: Option<u64>,
) -> bool {
    &&& order.len() >= 1
    &&& order[0].node == Node::Node(source)
    &&& order[0].depth == 0
    &&& order[0].flow@ == modulus() - 1
    &&& nodes_distinct(order)
    &&& forall|i: int|
        1 <= i < order.len() ==> #[trigger] reached_from_parent(adjacencies, order, limit, i)
}

/// The place of a vertex among those reached, if it has been reached.
fn reached(order: &Vec<Visit>, node: &Node) -> (r: Option<usize>)
    ensures
        r is Some ==> r->0 < order@.len() && order@[r->0 as int].node == *node,
        r is None ==> forall|i: int| 0 <= i < order@.len() ==> (#[trigger] order@[i]).node != *node,
{
    let mut i: usize = 0;
    while i < order.len()
        invariant
            i <= order@.len(),
            forall|j: int| 0 <= j < i ==> (#[trigger] order@[j]).node != *node,
        decreases order@.len() - i,
    {
        if order[i].node == *node {
            return Some(i);
        }
        i += 1;
    }
    None
}

/// In a search tree no vertex is deeper than its place, and every vertex carries
/// something.
proof fn lemma_tree_depth(
    adjacencies: &Adjacencies,
    order: Seq<Visit>,
    source: Address,
    limit: Option<u64>,
    i: int,
)
    requires
        is_search_tree(adjacencies, order, source, limit),
        0 <= i < order.len(),
    ensures
        order[i].depth <= i,
        order[i].flow@ > 0,
    decreases i,
{
    if i > 0 {
        assert(reached_from_parent(adjacencies, order, limit, i));
        lemma_tree_depth(adjacencies, order, source, limit, order[i].parent as int);
    }
}

/// The path from the vertex at place `at` of a search tree back to the source.
fn trace(
    order: &Vec<Visit>,
    at: usize,
    Ghost(adjacencies): Ghost<&Adjacencies>,
    Ghost(source): Ghost<Address>,
    Ghost(limit): Ghost<Option<u64>>,
) -> (path: Vec<Node>)
    requires
        is_search_tree(adjacencies, order@, source, limit),
        1 <= at < order@.len(),
    ensures
        path@.len() == order@[at as int].depth + 1,
        path@.len() >= 2,
        path@[0] == order@[at as int].node,
        path@[path@.len() - 1] == Node::Node(source),
        path@.no_duplicates(),
        forall|i: int|
            0 <= i < path@.len() - 1 ==> adjacencies.capacity(#[trigger] path@[i + 1], path@[i])
                >= order@[at as int].flow@,
        exists|i: int|
            0 <= i < path@.len() - 1 && adjacencies.capacity(#[trigger] path@[i + 1], path@[i])
                == order@[at as int].flow@,
{
    let ghost flow = order@[at as int].flow@;
    let mut path: Vec<Node> = Vec::new();
    path.push(order[at].node);
    let mut cur: usize = at;
    // the places of the vertices of the path, which descend
    let ghost mut places: Seq<int> = seq![at as int];
    while cur != 0
        invariant
            is_search_tree(adjacencies, order@, source, limit),
            0 <= cur <= at < order@.len(),
            flow == order@[at as int].flow@,
            path@.len() >= 1,
            places.len() == path@.len(),
            places[0] == at,
            places[places.len() - 1] == cur,
            forall|i: int|
                0 <= i < places.len() ==> 0 <= #[trigger] places[i] < order@.len() && path@[i]
                    == order@[places[i]].node,
            forall|i: int, j: int|
                0 <= i < j < places.len() ==> #[trigger] places[i] > #[trigger] places[j],
            path@.len() + order@[cur as int].depth == order@[at as int].depth + 1,
            order@[cur as int].flow@ >= flow,
            forall|i: int|
                0 <= i < path@.len() - 1 ==> adjacencies.capacity(#[trigger] path@[i + 1], path@[i])
                    >= flow,
            order@[cur as int].flow@ == flow || exists|i: int|
                0 <= i < path@.len() - 1 && adjacencies.capacity(#[trigger] path@[i + 1], path@[i])
                    == flow,
        decreases cur,
    {
        let v = order[cur];
        let ghost before = path@;
        let ghost child = cur as int;
        assert(order@[child] == v);
        assert(reached_from_parent(adjacencies, order@, limit, child));
        cur = v.parent;
        path.push(order[cur].node);
        proof {
            places = places.push(cur as int);
            let n = before.len() as int;
            assert(path@[n] == order@[cur as int].node);
            assert(path@[n - 1] == order@[child].node);
            assert forall|i: int| 0 <= i < path@.len() - 1 implies adjacencies.capacity(
                #[trigger] path@[i + 1],
                path@[i],
            ) >= flow by {
                if i < n - 1 {
                    assert(path@[i + 1] == before[i + 1]);
                    assert(path@[i] == before[i]);
                }
            }
            if order@[cur as int].flow@ != flow {
                if order@[child].flow@ == flow {
                    assert(adjacencies.capacity(path@[n - 1 + 1], path@[n - 1]) == flow);
                } else {
                    let i = choose|i: int|
                        0 <= i < before.len() - 1 && adjacencies.capacity(
                            #[trigger] before[i + 1],
                            before[i],
                        ) == flow;
                    assert(path@[i + 1] == before[i + 1]);
                    assert(adjacencies.capacity(path@[i + 1], path@[i]) == flow);
                }
            }
        }
    }
    proof {
        assert(path@.no_duplicates()) by {
            assert forall|i: int, j: int|
                0 <= i < path@.len() && 0 <= j < path@.len() && i != j implies path@[i]
                != path@[j] by {
                reveal(nodes_distinct);
                if i < j {
                    assert(places[i] > places[j]);
                    assert(order@[places[j]].node != order@[places[i]].node);
                } else {
                    assert(places[j] > places[i]);
                    assert(order@[places[i]].node != order@[places[j]].node);
                }
            }
        }
        assert(path@.len() >= 2) by {
            assert(places[0] == at);
        }
        if order@[0].flow@ == flow {
            // nothing on the way is smaller than the largest number
            let i = path@.len() - 2;
            U256::lemma_limbs(order@[at as int].flow);
            assert(adjacencies.capacity(path@[i + 1], path@[i]) >= flow);
            adjacencies.lemma_capacity(path@[i + 1], path@[i]);
        }
    }
    path
}

/// Whether `walk` is a way through the flow network from `source` to `sink` on
/// which every step has capacity left, with no more steps than the limit.
pub open spec fn connects(
    adjacencies: &Adjacencies,
    walk: Seq<Node>,
    source: Address,
    sink: Address,
    max_distance: Option<u64>,
) -> bool {
    &&& walk.len() >= 1
    &&& walk[0] == Node::Node(source)
    &&& walk[walk.len() - 1] == Node::Node(sink)
    &&& forall|i: int|
        0 <= i < walk.len() - 1 ==> adjacencies.capacity(#[trigger] walk[i], walk[i + 1]) > 0
    &&& max_distance is Some ==> walk.len() - 1 <= 3 * max_distance->0
}

/// Whether the vertex has been reached, at no more than the given depth.
pub open spec fn placed_within(order: Seq<Visit>, n: Node, bound: int) -> bool {
    exists|k: int| 0 <= k < order.len() && (#[trigger] order[k]).node == n && order[k].depth <= bound
}

/// Whether every vertex that the vertex at place `i` has a step with capacity to has
/// been reached, one step deeper at most, unless the vertex at place `i` is at the
/// limit of depth.
pub open spec fn expanded(
    adjacencies: &Adjacencies,
    order: Seq<Visit>,
    limit: Option<u64>,
    i: int,
) -> bool {
    (limit is Some ==> order[i].depth < limit->0) ==> forall|n: Node| #[trigger]
        adjacencies.capacity(order[i].node, n) > 0 ==> placed_within(order, n, order[i].depth + 1)
}

/// Whether the vertices were reached in the order of their depth, none more than one
/// step deeper than the vertex at place `head`.
#[verifier::opaque]
pub open spec fn in_layers(order: Seq<Visit>, head: int) -> bool {
    &&& forall|i: int, j: int|
        0 <= i <= j < order.len() ==> (#[trigger] order[i]).depth <= (#[trigger] order[j]).depth
    &&& 0 <= head < order.len() ==> forall|i: int|
        0 <= i < order.len() ==> (#[trigger] order[i]).depth <= order[head].depth + 1
}

/// Whether the vertex has not been reached.
#[verifier::opaque]
pub open spec fn misses(order: Seq<Visit>, n: Node) -> bool {
    forall|k: int| 0 <= k < order.len() ==> (#[trigger] order[k]).node != n
}

/// A vertex that was reached within a depth stays so when more are reached.
proof fn lemma_placed_grows(before: Seq<Visit>, now: Seq<Visit>, n: Node, bound: int)
    requires
        before.len() <= now.len(),
        forall|k: int| 0 <= k < before.len() ==> before[k] == now[k],
        placed_within(before, n, bound),
    ensures
        placed_within(now, n, bound),
{
    let k = choose|k: int|
        0 <= k < before.len() && (#[trigger] before[k]).node == n && before[k].depth <= bound;
    assert(now[k].node == n);
}

/// A vertex whose neighbours have been reached stays so when more are reached.
proof fn lemma_expanded_grows(
    adjacencies: &Adjacencies,
    before: Seq<Visit>,
    now: Seq<Visit>,
    limit: Option<u64>,
    i: int,
)
    requires
        0 <= i < before.len() <= now.len(),
        forall|k: int| 0 <= k < before.len() ==> before[k] == now[k],
        expanded(adjacencies, before, limit, i),
    ensures
        expanded(adjacencies, now, limit, i),
{
    if limit is Some ==> now[i].depth < limit->0 {
        assert forall|n: Node| #[trigger] adjacencies.capacity(now[i].node, n) > 0 implies placed_within(
            now,
            n,
            now[i].depth + 1,
        ) by {
            assert(adjacencies.capacity(before[i].node, n) > 0);
            lemma_placed_grows(before, now, n, before[i].depth + 1);
        }
    }
}

/// Where the search has gone through every vertex that it reached, it has reached
/// every vertex that a way from the source within the limit leads to, at no more
/// than the depth of the way.
proof fn lemma_walk_is_reached(
    adjacencies: &Adjacencies,
    order: Seq<Visit>,
    source: Address,
    limit: Option<u64>,
    walk: Seq<Node>,
    t: int,
)
    requires
        is_search_tree(adjacencies, order, source, limit),
        forall|i: int| 0 <= i < order.len() ==> #[trigger] expanded(adjacencies, order, limit, i),
        walk.len() >= 1,
        walk[0] == Node::Node(source),
        forall|i: int|
            0 <= i < walk.len() - 1 ==> adjacencies.capacity(#[trigger] walk[i], walk[i + 1]) > 0,
        limit is Some ==> walk.len() - 1 <= limit->0,
        0 <= t < walk.len(),
    ensures
        placed_within(order, walk[t], t),
    decreases t,
{
    if t == 0 {
        assert(order[0].node == walk[0]);
    } else {
        lemma_walk_is_reached(adjacencies, order, source, limit, walk, t - 1);
        let k = choose|k: int|
            0 <= k < order.len() && (#[trigger] order[k]).node == walk[t - 1] && order[k].depth <= t
                - 1;
        assert(expanded(adjacencies, order, limit, k));
        assert(adjacencies.capacity(walk[t - 1], walk[t - 1 + 1]) > 0);
        assert(adjacencies.capacity(order[k].node, walk[t]) > 0);
        let m = choose|m: int|
            0 <= m < order.len() && (#[trigger] order[m]).node == walk[t] && order[m].depth
                <= order[k].depth + 1;
        assert(order[m].node == walk[t]);
    }
}

/// Searches the flow network breadth first for a path from `source` to `sink` on
/// which every step has capacity left, trying at each vertex the steps of larger
/// capacity first. Returns the smallest capacity on the path and the path, written
/// from the sink back to the source. With `max_distance` set, a path has at most
/// three times that many steps.
///
/// Returns zero and no path where source and sink are the same, and where no way
/// within the limit leads from the source to the sink over steps with capacity
/// left.
pub fn augmenting_path(
    source: &Address,
    sink: &Address,
    adjacencies: &mut Adjacencies,
    max_distance: Option<u64>,
) -> (r: (U256, Vec<Node>))
    requires
        old(adjacencies).wf(),
    ensures
        final(adjacencies).wf(),
        final(adjacencies).same_state(old(adjacencies)),
        *source == *sink ==> r.0@ == 0,
        r.0@ == 0 ==> r.1@.len() == 0,
        r.0@ > 0 ==> is_augmenting_path(old(adjacencies), r.1@, *source, *sink, r.0@),
        r.0@ > 0 && max_distance is Some ==> r.1@.len() - 1 <= 3 * max_distance->0,
        r.0@ == 0 && *source != *sink ==> forall|walk: Seq<Node>|
            !#[trigger] connects(old(adjacencies), walk, *source, *sink, max_distance),
{
    if *source == *sink {
        return (U256::zero(), Vec::new());
    }
    let limit: Option<u64> = match max_distance {
        Some(hops) => hops.checked_mul(3),
        None => None,
    };
    let mut order: Vec<Visit> = Vec::new();
    order.push(Visit { node: Node::Node(*source), parent: 0, depth: 0, flow: U256::max_value() });
    proof {
        reveal(nodes_distinct);
        reveal(in_layers);
        reveal(misses);
    }
    let mut queue: VecDeque<usize> = VecDeque::new();
    queue.push_back(0);
    let ghost mut done: int = 0;
    while queue.len() > 0
        invariant
            adjacencies.wf(),
            adjacencies.same_state(old(adjacencies)),
            *source != *sink,
            0 <= done <= order@.len(),
            queue@ =~= Seq::new((order@.len() - done) as nat, |k: int| (done + k) as usize),
            is_search_tree(old(adjacencies), order@, *source, limit),
            in_layers(order@, done),
            misses(order@, Node::Node(*sink)),
            forall|i: int|
                0 <= i < done ==> #[trigger] expanded(old(adjacencies), order@, limit, i),
            max_distance is Some && limit is Some ==> limit->0 == 3 * max_distance->0,
            max_distance is Some && limit is None ==> 3 * max_distance->0 > u64::MAX,
            max_distance is None ==> limit is None,
        decreases usize::MAX - done,
    {
        let ghost waiting = queue@;
        let head: usize = match queue.pop_front() {
            Some(place) => place,
            None => 0,
        };
        proof {
            let listed = Seq::new((order@.len() - done) as nat, |k: int| (done + k) as usize);
            assert(order@.len() == order.len());
            assert(waiting.len() == listed.len());
            assert(waiting[0] == listed[0]);
            assert(head == done);
        }
        let cur = order[head];
        let within = match limit {
            Some(l) => cur.depth < l,
            None => true,
        };
        if within {
            let ghost mid = *adjacencies;
            let targets = adjacencies.outgoing_edges_sorted_by_capacity(&cur.node);
            proof {
                mid.lemma_same_state(old(adjacencies));
            }
            let mut j: usize = 0;
            while j < targets.len()
                invariant
                    adjacencies.wf(),
                    adjacencies.same_state(old(adjacencies)),
                    *source != *sink,
                    head < order@.len(),
                    head == done,
                    queue@ =~= Seq::new(
                        (order@.len() - head - 1) as nat,
                        |k: int| (head + 1 + k) as usize,
                    ),
                    cur == order@[head as int],
                    within,
                    within == match limit {
                        Some(l) => cur.depth < l,
                        None => true,
                    },
                    j <= targets@.len(),
                    max_distance is Some && limit is Some ==> limit->0 == 3 * max_distance->0,
                    max_distance is Some && limit is None ==> 3 * max_distance->0 > u64::MAX,
                    max_distance is None ==> limit is None,
                    forall|i: int|
                        0 <= i < targets@.len() ==> (#[trigger] targets@[i]).1@ == old(adjacencies).capacity(
                            cur.node,
                            targets@[i].0,
                        ) && targets@[i].1@ > 0,
                    is_search_tree(old(adjacencies), order@, *source, limit),
                    in_layers(order@, head as int),
                    misses(order@, Node::Node(*sink)),
                    forall|i: int|
                        0 <= i < head ==> #[trigger] expanded(old(adjacencies), order@, limit, i),
                    forall|m: int|
                        0 <= m < j ==> placed_within(
                            order@,
                            (#[trigger] targets@[m]).0,
                            cur.depth + 1,
                        ),
                decreases targets@.len() - j,
            {
                let (target, capacity) = targets[j];
                let ghost before = order@;
                match reached(&order, &target) {
                    Some(k) => {
                        proof {
                            reveal(in_layers);
                            assert(order@[k as int].depth <= order@[head as int].depth + 1);
                        }
                    },
                    None => {
                        let new_flow = cur.flow.min(capacity);
                        let at = order.len();
                        proof {
                            lemma_tree_depth(old(adjacencies), order@, *source, limit, head as int);
                        }
                        order.push(
                            Visit { node: target, parent: head, depth: cur.depth + 1, flow: new_flow },
                        );
                        proof {
                            assert(nodes_distinct(order@)) by {
                                reveal(nodes_distinct);
                            }
                            assert forall|i: int| 1 <= i < order@.len() implies #[trigger] reached_from_parent(
                                old(adjacencies),
                                order@,
                                limit,
                                i,
                            ) by {
                                if i < before.len() {
                                    assert(reached_from_parent(old(adjacencies), before, limit, i));
                                    assert(order@[i] == before[i]);
                                    assert(order@[before[i].parent as int] == before[before[i].parent as int]);
                                }
                            }
                        }
                        if target == Node::Node(*sink) {
                            let path = trace(
                                &order,
                                at,
                                Ghost(old(adjacencies)),
                                Ghost(*source),
                                Ghost(limit),
                            );
                            proof {
                                lemma_tree_depth(old(adjacencies), order@, *source, limit, at as int);
                                assert(reached_from_parent(old(adjacencies), order@, limit, at as int));
                            }
                            return (new_flow, path);
                        }
                        queue.push_back(at);
                        proof {
                            assert(in_layers(order@, head as int)) by {
                                reveal(in_layers);
                                assert forall|i: int, l: int| 0 <= i <= l < order@.len() implies (
                                #[trigger] order@[i]).depth <= (#[trigger] order@[l]).depth by {
                                    if l < before.len() {
                                        assert(before[i].depth <= before[l].depth);
                                    } else if i < before.len() {
                                        assert(before[i].depth <= before[head as int].depth + 1);
                                    }
                                }
                                assert forall|i: int| 0 <= i < order@.len() implies (
                                #[trigger] order@[i]).depth <= order@[head as int].depth + 1 by {
                                    if i < before.len() {
                                        assert(before[i].depth <= before[head as int].depth + 1);
                                    }
                                }
                            }
                            assert(misses(order@, Node::Node(*sink))) by {
                                reveal(misses);
                            }
                            assert forall|i: int| 0 <= i < head implies #[trigger] expanded(
                                old(adjacencies),
                                order@,
                                limit,
                                i,
                            ) by {
                                lemma_expanded_grows(old(adjacencies), before, order@, limit, i);
                            }
                            assert forall|m: int| 0 <= m < j implies placed_within(
                                order@,
                                (#[trigger] targets@[m]).0,
                                cur.depth + 1,
                            ) by {
                                lemma_placed_grows(before, order@, targets@[m].0, cur.depth + 1);
                            }
                            assert(order@[at as int].node == target);
                        }
                    },
                }
                j += 1;
            }
            proof {
                assert forall|n: Node| #[trigger]
                    old(adjacencies).capacity(order@[head as int].node, n) > 0 implies placed_within(
                    order@,
                    n,
                    order@[head as int].depth + 1,
                ) by {
                    assert(crate::graph::adjacencies::lists(targets@, n));
                    let m = choose|m: int| 0 <= m < targets@.len() && (#[trigger] targets@[m]).0 == n;
                    assert(placed_within(order@, targets@[m].0, cur.depth + 1));
                }
            }
        }
        proof {
            assert(expanded(old(adjacencies), order@, limit, head as int));
            assert(in_layers(order@, head + 1)) by {
                reveal(in_layers);
                if head + 1 < order@.len() {
                    assert(order@[head as int].depth <= order@[head + 1].depth);
                    assert forall|i: int| 0 <= i < order@.len() implies (#[trigger] order@[i]).depth
                        <= order@[head + 1].depth + 1 by {
                        assert(order@[i].depth <= order@[head as int].depth + 1);
                    }
                }
            }
        }
        proof {
            done = done + 1;
        }
    }
    proof {
        assert forall|walk: Seq<Node>| !#[trigger] connects(
            old(adjacencies),
            walk,
            *source,
            *sink,
            max_distance,
        ) by {
            if connects(old(adjacencies), walk, *source, *sink, max_distance) {
                lemma_walk_is_reached(
                    old(adjacencies),
                    order@,
                    *source,
                    limit,
                    walk,
                    walk.len() - 1,
                );
                reveal(misses);
            }
        }
    }
    (U256::zero(), Vec::new())
}

} // verus!
