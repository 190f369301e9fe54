use vstd::prelude::*;
use crate::graph::adjacencies::{base_capacity, lemma_base_capacity, Adjacencies};
use crate::graph::augmenting_path::{augmenting_path, connects, is_augmenting_path};
use crate::graph::conservation::{
    lemma_first_transfer, lemma_flow_within_sent_capacity, lemma_nothing_leaves_source,
    sent_capacity,
};
use crate::graph::extract_transfers::{
    contribution, expected_transfer_net, extract_transfers, extraction, stands_for,
    starting_balances, transfer_net, transfer_of,
};
use crate::graph::flow_map::{
    all_positive, capacity_of, has_entry, keys_unique, lemma_place, net_out, place_of, total,
    FlowEntry, FlowMap,
};
use crate::graph::prune::{
    entry_smaller, flow_eased, least, lemma_entry_order, lemma_flow_eased_twice,
    lemma_reduced_transitive, lies_on_no_way, prune_edge, prune_flow, pruned, pruned_flow, reduced,
    smallest_entry, ways_through,
};
use crate::graph::Node;
use crate::types::address::Address;
use crate::types::edge::{Edge, EdgeDB};
use crate::types::u256::{modulus, U256};

verus! {

/// Why no flow could be computed.
#[derive(Debug, Clone, Copy, PartialEq, Eq, Structural)]
pub enum FlowError {
    /// The flow from the source to the sink does not fit in 256 bits.
    Overflow,
    /// Flow is left at an account that no used edge can carry on.
    NoAdmissibleEdge,
    /// The transfers cannot be put in an order in which every account has received
    /// before it sends.
    Unorderable,
}

/// Whether the adjustments of the flow network and the table of used edges record
/// the same flow on the pair `u`, `v`: on a pair that the capacity network gives
/// capacity to, the use is within that capacity, the adjustment of the pair takes
/// it away and the adjustment of the reverse pair gives it back; on any other pair
/// nothing is used.
pub open spec fn pair_consistent(
    adjacencies: &Adjacencies,
    used: Seq<FlowEntry>,
    u: Node,
    v: Node,
) -> bool {
    let given = base_capacity(adjacencies.edges(), u, v);
    let x = capacity_of(used, u, v);
    &&& given > 0 ==> x <= given && adjacencies.adjustment(u, v) == (modulus() - x) % (
    modulus() as int) && adjacencies.adjustment(v, u) == x
    &&& given == 0 ==> x == 0
    &&& given == 0 && base_capacity(adjacencies.edges(), v, u) == 0 ==> adjacencies.adjustment(u, v)
        == 0
}

/// Whether the adjustments and the table of used edges record the same flow on
/// every pair.
pub open spec fn flow_consistent(adjacencies: &Adjacencies, used: Seq<FlowEntry>) -> bool {
    forall|u: Node, v: Node| #[trigger] pair_consistent(adjacencies, used, u, v)
}

/// What is left of the capacity of a pair: what the capacity network gives less
/// what is used, or, against the direction of the capacity network, what is used
/// the other way.
pub open spec fn residual(db: Seq<Edge>, used: Seq<FlowEntry>, u: Node, v: Node) -> nat {
    if base_capacity(db, u, v) > 0 {
        (base_capacity(db, u, v) - capacity_of(used, u, v)) as nat
    } else {
        capacity_of(used, v, u)
    }
}

/// Where adjustments and used edges agree, the capacity of a pair as it stands is
/// what is left of it.
pub proof fn lemma_residual(adjacencies: &Adjacencies, used: Seq<FlowEntry>, u: Node, v: Node)
    requires
        flow_consistent(adjacencies, used),
    ensures
        adjacencies.capacity(u, v) == residual(adjacencies.edges(), used, u, v),
{
    let db = adjacencies.edges();
    let m = modulus() as int;
    assert(pair_consistent(adjacencies, used, u, v));
    assert(pair_consistent(adjacencies, used, v, u));
    lemma_base_capacity(db, u, v);
    lemma_base_capacity(db, v, u);
    adjacencies.lemma_capacity(u, v);
    let given = base_capacity(db, u, v) as int;
    let x = capacity_of(used, u, v) as int;
    if given > 0 {
        if x == 0 {
            vstd::arithmetic::div_mod::lemma_fundamental_div_mod_converse(m, m, 1, 0);
            vstd::arithmetic::div_mod::lemma_fundamental_div_mod_converse(given, m, 0, given);
        } else {
            vstd::arithmetic::div_mod::lemma_fundamental_div_mod_converse(m - x, m, 0, m - x);
            vstd::arithmetic::div_mod::lemma_fundamental_div_mod_converse(
                given + m - x,
                m,
                1,
                given - x,
            );
        }
    } else {
        let y = capacity_of(used, v, u) as int;
        vstd::arithmetic::div_mod::lemma_fundamental_div_mod_converse(y, m, 0, y);
    }
}

/// Pushes `flow` over the step from `prev` to `node`: takes it from the capacity of
/// the step, gives it to the reverse step, and records it among the used edges, as
/// use of the step or, where the step runs against the capacity network, as less
/// use of the reverse step.
fn push_flow(
    adjacencies: &mut Adjacencies,
    used_edges: &mut FlowMap,
    prev: &Node,
    node: &Node,
    flow: U256,
)
    requires
        old(adjacencies).wf(),
        old(used_edges).wf(),
        flow_consistent(old(adjacencies), old(used_edges)@),
        old(adjacencies).capacity(*prev, *node) >= flow@,
        flow@ > 0,
        *prev != *node,
    ensures
        final(adjacencies).wf(),
        final(used_edges).wf(),
        final(adjacencies).edges() == old(adjacencies).edges(),
        flow_consistent(final(adjacencies), final(used_edges)@),
        forall|u: Node, v: Node|
            !(u == *prev && v == *node) && !(u == *node && v == *prev)
                ==> #[trigger] final(adjacencies).capacity(u, v) == old(adjacencies).capacity(u, v),
        forall|n: Node| #[trigger]
            net_out(final(used_edges)@, n) == net_out(old(used_edges)@, n) + (if n == *prev {
                flow@ as int
            } else {
                0
            }) - (if n == *node {
                flow@ as int
            } else {
                0
            }),
{
    let ghost adj0 = *adjacencies;
    let ghost used0 = used_edges@;
    let ghost db = adjacencies.edges();
    let ghost m = modulus() as int;
    let ghost f = flow@ as int;
    proof {
        lemma_residual(&adj0, used0, *prev, *node);
        lemma_base_capacity(db, *prev, *node);
        lemma_base_capacity(db, *node, *prev);
        assert(pair_consistent(&adj0, used0, *prev, *node));
        assert(pair_consistent(&adj0, used0, *node, *prev));
        U256::lemma_limbs(flow);
        vstd::arithmetic::div_mod::lemma_fundamental_div_mod_converse(m - f, m, 0, m - f);
    }
    adjacencies.adjust_capacity(prev, node, flow.wrapping_neg());
    adjacencies.adjust_capacity(node, prev, flow);
    let ghost adj1 = *adjacencies;
    let backward = adjacencies.is_adjacent(node, prev);
    if backward {
        let current = used_edges.get(node, prev);
        let ghost y = current@ as int;
        let rest = match current.checked_sub(flow) {
            Some(rest) => rest,
            None => current,
        };
        used_edges.set(node, prev, rest);
        proof {
            // the adjustments of the two steps
            vstd::arithmetic::div_mod::lemma_fundamental_div_mod_converse(
                y + m - f,
                m,
                1,
                y - f,
            );
            if y == f {
                vstd::arithmetic::div_mod::lemma_fundamental_div_mod_converse(m - y + f, m, 1, 0);
                vstd::arithmetic::div_mod::lemma_fundamental_div_mod_converse(m, m, 1, 0);
            } else {
                vstd::arithmetic::div_mod::lemma_fundamental_div_mod_converse(m - y, m, 0, m - y);
                vstd::arithmetic::div_mod::lemma_fundamental_div_mod_converse(
                    m - y + f,
                    m,
                    0,
                    m - (y - f),
                );
                vstd::arithmetic::div_mod::lemma_fundamental_div_mod_converse(
                    m - (y - f),
                    m,
                    0,
                    m - (y - f),
                );
            }
        }
    } else {
        let current = used_edges.get(prev, node);
        let ghost x = current@ as int;
        let more = match current.checked_add(flow) {
            Some(more) => more,
            None => current,
        };
        used_edges.set(prev, node, more);
        proof {
            if x == 0 {
                vstd::arithmetic::div_mod::lemma_fundamental_div_mod_converse(m, m, 1, 0);
                vstd::arithmetic::div_mod::lemma_fundamental_div_mod_converse(m - f, m, 0, m - f);
            } else {
                vstd::arithmetic::div_mod::lemma_fundamental_div_mod_converse(m - x, m, 0, m - x);
                vstd::arithmetic::div_mod::lemma_fundamental_div_mod_converse(
                    m - x + m - f,
                    m,
                    1,
                    m - (x + f),
                );
            }
            vstd::arithmetic::div_mod::lemma_fundamental_div_mod_converse(
                m - (x + f),
                m,
                0,
                m - (x + f),
            );
            vstd::arithmetic::div_mod::lemma_fundamental_div_mod_converse(x + f, m, 0, x + f);
        }
    }
    proof {
        assert forall|u: Node, v: Node| #[trigger]
            pair_consistent(adjacencies, used_edges@, u, v) by {
            assert(pair_consistent(&adj0, used0, u, v));
        }
        assert forall|u: Node, v: Node|
            !(u == *prev && v == *node) && !(u == *node && v == *prev)
            implies #[trigger] adjacencies.capacity(u, v) == adj0.capacity(u, v) by {
            adjacencies.lemma_capacity(u, v);
            adj0.lemma_capacity(u, v);
        }
    }
}

/// What has to leave a vertex less what arrives at it when `flow` runs from the
/// source to the sink: `flow` at the source, its negative at the sink, nothing
/// elsewhere.
pub open spec fn expected_net(n: Node, source: Address, sink: Address, flow: nat) -> int {
    (if n == Node::Node(source) {
        flow as int
    } else {
        0
    }) - (if n == Node::Node(sink) {
        flow as int
    } else {
        0
    })
}

/// Whether the used edges are a flow of the given size from the source to the sink
/// within the capacities that the capacity network gives.
pub open spec fn is_flow(
    db: Seq<Edge>,
    used: Seq<FlowEntry>,
    source: Address,
    sink: Address,
    flow: nat,
) -> bool {
    &&& keys_unique(used)
    &&& forall|u: Node, v: Node| #[trigger] capacity_of(used, u, v) <= base_capacity(db, u, v)
    &&& forall|n: Node| #[trigger] net_out(used, n) == expected_net(n, source, sink, flow)
}

/// Adjustments and used edges that agree on one flow network agree on any other in
/// the same state.
pub proof fn lemma_consistent_same_state(
    a: &Adjacencies,
    b: &Adjacencies,
    used: Seq<FlowEntry>,
)
    requires
        flow_consistent(a, used),
        b.same_state(a),
    ensures
        flow_consistent(b, used),
{
    assert forall|u: Node, v: Node| #[trigger] pair_consistent(b, used, u, v) by {
        assert(pair_consistent(a, used, u, v));
    }
}

/// Pushes flow along one augmenting path after another until the search finds none,
/// and returns the flow that runs from the source to the sink. The used edges then
/// hold that flow, and no entry that records nothing.
fn compute_max_flow(
    source: &Address,
    sink: &Address,
    adjacencies: &mut Adjacencies,
    used_edges: &mut FlowMap,
    max_distance: Option<u64>,
) -> (r: Result<U256, FlowError>)
    requires
        old(adjacencies).wf(),
        old(used_edges)@.len() == 0,
        forall|u: Node, v: Node| #[trigger] old(adjacencies).adjustment(u, v) == 0,
    ensures
        final(adjacencies).wf(),
        final(adjacencies).edges() == old(adjacencies).edges(),
        final(used_edges).wf(),
        r is Err ==> r == Err::<U256, FlowError>(FlowError::Overflow) && *source != *sink,
        r is Err ==> sent_capacity(old(adjacencies).edges(), *source) >= modulus(),
        r is Ok ==> flow_consistent(final(adjacencies), final(used_edges)@),
        r is Ok ==> all_positive(final(used_edges)@),
        r is Ok ==> is_flow(old(adjacencies).edges(), final(used_edges)@, *source, *sink, r->Ok_0@),
        r is Ok && *source == *sink ==> r->Ok_0@ == 0,
        r is Ok && *source != *sink ==> forall|walk: Seq<Node>|
            !#[trigger] connects(final(adjacencies), walk, *source, *sink, max_distance),
        is_saturated(old(adjacencies).edges(), Seq::empty(), *source, *sink, max_distance)
            ==> r is Ok && r->Ok_0@ == 0 && final(used_edges)@.len() == 0,
{
    let ghost db = adjacencies.edges();
    let mut flow = U256::zero();
    let mut done = false;
    proof {
        assert forall|u: Node, v: Node| #[trigger]
            pair_consistent(adjacencies, used_edges@, u, v) by {
            assert(!has_entry(used_edges@, u, v));
            assert(adjacencies.adjustment(u, v) == 0);
            assert(adjacencies.adjustment(v, u) == 0);
            vstd::arithmetic::div_mod::lemma_fundamental_div_mod_converse(
                modulus() as int,
                modulus() as int,
                1,
                0,
            );
        }
    }
    while !done
        invariant
            adjacencies.wf(),
            used_edges.wf(),
            adjacencies.edges() == db,
            db == old(adjacencies).edges(),
            flow_consistent(adjacencies, used_edges@),
            forall|n: Node| #[trigger] net_out(used_edges@, n) == expected_net(n, *source, *sink, flow@),
            *source == *sink ==> flow@ == 0,
            done && *source != *sink ==> forall|walk: Seq<Node>|
                !#[trigger] connects(adjacencies, walk, *source, *sink, max_distance),
            is_saturated(db, Seq::empty(), *source, *sink, max_distance) ==> flow@ == 0
                && used_edges@.len() == 0,
        decreases modulus() - flow@ + (if done { 0int } else { 1 }),
    {
        let ghost before = *adjacencies;
        let (new_flow, path) = augmenting_path(source, sink, adjacencies, max_distance);
        proof {
            lemma_consistent_same_state(&before, adjacencies, used_edges@);
            adjacencies.lemma_same_state(&before);
            U256::lemma_limbs(flow);
            if new_flow@ > 0 && is_saturated(db, Seq::empty(), *source, *sink, max_distance) {
                assert(used_edges@ =~= Seq::<FlowEntry>::empty());
                lemma_path_augments(
                    &before,
                    used_edges@,
                    path@,
                    *source,
                    *sink,
                    new_flow@,
                    max_distance,
                );
            }
        }
        if new_flow.is_zero() {
            done = true;
            proof {
                assert forall|walk: Seq<Node>| *source != *sink implies !#[trigger] connects(
                    adjacencies,
                    walk,
                    *source,
                    *sink,
                    max_distance,
                ) by {
                    if connects(adjacencies, walk, *source, *sink, max_distance) {
                        assert forall|i: int| 0 <= i < walk.len() - 1 implies before.capacity(
                            #[trigger] walk[i],
                            walk[i + 1],
                        ) > 0 by {
                            assert(adjacencies.capacity(walk[i], walk[i + 1]) > 0);
                        }
                        assert(connects(&before, walk, *source, *sink, max_distance));
                    }
                }
            }
        } else {
            let ghost flow0 = flow@;
            let ghost f = new_flow@ as int;
            flow = match flow.checked_add(new_flow) {
                Some(sum) => sum,
                None => {
                    proof {
                        let start = Node::Node(*source);
                        let v = path@[path@.len() - 2];
                        assert(path@[path@.len() - 1] == start);
                        assert(before.capacity(path@[path@.len() - 2 + 1], v) >= new_flow@);
                        lemma_residual(adjacencies, used_edges@, start, v);
                        assert forall|u: Node, w: Node| #[trigger]
                            capacity_of(used_edges@, u, w) <= base_capacity(db, u, w) by {
                            assert(pair_consistent(adjacencies, used_edges@, u, w));
                        }
                        lemma_flow_within_sent_capacity(
                            db,
                            used_edges@,
                            *source,
                            *sink,
                            flow@,
                            v,
                        );
                    }
                    return Err(FlowError::Overflow);
                },
            };
            let mut i: usize = 0;
            while i < path.len() - 1
                invariant
                    adjacencies.wf(),
                    used_edges.wf(),
                    adjacencies.edges() == db,
                    flow_consistent(adjacencies, used_edges@),
                    i < path@.len(),
                    path@.len() >= 2,
                    path@.no_duplicates(),
                    f == new_flow@,
                    f > 0,
                    forall|k: int|
                        i <= k < path@.len() - 1 ==> adjacencies.capacity(
                            #[trigger] path@[k + 1],
                            path@[k],
                        ) >= f,
                    forall|n: Node| #[trigger]
                        net_out(used_edges@, n) == expected_net(n, *source, *sink, flow0) - (if n
                            == path@[0] {
                            f
                        } else {
                            0
                        }) + (if n == path@[i as int] {
                            f
                        } else {
                            0
                        }),
                decreases path@.len() - i,
            {
                let ghost mid = *adjacencies;
                assert(adjacencies.capacity(path@[i + 1], path@[i as int]) >= f);
                push_flow(adjacencies, used_edges, &path[i + 1], &path[i], new_flow);
                proof {
                    assert forall|k: int| i + 1 <= k < path@.len() - 1 implies adjacencies.capacity(
                        #[trigger] path@[k + 1],
                        path@[k],
                    ) >= f by {
                        assert(mid.capacity(path@[k + 1], path@[k]) >= f);
                    }
                }
                i += 1;
            }
        }
    }
    let ghost with_empty = used_edges@;
    used_edges.retain_nonzero();
    proof {
        assert forall|u: Node, v: Node| #[trigger]
            pair_consistent(adjacencies, used_edges@, u, v) by {
            assert(pair_consistent(adjacencies, with_empty, u, v));
            assert(capacity_of(used_edges@, u, v) == capacity_of(with_empty, u, v));
            assert(capacity_of(used_edges@, v, u) == capacity_of(with_empty, v, u));
        }
        assert forall|u: Node, v: Node| #[trigger] capacity_of(used_edges@, u, v) <= base_capacity(
            db,
            u,
            v,
        ) by {
            assert(pair_consistent(adjacencies, used_edges@, u, v));
        }
    }
    Ok(flow)
}

/// Whether no way within the limit leads from the source to the sink over steps of
/// which something is left once the used edges are taken off: the flow that the
/// used edges hold cannot be made larger along any such way.
pub open spec fn is_saturated(
    db: Seq<Edge>,
    used: Seq<FlowEntry>,
    source: Address,
    sink: Address,
    max_distance: Option<u64>,
) -> bool {
    forall|walk: Seq<Node>| !#[trigger] augments(db, used, walk, source, sink, max_distance)
}

/// Whether `walk` is a way from the source to the sink, within the limit, on every
/// step of which something is left once the used edges are taken off.
pub open spec fn augments(
    db: Seq<Edge>,
    used: Seq<FlowEntry>,
    walk: Seq<Node>,
    source: Address,
    sink: Address,
    max_distance: Option<u64>,
) -> bool {
    &&& walk.len() >= 1
    &&& walk[0] == Node::Node(source)
    &&& walk[walk.len() - 1] == Node::Node(sink)
    &&& forall|i: int|
        0 <= i < walk.len() - 1 ==> residual(db, used, #[trigger] walk[i], walk[i + 1]) > 0
    &&& max_distance is Some ==> walk.len() - 1 <= 3 * max_distance->0
}

/// An augmenting path, read from the source to the sink, is a way on every step of
/// which something is left once the used edges are taken off.
proof fn lemma_path_augments(
    adjacencies: &Adjacencies,
    used: Seq<FlowEntry>,
    path: Seq<Node>,
    source: Address,
    sink: Address,
    flow: nat,
    max_distance: Option<u64>,
)
    requires
        flow_consistent(adjacencies, used),
        is_augmenting_path(adjacencies, path, source, sink, flow),
        flow > 0,
        max_distance is Some ==> path.len() - 1 <= 3 * max_distance->0,
    ensures
        augments(adjacencies.edges(), used, path.reverse(), source, sink, max_distance),
{
    let walk = path.reverse();
    assert forall|i: int| 0 <= i < walk.len() - 1 implies residual(
        adjacencies.edges(),
        used,
        #[trigger] walk[i],
        walk[i + 1],
    ) > 0 by {
        let k = path.len() - 2 - i;
        assert(adjacencies.capacity(path[k + 1], path[k]) >= flow);
        lemma_residual(adjacencies, used, path[k + 1], path[k]);
    }
}

/// Where adjustments and used edges agree and the flow network has no way left from
/// the source to the sink, the used edges are saturated.
proof fn lemma_saturated(
    adjacencies: &Adjacencies,
    used: Seq<FlowEntry>,
    source: Address,
    sink: Address,
    max_distance: Option<u64>,
)
    requires
        flow_consistent(adjacencies, used),
        forall|walk: Seq<Node>| !#[trigger] connects(adjacencies, walk, source, sink, max_distance),
    ensures
        is_saturated(adjacencies.edges(), used, source, sink, max_distance),
{
    assert forall|walk: Seq<Node>| !#[trigger] augments(
        adjacencies.edges(),
        used,
        walk,
        source,
        sink,
        max_distance,
    ) by {
        if augments(adjacencies.edges(), used, walk, source, sink, max_distance) {
            assert forall|i: int| 0 <= i < walk.len() - 1 implies adjacencies.capacity(
                #[trigger] walk[i],
                walk[i + 1],
            ) > 0 by {
                lemma_residual(adjacencies, used, walk[i], walk[i + 1]);
            }
            assert(connects(adjacencies, walk, source, sink, max_distance));
        }
    }
}

/// The used edges and the flow after what exceeds the requested flow has been
/// pruned: the requested flow and what could not be taken off.
pub open spec fn cut_to_request(
    used: Seq<FlowEntry>,
    source: Address,
    sink: Address,
    flow: nat,
    requested: nat,
) -> (Seq<FlowEntry>, nat) {
    if flow > requested {
        let (rest, left) = pruned_flow(
            used,
            ways_through(used, source, sink),
            (flow - requested) as nat,
        );
        (rest, requested + left)
    } else {
        (used, flow)
    }
}

/// The used edges and the flow after used edges have been taken out until no more
/// than three times `max_transfers` are left: the flow less what was lost with them.
pub open spec fn cut_to_bound(used: Seq<FlowEntry>, flow: nat, max_transfers: Option<u64>) -> (
    Seq<FlowEntry>,
    nat,
) {
    match max_transfers {
        Some(bound) => {
            let (lost, rest) = reduction(used, least(3 * bound as nat, u64::MAX as nat));
            (
                rest,
                if lost >= flow {
                    0
                } else {
                    (flow - lost) as nat
                },
            )
        },
        None => (used, flow),
    }
}

/// What a flow over used edges is realised as, where `requested` is asked for and
/// `max_transfers` bounds the transfers: the flow that is left after the excess has
/// been pruned and used edges have been taken out, and the transfers that realise
/// it.
pub open spec fn realised(
    used: Seq<FlowEntry>,
    source: Address,
    sink: Address,
    flow: nat,
    requested: nat,
    max_transfers: Option<u64>,
) -> Result<(nat, Seq<Edge>), FlowError> {
    let (pruned, kept) = cut_to_request(used, source, sink, flow, requested);
    let (left, last) = cut_to_bound(pruned, kept, max_transfers);
    match sorted_transfers(left, source, sink, U256::from_nat(last)) {
        Ok(transfers) => Ok((last, transfers)),
        Err(e) => Err(e),
    }
}

/// Takes off the flow what exceeds the requested flow, and returns the flow that is
/// left: the requested flow and what could not be taken off.
fn prune_excess_flow(
    source: &Address,
    sink: &Address,
    flow: U256,
    requested_flow: U256,
    used_edges: &mut FlowMap,
) -> (r: U256)
    requires
        old(used_edges).wf(),
        all_positive(old(used_edges)@),
    ensures
        final(used_edges).wf(),
        all_positive(final(used_edges)@),
        reduced(old(used_edges)@, final(used_edges)@),
        final(used_edges)@.len() <= old(used_edges)@.len(),
        flow@ <= requested_flow@ ==> r@ == flow@ && final(used_edges)@ == old(used_edges)@,
        flow@ > requested_flow@ ==> requested_flow@ <= r@ <= flow@,
        flow@ > requested_flow@ ==> total(final(used_edges)@) + (flow@ - r@) <= total(
            old(used_edges)@,
        ),
        r@ > requested_flow@ ==> exists|
            from_source: Seq<(Node, u64)>,
            to_sink: Seq<(Node, u64)>,
            reversed: Seq<FlowEntry>,
        |
            lies_on_no_way(
                old(used_edges)@,
                final(used_edges)@,
                *source,
                *sink,
                from_source,
                to_sink,
                reversed,
            ),
        (final(used_edges)@, r@) == cut_to_request(
            old(used_edges)@,
            *source,
            *sink,
            flow@,
            requested_flow@,
        ),
{
    if flow > requested_flow {
        let excess = match flow.checked_sub(requested_flow) {
            Some(excess) => excess,
            None => flow,
        };
        let still_to_prune = prune_flow(source, sink, excess, used_edges);
        proof {
            flow.lemma_limbs();
        }
        return match requested_flow.checked_add(still_to_prune) {
            Some(left) => left,
            None => flow,
        };
    }
    proof {
        assert forall|u: Node, v: Node| #[trigger]
            capacity_of(used_edges@, u, v) <= capacity_of(old(used_edges)@, u, v) by {}
    }
    flow
}

/// Whether the entry at place `i` is the first of all, by capacity, then first
/// vertex, then second vertex.
pub open spec fn is_first_entry(used: Seq<FlowEntry>, i: int) -> bool {
    &&& 0 <= i < used.len()
    &&& forall|j: int| 0 <= j < used.len() && j != i ==> entry_smaller(used[i], #[trigger] used[j])
}

/// No two entries are the first of all.
pub proof fn lemma_first_entry_unique(used: Seq<FlowEntry>, i: int, j: int)
    requires
        is_first_entry(used, i),
        is_first_entry(used, j),
    ensures
        i == j,
{
    if i != j {
        assert(entry_smaller(used[i], used[j]));
        assert(entry_smaller(used[j], used[i]));
        lemma_entry_order(used[i], used[j], used[i]);
    }
}

/// What is lost, and the used edges that are left, when used edges are taken out
/// until no more than `budget` are left: nothing is lost where there are no more
/// than that. Else the first entry of all is lost, with what is taken off the edges
/// behind it and before it, and then what is lost of the rest in the same way.
///
/// Taking an entry out leaves fewer entries. The definition asks for that where it
/// goes on, which is what shows that it comes to an end.
pub open spec fn reduction(used: Seq<FlowEntry>, budget: nat) -> (nat, Seq<FlowEntry>)
    decreases used.len(),
{
    if used.len() > budget && exists|i: int| is_first_entry(used, i) {
        let i = choose|i: int| is_first_entry(used, i);
        let rest = pruned(used, used[i].from, used[i].to, used[i].capacity@);
        if rest.len() < used.len() {
            let (lost, left) = reduction(rest, budget);
            (used[i].capacity@ + lost, left)
        } else {
            (0, used)
        }
    } else {
        (0, used)
    }
}

/// Takes used edges out, the smallest first, until no more than `max_transfers` are
/// left, and returns the sum of the capacities of the edges it chose to take out,
/// capped at the largest number. With each edge it takes out, it takes as much off
/// the edges behind it and before it. At every vertex, what leaves it less what
/// arrives at it comes no further from zero and changes by no more than that sum.
pub fn reduce_transfers(max_transfers: u64, used_edges: &mut FlowMap) -> (r: U256)
    requires
        old(used_edges).wf(),
        all_positive(old(used_edges)@),
    ensures
        final(used_edges).wf(),
        all_positive(final(used_edges)@),
        reduced(old(used_edges)@, final(used_edges)@),
        final(used_edges)@.len() <= max_transfers,
        final(used_edges)@.len() <= old(used_edges)@.len(),
        old(used_edges)@.len() <= max_transfers ==> r@ == 0 && final(used_edges)@ == old(used_edges)@,
        r@ + total(final(used_edges)@) <= total(old(used_edges)@),
        final(used_edges)@ == reduction(old(used_edges)@, max_transfers as nat).1,
        r@ == least(reduction(old(used_edges)@, max_transfers as nat).0, (modulus() - 1) as nat),
        flow_eased(
            old(used_edges)@,
            final(used_edges)@,
            reduction(old(used_edges)@, max_transfers as nat).0 as int,
        ),
{
    let mut reduced_flow = U256::zero();
    let ghost mut lost: nat = 0;
    proof {
        assert(flow_eased(used_edges@, used_edges@, 0));
        assert forall|u: Node, v: Node| #[trigger]
            capacity_of(used_edges@, u, v) <= capacity_of(old(used_edges)@, u, v) by {}
    }
    while used_edges.len() as u64 > max_transfers
        invariant
            used_edges.wf(),
            all_positive(used_edges@),
            reduced(old(used_edges)@, used_edges@),
            used_edges@.len() <= old(used_edges)@.len(),
            old(used_edges)@.len() <= max_transfers ==> reduced_flow@ == 0,
            old(used_edges)@.len() <= max_transfers ==> used_edges@ == old(used_edges)@,
            reduced_flow@ + total(used_edges@) <= total(old(used_edges)@),
            reduced_flow@ == least(lost, (modulus() - 1) as nat),
            flow_eased(old(used_edges)@, used_edges@, lost as int),
            reduction(old(used_edges)@, max_transfers as nat).1 == reduction(
                used_edges@,
                max_transfers as nat,
            ).1,
            reduction(old(used_edges)@, max_transfers as nat).0 == lost + reduction(
                used_edges@,
                max_transfers as nat,
            ).0,
        decreases used_edges@.len(),
    {
        match smallest_entry(used_edges) {
            None => {},
            Some(i) => {
                let e = used_edges.entry_at(i);
                let ghost before = used_edges@;
                proof {
                    lemma_place(before, i as int);
                    assert(is_first_entry(before, i as int));
                    let chosen = choose|k: int| is_first_entry(before, k);
                    lemma_first_entry_unique(before, i as int, chosen);
                    e.capacity.lemma_limbs();
                    reduced_flow.lemma_limbs();
                }
                reduced_flow = reduced_flow.saturating_add(e.capacity);
                prune_edge(used_edges, (&e.from, &e.to), e.capacity);
                proof {
                    lemma_flow_eased_twice(
                        old(used_edges)@,
                        before,
                        used_edges@,
                        lost as int,
                        e.capacity@ as int,
                    );
                    lost = lost + e.capacity@;
                    lemma_reduced_transitive(old(used_edges)@, before, used_edges@);
                    U256::lemma_limbs(reduced_flow);
                }
            },
        }
    }
    reduced_flow
}

/// Where a bound on the number of transfers is set, takes used edges out until no
/// more than three times that many are left, and returns the flow less what was
/// lost with them.
fn reduce_transfers_if_needed(
    max_transfers: Option<u64>,
    flow: U256,
    used_edges: &mut FlowMap,
) -> (r: U256)
    requires
        old(used_edges).wf(),
        all_positive(old(used_edges)@),
    ensures
        final(used_edges).wf(),
        all_positive(final(used_edges)@),
        reduced(old(used_edges)@, final(used_edges)@),
        final(used_edges)@.len() <= old(used_edges)@.len(),
        r@ <= flow@,
        max_transfers is None ==> r@ == flow@ && final(used_edges)@ == old(used_edges)@,
        max_transfers is Some ==> final(used_edges)@.len() <= 3 * max_transfers->0,
        max_transfers is Some && old(used_edges)@.len() <= 3 * max_transfers->0 ==> r@ == flow@
            && final(used_edges)@ == old(used_edges)@,
        (final(used_edges)@, r@) == cut_to_bound(old(used_edges)@, flow@, max_transfers),
{
    proof {
        flow.lemma_limbs();
    }
    match max_transfers {
        Some(max_transfers) => {
            let budget = match max_transfers.checked_mul(3) {
                Some(budget) => budget,
                None => u64::MAX,
            };
            if used_edges.len() == 0 {
                return flow;
            }
            let lost = reduce_transfers(budget, used_edges);
            flow.saturating_sub(lost)
        },
        None => {
            proof {
                assert forall|u: Node, v: Node| #[trigger]
                    capacity_of(used_edges@, u, v) <= capacity_of(old(used_edges)@, u, v) by {}
            }
            flow
        },
    }
}

/// Whether the transfer at place `i` hands on to the transfer at place `j` just
/// what it brings: the same amount of the same token, to the sender of the other.
pub open spec fn simplifiable(transfers: Seq<Edge>, i: int, j: int) -> bool {
    &&& 0 <= i < transfers.len()
    &&& 0 <= j < transfers.len()
    &&& i != j
    &&& transfers[i].to == transfers[j].from
    &&& transfers[i].token == transfers[j].token
    &&& transfers[i].capacity == transfers[j].capacity
}

/// Whether no transfer hands on to another just what it brings.
pub open spec fn is_simplified(transfers: Seq<Edge>) -> bool {
    forall|i: int, j: int| !#[trigger] simplifiable(transfers, i, j)
}

/// The first pair of transfers of which one hands on to the other just what it
/// brings: the first in the order of the first place, then of the second.
pub fn find_pair_to_simplify(transfers: &Vec<Edge>) -> (r: Option<(usize, usize)>)
    ensures
        r is None <==> is_simplified(transfers@),
        r is Some ==> simplifiable(transfers@, (r->0).0 as int, (r->0).1 as int) && forall|
            i: int,
            j: int,
        |
            (i < (r->0).0 || (i == (r->0).0 && j < (r->0).1)) ==> !#[trigger] simplifiable(
                transfers@,
                i,
                j,
            ),
{
    let n = transfers.len();
    let mut i: usize = 0;
    while i < n
        invariant
            n == transfers@.len(),
            i <= n,
            forall|a: int, b: int| a < i ==> !#[trigger] simplifiable(transfers@, a, b),
        decreases n - i,
    {
        let mut j: usize = 0;
        while j < n
            invariant
                n == transfers@.len(),
                i < n,
                j <= n,
                forall|a: int, b: int| a < i ==> !#[trigger] simplifiable(transfers@, a, b),
                forall|b: int| b < j ==> !#[trigger] simplifiable(transfers@, i as int, b),
            decreases n - j,
        {
            let a = transfers[i];
            let b = transfers[j];
            if i != j && a.to == b.from && a.token == b.token && a.capacity == b.capacity {
                assert(simplifiable(transfers@, i as int, j as int));
                return Some((i, j));
            }
            j += 1;
        }
        i += 1;
    }
    None
}

/// Changing one transfer changes what leaves an account less what arrives at it by
/// the difference of what the two transfers add to it.
pub proof fn lemma_transfer_net_update(s: Seq<Edge>, i: int, e: Edge, a: Address)
    requires
        0 <= i < s.len(),
    ensures
        transfer_net(s.update(i, e), a) == transfer_net(s, a) - contribution(s[i], a)
            + contribution(e, a),
    decreases s.len(),
{
    let t = s.update(i, e);
    if i == s.len() - 1 {
        assert(t.drop_last() =~= s.drop_last());
    } else {
        lemma_transfer_net_update(s.drop_last(), i, e, a);
        assert(t.drop_last() =~= s.drop_last().update(i, e));
    }
}

/// Taking one transfer out takes off what it adds.
pub proof fn lemma_transfer_net_remove(s: Seq<Edge>, i: int, a: Address)
    requires
        0 <= i < s.len(),
    ensures
        transfer_net(s.remove(i), a) == transfer_net(s, a) - contribution(s[i], a),
    decreases s.len(),
{
    let t = s.remove(i);
    if i == s.len() - 1 {
        assert(t =~= s.drop_last());
    } else {
        lemma_transfer_net_remove(s.drop_last(), i, a);
        assert(t.drop_last() =~= s.drop_last().remove(i));
        assert(t.last() == s.last());
    }
}

/// Whether `chain` lists places of `transfers` whose transfers hand one to the next
/// the amount of `merged` in its token, from the sender of `merged` to its receiver.
pub open spec fn is_chain(transfers: Seq<Edge>, chain: Seq<int>, merged: Edge) -> bool {
    &&& chain.len() >= 1
    &&& forall|m: int|
        0 <= m < chain.len() ==> 0 <= #[trigger] chain[m] < transfers.len()
            && transfers[chain[m]].token == merged.token && transfers[chain[m]].capacity
            == merged.capacity
    &&& forall|m: int|
        0 <= m < chain.len() - 1 ==> transfers[#[trigger] chain[m]].to == transfers[chain[m
            + 1]].from
    &&& transfers[chain[0]].from == merged.from
    &&& transfers[chain[chain.len() - 1]].to == merged.to
}

/// Whether a chain of the given transfers hands on the amount of `merged` in its
/// token from its sender to its receiver.
pub open spec fn merged_from(transfers: Seq<Edge>, merged: Edge) -> bool {
    exists|chain: Seq<int>| #[trigger] is_chain(transfers, chain, merged)
}

/// Two chains of which the first ends where the second starts make one chain.
proof fn lemma_chain_join(
    transfers: Seq<Edge>,
    first: Seq<int>,
    second: Seq<int>,
    a: Edge,
    b: Edge,
)
    requires
        is_chain(transfers, first, a),
        is_chain(transfers, second, b),
        a.to == b.from,
        a.token == b.token,
        a.capacity == b.capacity,
    ensures
        is_chain(transfers, first + second, Edge { to: b.to, ..a }),
{
    let chain = first + second;
    let merged = Edge { to: b.to, ..a };
    assert forall|m: int| 0 <= m < chain.len() implies 0 <= #[trigger] chain[m] < transfers.len()
        && transfers[chain[m]].token == merged.token && transfers[chain[m]].capacity
        == merged.capacity by {
        if m < first.len() {
            assert(chain[m] == first[m]);
        } else {
            assert(chain[m] == second[m - first.len()]);
        }
    }
    assert forall|m: int| 0 <= m < chain.len() - 1 implies transfers[#[trigger] chain[m]].to
        == transfers[chain[m + 1]].from by {
        if m < first.len() - 1 {
            assert(chain[m] == first[m]);
            assert(chain[m + 1] == first[m + 1]);
        } else if m == first.len() - 1 {
            assert(chain[m] == first[m]);
            assert(chain[m + 1] == second[0]);
        } else {
            assert(chain[m] == second[m - first.len()]);
            assert(chain[m + 1] == second[m - first.len() + 1]);
        }
    }
    assert(chain[0] == first[0]);
    assert(chain[chain.len() - 1] == second[second.len() - 1]);
}

/// Whether the pair `i`, `j` is the first of which one transfer hands on to the other
/// just what it brings: the first in the order of `i`, then of `j`.
pub open spec fn is_first_pair(transfers: Seq<Edge>, i: int, j: int) -> bool {
    &&& simplifiable(transfers, i, j)
    &&& forall|a: int, b: int| (a < i || (a == i && b < j)) ==> !#[trigger] simplifiable(transfers, a, b)
}

/// The transfers with the pair `i`, `j` drawn together: the transfer at `i` goes to
/// the receiver of the transfer at `j`, which is taken out.
pub open spec fn merge_pair(transfers: Seq<Edge>, i: int, j: int) -> Seq<Edge> {
    transfers.update(i, Edge { to: transfers[j].to, ..transfers[i] }).remove(j)
}

/// The transfers after the first pair has been drawn together again and again until
/// no transfer hands on to another just what it brings.
pub open spec fn simplified(transfers: Seq<Edge>) -> Seq<Edge>
    decreases transfers.len(),
    via simplified_terminates
{
    if exists|i: int, j: int| #[trigger] is_first_pair(transfers, i, j) {
        let (i, j) = choose|i: int, j: int| #[trigger] is_first_pair(transfers, i, j);
        simplified(merge_pair(transfers, i, j))
    } else {
        transfers
    }
}

#[via_fn]
proof fn simplified_terminates(transfers: Seq<Edge>) {
    if exists|i: int, j: int| #[trigger] is_first_pair(transfers, i, j) {
        let (i, j) = choose|i: int, j: int| #[trigger] is_first_pair(transfers, i, j);
        assert(simplifiable(transfers, i, j));
        assert(merge_pair(transfers, i, j).len() == transfers.len() - 1);
    }
}

/// Where the pair `i`, `j` is the first to be drawn together, the transfers are
/// simplified as the transfers with that pair drawn together are.
proof fn lemma_simplified_step(transfers: Seq<Edge>, i: int, j: int)
    requires
        is_first_pair(transfers, i, j),
    ensures
        simplified(transfers) == simplified(merge_pair(transfers, i, j)),
{
    let (a, b) = choose|a: int, b: int| #[trigger] is_first_pair(transfers, a, b);
    assert(is_first_pair(transfers, a, b));
    if a < i || (a == i && b < j) {
        assert(!simplifiable(transfers, a, b));
    }
    if i < a || (i == a && j < b) {
        assert(!simplifiable(transfers, i, j));
    }
}

/// Replaces, as long as there is one, the first pair of transfers of which one hands
/// on to the other just what it brings by one transfer from the sender of the one
/// to the receiver of the other. What comes out has no such pair, moves between the
/// accounts what the given transfers move, and holds for each of its transfers a
/// chain of the given transfers that it stands for.
pub fn simplify_transfers(transfers: Vec<Edge>) -> (r: Vec<Edge>)
    ensures
        r@ == simplified(transfers@),
        is_simplified(r@),
        r@.len() <= transfers@.len(),
        forall|a: Address| #[trigger] transfer_net(r@, a) == transfer_net(transfers@, a),
        forall|k: int| 0 <= k < r@.len() ==> merged_from(transfers@, #[trigger] r@[k]),
{
    let ghost given = transfers@;
    let mut list = transfers;
    let ghost mut chains: Seq<Seq<int>> = Seq::new(given.len(), |k: int| seq![k]);
    proof {
        assert forall|k: int| 0 <= k < list@.len() implies is_chain(given, #[trigger] chains[k], list@[k]) by {}
    }
    loop
        invariant
            given == transfers@,
            simplified(list@) == simplified(given),
            list@.len() <= given.len(),
            chains.len() == list@.len(),
            forall|a: Address| #[trigger] transfer_net(list@, a) == transfer_net(given, a),
            forall|k: int| 0 <= k < list@.len() ==> is_chain(given, #[trigger] chains[k], list@[k]),
        ensures
            list@ == simplified(transfers@),
            is_simplified(list@),
            list@.len() <= given.len(),
            forall|a: Address| #[trigger] transfer_net(list@, a) == transfer_net(given, a),
            forall|k: int| 0 <= k < list@.len() ==> merged_from(given, #[trigger] list@[k]),
        decreases list@.len(),
    {
        match find_pair_to_simplify(&list) {
            None => {
                proof {
                    assert forall|k: int| 0 <= k < list@.len() implies merged_from(
                        given,
                        #[trigger] list@[k],
                    ) by {
                        assert(is_chain(given, chains[k], list@[k]));
                    }
                    assert(simplified(list@) == list@) by {
                        if exists|i: int, j: int| #[trigger] is_first_pair(list@, i, j) {
                            let (i, j) = choose|i: int, j: int| #[trigger] is_first_pair(list@, i, j);
                            assert(simplifiable(list@, i, j));
                        }
                    }
                }
                break ;
            },
            Some((i, j)) => {
                let ghost before = list@;
                proof {
                    assert(is_first_pair(before, i as int, j as int));
                    lemma_simplified_step(before, i as int, j as int);
                }
                let ghost old_chains = chains;
                let receiver = list[j].to;
                list[i].to = receiver;
                let ghost merged = list@;
                list.remove(j);
                proof {
                    assert(merged =~= before.update(i as int, Edge { to: receiver, ..before[i as int] }));
                    assert(list@ =~= merged.remove(j as int));
                    assert(list@ == merge_pair(before, i as int, j as int));
                    assert forall|a: Address| #[trigger]
                        transfer_net(list@, a) == transfer_net(given, a) by {
                        lemma_transfer_net_update(
                            before,
                            i as int,
                            Edge { to: receiver, ..before[i as int] },
                            a,
                        );
                        lemma_transfer_net_remove(merged, j as int, a);
                        assert(transfer_net(before, a) == transfer_net(given, a));
                    }
                    lemma_chain_join(
                        given,
                        old_chains[i as int],
                        old_chains[j as int],
                        before[i as int],
                        before[j as int],
                    );
                    chains = old_chains.update(
                        i as int,
                        old_chains[i as int] + old_chains[j as int],
                    ).remove(j as int);
                    assert forall|k: int| 0 <= k < list@.len() implies is_chain(
                        given,
                        #[trigger] chains[k],
                        list@[k],
                    ) by {
                        let k0 = if k < j { k } else { k + 1 };
                        if k0 != i {
                            assert(is_chain(given, old_chains[k0], before[k0]));
                            assert(list@[k] == before[k0]);
                            assert(chains[k] == old_chains[k0]);
                        }
                    }
                }
            },
        }
    }
    list
}

/// Whether every account has received all that it receives before it sends: every
/// transfer to an account stands before every transfer from it.
pub open spec fn is_ordered(transfers: Seq<Edge>) -> bool {
    forall|i: int, j: int|
        0 <= i < transfers.len() && 0 <= j < transfers.len() && (#[trigger] transfers[i]).from == (
        #[trigger] transfers[j]).to ==> j < i
}

/// Whether `now` holds the transfers of `given`, each once, the transfer at place
/// `k` being the one that stood at place `origin[k]`.
pub open spec fn rearranges(now: Seq<Edge>, given: Seq<Edge>, origin: Seq<int>) -> bool {
    &&& now.len() == given.len()
    &&& origin.len() == now.len()
    &&& forall|k: int|
        0 <= k < now.len() ==> 0 <= #[trigger] origin[k] < given.len() && now[k] == given[origin[k]]
    &&& forall|k: int, l: int|
        0 <= k < l < now.len() ==> #[trigger] origin[k] != #[trigger] origin[l]
}

/// Whether `now` holds the transfers of `given`, each once, in some order.
pub open spec fn is_rearrangement(now: Seq<Edge>, given: Seq<Edge>) -> bool {
    exists|origin: Seq<int>| #[trigger] rearranges(now, given, origin)
}

/// How many of the transfers go to the account.
pub open spec fn incoming_count(transfers: Seq<Edge>, a: Address) -> nat
    decreases transfers.len(),
{
    if transfers.len() == 0 {
        0
    } else {
        incoming_count(transfers.drop_last(), a) + if transfers.last().to == a {
            1nat
        } else {
            0
        }
    }
}

/// The transfers from a place on count as the one at that place and those behind it.
proof fn lemma_incoming_count_skip(s: Seq<Edge>, i: int, a: Address)
    requires
        0 <= i < s.len(),
    ensures
        incoming_count(s.skip(i), a) == incoming_count(s.skip(i + 1), a) + if s[i].to == a {
            1nat
        } else {
            0
        },
    decreases s.len() - i,
{
    let t = s.skip(i);
    if i == s.len() - 1 {
        assert(t.drop_last() =~= s.skip(i + 1));
        assert(s.skip(i + 1) =~= Seq::<Edge>::empty());
    } else {
        lemma_incoming_count_skip(s.drop_last(), i, a);
        assert(t.drop_last() =~= s.drop_last().skip(i));
        assert(s.skip(i + 1).drop_last() =~= s.drop_last().skip(i + 1));
        assert(t.last() == s.last());
        assert(s.skip(i + 1).last() == s.last());
    }
}

/// Where no transfer is counted for an account, none goes to it.
proof fn lemma_incoming_count_zero(s: Seq<Edge>, a: Address)
    requires
        incoming_count(s, a) == 0,
    ensures
        forall|m: int| 0 <= m < s.len() ==> (#[trigger] s[m]).to != a,
    decreases s.len(),
{
    if s.len() > 0 {
        lemma_incoming_count_zero(s.drop_last(), a);
        assert forall|m: int| 0 <= m < s.len() implies (#[trigger] s[m]).to != a by {
            if m < s.len() - 1 {
                assert(s.drop_last()[m] == s[m]);
            }
        }
    }
}

/// The transfers from a place on add to an account what the one at that place adds
/// and what those behind it add.
proof fn lemma_transfer_net_skip(s: Seq<Edge>, i: int, a: Address)
    requires
        0 <= i < s.len(),
    ensures
        transfer_net(s.skip(i), a) == transfer_net(s.skip(i + 1), a) + contribution(s[i], a),
    decreases s.len() - i,
{
    let t = s.skip(i);
    if i == s.len() - 1 {
        assert(t.drop_last() =~= s.skip(i + 1));
        assert(s.skip(i + 1) =~= Seq::<Edge>::empty());
    } else {
        lemma_transfer_net_skip(s.drop_last(), i, a);
        assert(t.drop_last() =~= s.drop_last().skip(i));
        assert(s.skip(i + 1).drop_last() =~= s.drop_last().skip(i + 1));
        assert(t.last() == s.last());
        assert(s.skip(i + 1).last() == s.last());
    }
}

/// How many transfers an account still waits for: its value in the table, none
/// where it is not listed.
pub open spec fn waits_for(waits: Map<Address, usize>, a: Address) -> nat {
    if waits.contains_key(a) {
        waits[a] as nat
    } else {
        0
    }
}

/// For each account, how many of the transfers go to it.
fn count_incoming(transfers: &Vec<Edge>) -> (waits: crate::types::address_map::AddressMap<usize>)
    ensures
        waits.wf(),
        forall|a: Address| #[trigger] waits_for(waits@, a) == incoming_count(transfers@, a),
{
    let mut waits: crate::types::address_map::AddressMap<usize> =
        crate::types::address_map::AddressMap::new();
    let mut k: usize = 0;
    while k < transfers.len()
        invariant
            k <= transfers@.len(),
            waits.wf(),
            forall|a: Address| #[trigger]
                waits_for(waits@, a) == incoming_count(transfers@.take(k as int), a),
            forall|a: Address| #[trigger] waits_for(waits@, a) <= k,
        decreases transfers@.len() - k,
    {
        let to = transfers[k].to;
        let ghost before = waits@;
        proof {
            assert(transfers@.take(k + 1).drop_last() =~= transfers@.take(k as int));
            assert(waits_for(before, to) <= k);
        }
        let current: usize = match waits.get(to) {
            Some(c) => *c,
            None => 0,
        };
        let _ = waits.insert(to, current + 1);
        proof {
            assert forall|a: Address| #[trigger]
                waits_for(waits@, a) == incoming_count(transfers@.take(k + 1), a) by {
                assert(waits_for(before, a) == incoming_count(transfers@.take(k as int), a));
            }
            assert forall|a: Address| #[trigger] waits_for(waits@, a) <= k + 1 by {
                assert(waits_for(before, a) <= k);
            }
        }
        k += 1;
    }
    assert(transfers@.take(k as int) =~= transfers@);
    waits
}

/// Whether each transfer of the list is the one that stood at the place that
/// `origin` gives for it.
pub open spec fn sourced(list: Seq<Edge>, origin: Seq<int>, given: Seq<Edge>) -> bool {
    &&& origin.len() == list.len()
    &&& forall|k: int|
        0 <= k < list.len() ==> 0 <= #[trigger] origin[k] < given.len() && list[k] == given[origin[k]]
}

/// Whether no place of `a` is a place of `b` from `from` on.
pub open spec fn apart(a: Seq<int>, b: Seq<int>, from: int) -> bool {
    forall|k: int, m: int|
        0 <= k < a.len() && from <= m < b.len() ==> #[trigger] a[k] != #[trigger] b[m]
}

/// Whether no transfer of `list` from `from` on goes to the sender of a transfer of
/// `result`.
pub open spec fn none_awaited(result: Seq<Edge>, list: Seq<Edge>, from: int) -> bool {
    forall|k: int, m: int|
        0 <= k < result.len() && from <= m < list.len() ==> (#[trigger] list[m]).to != (
        #[trigger] result[k]).from
}

/// A transfer whose sender waits for nothing can be put behind the transfers that
/// are in order.
proof fn lemma_emit(
    given: Seq<Edge>,
    result: Seq<Edge>,
    origin: Seq<int>,
    next: Seq<Edge>,
    next_origin: Seq<int>,
    pending: Seq<Edge>,
    pending_origin: Seq<int>,
    idx: int,
)
    requires
        0 <= idx < pending.len(),
        sourced(result, origin, given),
        sourced(next, next_origin, given),
        sourced(pending, pending_origin, given),
        origin.no_duplicates(),
        pending_origin.no_duplicates(),
        apart(origin, next_origin, 0),
        apart(origin, pending_origin, idx),
        apart(next_origin, pending_origin, idx),
        is_ordered(result),
        none_awaited(result, next, 0),
        none_awaited(result, pending, idx),
        incoming_count(next, pending[idx].from) == 0,
        incoming_count(pending.skip(idx), pending[idx].from) == 0,
    ensures
        sourced(result.push(pending[idx]), origin.push(pending_origin[idx]), given),
        origin.push(pending_origin[idx]).no_duplicates(),
        apart(origin.push(pending_origin[idx]), next_origin, 0),
        apart(origin.push(pending_origin[idx]), pending_origin, idx + 1),
        is_ordered(result.push(pending[idx])),
        none_awaited(result.push(pending[idx]), next, 0),
        none_awaited(result.push(pending[idx]), pending, idx + 1),
{
    let e = pending[idx];
    let longer = result.push(e);
    let places = origin.push(pending_origin[idx]);
    lemma_incoming_count_zero(next, e.from);
    lemma_incoming_count_zero(pending.skip(idx), e.from);
    assert forall|m: int| idx <= m < pending.len() implies (#[trigger] pending[m]).to != e.from by {
        assert(pending.skip(idx)[m - idx] == pending[m]);
    }
    assert forall|k: int, l: int| 0 <= k < places.len() && 0 <= l < places.len() && k != l implies places[k]
        != places[l] by {
        if k < origin.len() && l < origin.len() {
            assert(origin[k] != origin[l]);
        } else if k < origin.len() {
            assert(origin[k] != pending_origin[idx]);
        } else {
            assert(origin[l] != pending_origin[idx]);
        }
    }
    assert forall|k: int, m: int|
        0 <= k < places.len() && idx + 1 <= m < pending_origin.len() implies #[trigger] places[k]
        != #[trigger] pending_origin[m] by {
        if k < origin.len() {
            assert(origin[k] != pending_origin[m]);
        } else {
            assert(pending_origin[idx] != pending_origin[m]);
        }
    }
    assert forall|k: int, m: int| 0 <= k < places.len() && 0 <= m < next_origin.len() implies #[trigger] places[k]
        != #[trigger] next_origin[m] by {
        if k < origin.len() {
            assert(origin[k] != next_origin[m]);
        } else {
            assert(next_origin[m] != pending_origin[idx]);
        }
    }
    assert forall|i: int, j: int|
        0 <= i < longer.len() && 0 <= j < longer.len() && (#[trigger] longer[i]).from == (
        #[trigger] longer[j]).to implies j < i by {
        if i < result.len() && j < result.len() {
            assert(result[i].from == result[j].to);
        } else if j < result.len() {
        } else if i < result.len() {
            assert(pending[idx].to != result[i].from);
        } else {
            assert(pending[idx].to != e.from);
        }
    }
    assert forall|k: int, m: int| 0 <= k < longer.len() && 0 <= m < next.len() implies (
    #[trigger] next[m]).to != (#[trigger] longer[k]).from by {
        if k < result.len() {
            assert(next[m].to != result[k].from);
        }
    }
    assert forall|k: int, m: int| 0 <= k < longer.len() && idx + 1 <= m < pending.len() implies (
    #[trigger] pending[m]).to != (#[trigger] longer[k]).from by {
        if k < result.len() {
            assert(pending[m].to != result[k].from);
        }
    }
}

/// A transfer whose sender still waits can be put off to the next pass.
proof fn lemma_defer(
    given: Seq<Edge>,
    result: Seq<Edge>,
    origin: Seq<int>,
    next: Seq<Edge>,
    next_origin: Seq<int>,
    pending: Seq<Edge>,
    pending_origin: Seq<int>,
    idx: int,
)
    requires
        0 <= idx < pending.len(),
        sourced(next, next_origin, given),
        sourced(pending, pending_origin, given),
        next_origin.no_duplicates(),
        pending_origin.no_duplicates(),
        apart(origin, next_origin, 0),
        apart(origin, pending_origin, idx),
        apart(next_origin, pending_origin, idx),
        none_awaited(result, next, 0),
        none_awaited(result, pending, idx),
    ensures
        sourced(next.push(pending[idx]), next_origin.push(pending_origin[idx]), given),
        next_origin.push(pending_origin[idx]).no_duplicates(),
        apart(origin, next_origin.push(pending_origin[idx]), 0),
        apart(origin, pending_origin, idx + 1),
        apart(next_origin.push(pending_origin[idx]), pending_origin, idx + 1),
        none_awaited(result, next.push(pending[idx]), 0),
        none_awaited(result, pending, idx + 1),
{
    let places = next_origin.push(pending_origin[idx]);
    let longer = next.push(pending[idx]);
    assert forall|k: int, l: int| 0 <= k < places.len() && 0 <= l < places.len() && k != l implies places[k]
        != places[l] by {
        if k < next_origin.len() && l < next_origin.len() {
            assert(next_origin[k] != next_origin[l]);
        } else if k < next_origin.len() {
            assert(next_origin[k] != pending_origin[idx]);
        } else {
            assert(next_origin[l] != pending_origin[idx]);
        }
    }
    assert forall|k: int, m: int| 0 <= k < origin.len() && 0 <= m < places.len() implies #[trigger] origin[k]
        != #[trigger] places[m] by {
        if m < next_origin.len() {
            assert(origin[k] != next_origin[m]);
        } else {
            assert(origin[k] != pending_origin[idx]);
        }
    }
    assert forall|k: int, m: int|
        0 <= k < places.len() && idx + 1 <= m < pending_origin.len() implies #[trigger] places[k]
        != #[trigger] pending_origin[m] by {
        if k < next_origin.len() {
            assert(next_origin[k] != pending_origin[m]);
        } else {
            assert(pending_origin[idx] != pending_origin[m]);
        }
    }
    assert forall|k: int, m: int| 0 <= k < result.len() && 0 <= m < longer.len() implies (
    #[trigger] longer[m]).to != (#[trigger] result[k]).from by {
        if m < next.len() {
            assert(next[m].to != result[k].from);
        } else {
            assert(pending[idx].to != result[k].from);
        }
    }
}

/// Whether the transfers can be put in an order in which every account has received
/// all that it receives before it sends.
pub open spec fn orderable(transfers: Seq<Edge>) -> bool {
    exists|order: Seq<Edge>| #[trigger] is_rearrangement(order, transfers) && is_ordered(order)
}

/// A rearrangement holds the transfer of every place.
proof fn lemma_rearrangement_covers(now: Seq<Edge>, given: Seq<Edge>, origin: Seq<int>, g: int)
    requires
        rearranges(now, given, origin),
        0 <= g < given.len(),
    ensures
        origin.contains(g),
{
    let n = given.len() as int;
    assert(origin.no_duplicates()) by {
        assert forall|k: int, l: int|
            0 <= k < origin.len() && 0 <= l < origin.len() && k != l implies origin[k]
            != origin[l] by {
            if k < l {
                assert(origin[k] != origin[l]);
            } else {
                assert(origin[l] != origin[k]);
            }
        }
    }
    origin.unique_seq_to_set();
    vstd::set_lib::lemma_int_range(0, n);
    let range = vstd::set_lib::set_int_range(0, n);
    assert(origin.to_set().subset_of(range)) by {
        assert forall|x: int| origin.to_set().contains(x) implies range.contains(x) by {
            let k = choose|k: int| 0 <= k < origin.len() && origin[k] == x;
            assert(0 <= origin[k] < given.len());
        }
    }
    vstd::set_lib::lemma_len_subset(origin.to_set(), range);
    vstd::set_lib::lemma_subset_equality(origin.to_set(), range);
    assert(range.contains(g));
    assert(origin.to_set().contains(g));
}

/// The first place of an order, up to `k`, that holds one of the transfers that are
/// left.
proof fn lemma_first_left(origin: Seq<int>, left: Seq<int>, k: int) -> (first: int)
    requires
        0 <= k < origin.len(),
        left.contains(origin[k]),
    ensures
        0 <= first <= k,
        left.contains(origin[first]),
        forall|l: int| 0 <= l < first ==> !left.contains(#[trigger] origin[l]),
    decreases k,
{
    if exists|l: int| 0 <= l < k && left.contains(#[trigger] origin[l]) {
        let l = choose|l: int| 0 <= l < k && left.contains(#[trigger] origin[l]);
        lemma_first_left(origin, left, l)
    } else {
        k
    }
}

/// Where transfers are left of which every one waits for another of them, the given
/// transfers cannot be put in order.
proof fn lemma_stuck(given: Seq<Edge>, pending: Seq<Edge>, pending_origin: Seq<int>)
    requires
        sourced(pending, pending_origin, given),
        pending.len() > 0,
        forall|m: int|
            0 <= m < pending.len() ==> incoming_count(pending, (#[trigger] pending[m]).from) > 0,
    ensures
        !orderable(given),
{
    if orderable(given) {
        let order = choose|order: Seq<Edge>|
            #[trigger] is_rearrangement(order, given) && is_ordered(order);
        let origin = choose|origin: Seq<int>| #[trigger] rearranges(order, given, origin);
        // some place of the order holds a transfer that is left
        lemma_rearrangement_covers(order, given, origin, pending_origin[0]);
        let k0 = choose|k: int| 0 <= k < origin.len() && origin[k] == pending_origin[0];
        assert(pending_origin.contains(origin[k0]));
        let first = lemma_first_left(origin, pending_origin, k0);
        let m = choose|m: int| 0 <= m < pending_origin.len() && pending_origin[m] == origin[first];
        assert(order[first] == given[origin[first]]);
        assert(pending[m] == given[pending_origin[m]]);
        // it waits for another transfer that is left
        assert(incoming_count(pending, pending[m].from) > 0);
        if forall|w: int| 0 <= w < pending.len() ==> (#[trigger] pending[w]).to != pending[m].from {
            lemma_incoming_count_none(pending, pending[m].from);
        }
        let w = choose|w: int| 0 <= w < pending.len() && (#[trigger] pending[w]).to == pending[m].from;
        lemma_rearrangement_covers(order, given, origin, pending_origin[w]);
        let kw = choose|k: int| 0 <= k < origin.len() && origin[k] == pending_origin[w];
        assert(pending_origin.contains(origin[kw]));
        assert(order[kw] == given[origin[kw]]);
        assert(pending[w] == given[pending_origin[w]]);
        // which the order has to hold before it
        assert(order[first].from == order[kw].to);
        assert(kw < first);
    }
}

/// Where no transfer goes to an account, none is counted for it.
proof fn lemma_incoming_count_none(s: Seq<Edge>, a: Address)
    requires
        forall|m: int| 0 <= m < s.len() ==> (#[trigger] s[m]).to != a,
    ensures
        incoming_count(s, a) == 0,
    decreases s.len(),
{
    if s.len() > 0 {
        assert forall|m: int| 0 <= m < s.drop_last().len() implies (#[trigger] s.drop_last()[m]).to
            != a by {
            assert(s[m].to != a);
        }
        lemma_incoming_count_none(s.drop_last(), a);
        assert(s[s.len() - 1].to != a);
    }
}

/// One round over the transfers from place `k` on, where `kept` holds the transfers
/// that the round has put back so far: the transfers that the round places, in their
/// order, and those that it puts back. A transfer is placed where none of the
/// transfers put back, and none from its own place on, goes to its sender.
pub open spec fn round(pending: Seq<Edge>, k: int, kept: Seq<Edge>) -> (Seq<Edge>, Seq<Edge>)
    decreases pending.len() - k,
{
    if k < 0 || k >= pending.len() {
        (Seq::empty(), kept)
    } else if incoming_count(kept, pending[k].from) + incoming_count(
        pending.skip(k),
        pending[k].from,
    ) == 0 {
        let (placed, back) = round(pending, k + 1, kept);
        (seq![pending[k]] + placed, back)
    } else {
        round(pending, k + 1, kept.push(pending[k]))
    }
}

/// The transfers that are placed, before those that are still to come, if any come.
pub open spec fn before_rest(placed: Seq<Edge>, rest: Option<Seq<Edge>>) -> Option<Seq<Edge>> {
    match rest {
        Some(rest) => Some(placed + rest),
        None => None,
    }
}

/// The order that rounds over the transfers give: what the first round places, then
/// the order of those that it puts back; and none where a round places nothing.
pub open spec fn ordering(transfers: Seq<Edge>) -> Option<Seq<Edge>>
    decreases transfers.len(),
{
    if transfers.len() == 0 {
        Some(Seq::empty())
    } else {
        let (placed, back) = round(transfers, 0, Seq::empty());
        if back.len() < transfers.len() {
            before_rest(placed, ordering(back))
        } else {
            None
        }
    }
}

/// Where the round places the transfer at place `k`, it comes behind those placed
/// before it and before those placed after it.
proof fn lemma_round_places(pending: Seq<Edge>, k: int, kept: Seq<Edge>, placed: Seq<Edge>)
    requires
        0 <= k < pending.len(),
        incoming_count(kept, pending[k].from) + incoming_count(pending.skip(k), pending[k].from)
            == 0,
    ensures
        placed + round(pending, k, kept).0 == placed.push(pending[k]) + round(
            pending,
            k + 1,
            kept,
        ).0,
        round(pending, k, kept).1 == round(pending, k + 1, kept).1,
{
    let rest = round(pending, k + 1, kept).0;
    assert(placed + (seq![pending[k]] + rest) =~= placed.push(pending[k]) + rest);
}

/// What is placed in two parts before the rest is placed in one.
proof fn lemma_before_rest(first: Seq<Edge>, second: Seq<Edge>, rest: Option<Seq<Edge>>)
    ensures
        before_rest(first, before_rest(second, rest)) == before_rest(first + second, rest),
{
    if rest is Some {
        assert(first + (second + rest->0) =~= (first + second) + rest->0);
    }
}

/// Puts the transfers in an order in which every account has received all that it
/// receives before it sends. It goes through the transfers again and again, each
/// time putting behind those that are in order every transfer whose sender waits for
/// nothing more, until none is left. Gives up where a pass places no transfer.
///
/// What comes out holds the given transfers, each once.
pub fn sort_transfers(transfers: Vec<Edge>) -> (r: Option<Vec<Edge>>)
    ensures
        r is Some <==> orderable(transfers@),
        r is Some ==> is_ordered(r->0@),
        r is Some ==> is_rearrangement(r->0@, transfers@),
        r is Some ==> forall|a: Address| #[trigger]
            transfer_net(r->0@, a) == transfer_net(transfers@, a),
        match r {
            Some(order) => ordering(transfers@) == Some(order@),
            None => ordering(transfers@) is None,
        },
{
    let ghost given = transfers@;
    let mut waits = count_incoming(&transfers);
    let mut result: Vec<Edge> = Vec::new();
    let mut pending: Vec<Edge> = transfers;
    let ghost mut origin: Seq<int> = Seq::empty();
    let ghost mut pending_origin: Seq<int> = Seq::new(given.len(), |k: int| k);
    loop
        invariant
            given == transfers@,
            waits.wf(),
            result@.len() + pending@.len() == given.len(),
            sourced(result@, origin, given),
            sourced(pending@, pending_origin, given),
            origin.no_duplicates(),
            pending_origin.no_duplicates(),
            apart(origin, pending_origin, 0),
            is_ordered(result@),
            none_awaited(result@, pending@, 0),
            forall|a: Address| #[trigger] waits_for(waits@, a) == incoming_count(pending@, a),
            forall|a: Address| #[trigger]
                transfer_net(result@, a) + transfer_net(pending@, a) == transfer_net(given, a),
            ordering(given) == before_rest(result@, ordering(pending@)),
        decreases pending@.len(),
    {
        if pending.len() == 0 {
            proof {
                assert(rearranges(result@, given, origin));
                assert(is_rearrangement(result@, given) && is_ordered(result@));
                assert(result@ + Seq::<Edge>::empty() =~= result@);
            }
            return Some(result);
        }
        let ghost placed_before = result@;
        let mut next: Vec<Edge> = Vec::new();
        let ghost mut next_origin: Seq<int> = Seq::empty();
        let ghost placed = result@.len();
        let ghost waits_at_start = waits@;
        let mut idx: usize = 0;
        proof {
            assert(pending@.skip(0) =~= pending@);
        }
        while idx < pending.len()
            invariant
                waits.wf(),
                idx <= pending@.len(),
                result@.len() + next@.len() + pending@.len() - idx == given.len(),
                result@.len() - placed + next@.len() == idx,
                placed <= result@.len(),
                given == transfers@,
                result@.len() == placed ==> waits@ == waits_at_start && forall|m: int|
                    0 <= m < idx ==> waits_for(waits_at_start, (#[trigger] pending@[m]).from) > 0,
                forall|a: Address| #[trigger]
                    waits_for(waits_at_start, a) == incoming_count(pending@, a),
                sourced(result@, origin, given),
                sourced(next@, next_origin, given),
                sourced(pending@, pending_origin, given),
                origin.no_duplicates(),
                next_origin.no_duplicates(),
                pending_origin.no_duplicates(),
                apart(origin, next_origin, 0),
                apart(origin, pending_origin, idx as int),
                apart(next_origin, pending_origin, idx as int),
                is_ordered(result@),
                none_awaited(result@, next@, 0),
                none_awaited(result@, pending@, idx as int),
                forall|a: Address| #[trigger]
                    waits_for(waits@, a) == incoming_count(next@, a) + incoming_count(
                        pending@.skip(idx as int),
                        a,
                    ),
                forall|a: Address| #[trigger]
                    transfer_net(result@, a) + transfer_net(next@, a) + transfer_net(
                        pending@.skip(idx as int),
                        a,
                    ) == transfer_net(given, a),
                placed_before == result@.take(placed as int),
                round(pending@, 0, Seq::empty()) == (
                    result@.skip(placed as int) + round(pending@, idx as int, next@).0,
                    round(pending@, idx as int, next@).1,
                ),
            decreases pending@.len() - idx,
        {
            let e = pending[idx];
            let waiting: usize = match waits.get(e.from) {
                Some(w) => *w,
                None => 0,
            };
            let ghost waits_before = waits@;
            let ghost result_before = result@;
            let ghost next_before = next@;
            proof {
                assert forall|a: Address|
                    incoming_count(pending@.skip(idx as int), a) == incoming_count(
                        pending@.skip(idx + 1),
                        a,
                    ) + if e.to == a {
                        1nat
                    } else {
                        0
                    } && transfer_net(pending@.skip(idx as int), a) == transfer_net(
                        pending@.skip(idx + 1),
                        a,
                    ) + contribution(e, a) by {
                    lemma_incoming_count_skip(pending@, idx as int, a);
                    lemma_transfer_net_skip(pending@, idx as int, a);
                }
            }
            if waiting == 0 {
                proof {
                    assert(waits_for(waits_before, e.from) == 0);
                    lemma_emit(
                        given,
                        result@,
                        origin,
                        next@,
                        next_origin,
                        pending@,
                        pending_origin,
                        idx as int,
                    );
                    assert(waits_for(waits_before, e.to) >= 1);
                }
                let at = match waits.find(e.to) {
                    Some(at) => at,
                    None => 0,
                };
                let count = *waits.value_at(at);
                waits.set_value_at(at, count - 1);
                result.push(e);
                proof {
                    lemma_round_places(pending@, idx as int, next@, result_before.skip(placed as int));
                    assert(result@.skip(placed as int) =~= result_before.skip(placed as int).push(e));
                    assert(result@.take(placed as int) =~= result_before.take(placed as int));
                    origin = origin.push(pending_origin[idx as int]);
                    assert(result@.drop_last() =~= result_before);
                    assert forall|a: Address| #[trigger]
                        waits_for(waits@, a) == incoming_count(next@, a) + incoming_count(
                            pending@.skip(idx + 1),
                            a,
                        ) by {
                        assert(waits_for(waits_before, a) == incoming_count(next@, a)
                            + incoming_count(pending@.skip(idx as int), a));
                    }
                    assert forall|a: Address| #[trigger]
                        transfer_net(result@, a) + transfer_net(next@, a) + transfer_net(
                            pending@.skip(idx + 1),
                            a,
                        ) == transfer_net(given, a) by {
                        assert(transfer_net(result_before, a) + transfer_net(next@, a)
                            + transfer_net(pending@.skip(idx as int), a) == transfer_net(given, a));
                    }
                }
            } else {
                proof {
                    lemma_defer(
                        given,
                        result@,
                        origin,
                        next@,
                        next_origin,
                        pending@,
                        pending_origin,
                        idx as int,
                    );
                }
                next.push(e);
                proof {
                    next_origin = next_origin.push(pending_origin[idx as int]);
                    assert(next@.drop_last() =~= next_before);
                    assert forall|a: Address| #[trigger]
                        waits_for(waits@, a) == incoming_count(next@, a) + incoming_count(
                            pending@.skip(idx + 1),
                            a,
                        ) by {
                        assert(waits_for(waits_before, a) == incoming_count(next_before, a)
                            + incoming_count(pending@.skip(idx as int), a));
                    }
                    assert forall|a: Address| #[trigger]
                        transfer_net(result@, a) + transfer_net(next@, a) + transfer_net(
                            pending@.skip(idx + 1),
                            a,
                        ) == transfer_net(given, a) by {
                        assert(transfer_net(result@, a) + transfer_net(next_before, a)
                            + transfer_net(pending@.skip(idx as int), a) == transfer_net(given, a));
                    }
                }
            }
            idx += 1;
        }
        proof {
            assert(result@.skip(placed as int) + Seq::<Edge>::empty() =~= result@.skip(
                placed as int,
            ));
            assert(placed_before + result@.skip(placed as int) =~= result@);
            lemma_before_rest(placed_before, result@.skip(placed as int), ordering(next@));
        }
        if next.len() == pending.len() {
            proof {
                assert forall|m: int| 0 <= m < pending@.len() implies incoming_count(
                    pending@,
                    (#[trigger] pending@[m]).from,
                ) > 0 by {
                    assert(waits_for(waits_at_start, pending@[m].from) > 0);
                }
                lemma_stuck(given, pending@, pending_origin);
            }
            return None;
        }
        proof {
            assert(pending@.skip(idx as int) =~= Seq::<Edge>::empty());
            pending_origin = next_origin;
        }
        pending = next;
    }
}

/// Whether `hops` is a chain of transfers that used edges stand for, each of the
/// amount of `transfer` in its token, from the sender of `transfer` to its receiver.
pub open spec fn is_carrying(used: Seq<FlowEntry>, hops: Seq<Edge>, transfer: Edge) -> bool {
    &&& hops.len() >= 1
    &&& hops[0].from == transfer.from
    &&& hops[hops.len() - 1].to == transfer.to
    &&& forall|m: int|
        0 <= m < hops.len() ==> (#[trigger] hops[m]).token == transfer.token && hops[m].capacity
            == transfer.capacity && stands_for(used, hops[m])
    &&& forall|m: int| 0 <= m < hops.len() - 1 ==> (#[trigger] hops[m]).to == hops[m + 1].from
}

/// Whether the used edges carry the transfer: over one used edge, or over a chain
/// of them that hand its amount on in its token.
pub open spec fn carried_by(used: Seq<FlowEntry>, transfer: Edge) -> bool {
    exists|hops: Seq<Edge>| #[trigger] is_carrying(used, hops, transfer)
}

/// Whether `hops` is a chain of edges of the token of `transfer`, from its sender to
/// its receiver, to each of which the capacity network gives at least the amount of
/// `transfer`.
pub open spec fn is_backing(db: Seq<Edge>, hops: Seq<Edge>, transfer: Edge) -> bool {
    &&& hops.len() >= 1
    &&& hops[0].from == transfer.from
    &&& hops[hops.len() - 1].to == transfer.to
    &&& forall|m: int|
        0 <= m < hops.len() ==> (#[trigger] hops[m]).token == transfer.token && base_capacity(
            db,
            Node::BalanceNode(hops[m].from, transfer.token),
            Node::TrustNode(hops[m].to, transfer.token),
        ) >= transfer.capacity@
    &&& forall|m: int| 0 <= m < hops.len() - 1 ==> (#[trigger] hops[m]).to == hops[m + 1].from
}

/// Whether the capacity network has room for the transfer: an edge of its token from
/// its sender to its receiver with at least its amount, or a chain of such edges.
pub open spec fn backed(db: Seq<Edge>, transfer: Edge) -> bool {
    exists|hops: Seq<Edge>| #[trigger] is_backing(db, hops, transfer)
}

/// A transfer that stands for a chain of transfers that used edges stand for is
/// carried by the used edges.
proof fn lemma_merged_is_carried(used: Seq<FlowEntry>, extracted: Seq<Edge>, transfer: Edge)
    requires
        merged_from(extracted, transfer),
        forall|k: int| 0 <= k < extracted.len() ==> stands_for(used, #[trigger] extracted[k]),
    ensures
        carried_by(used, transfer),
{
    let chain = choose|chain: Seq<int>| #[trigger] is_chain(extracted, chain, transfer);
    let hops = Seq::new(chain.len(), |m: int| extracted[chain[m]]);
    assert forall|m: int| 0 <= m < hops.len() implies (#[trigger] hops[m]).token == transfer.token
        && hops[m].capacity == transfer.capacity && stands_for(used, hops[m]) by {
        assert(0 <= chain[m] < extracted.len());
    }
    assert forall|m: int| 0 <= m < hops.len() - 1 implies (#[trigger] hops[m]).to == hops[m
        + 1].from by {
        assert(extracted[chain[m]].to == extracted[chain[m + 1]].from);
    }
    assert(is_carrying(used, hops, transfer));
}

/// Where the used edges are within what the capacity network gives, the capacity
/// network has room for every transfer that they carry.
proof fn lemma_carried_is_backed(db: Seq<Edge>, used: Seq<FlowEntry>, transfer: Edge)
    requires
        keys_unique(used),
        forall|u: Node, v: Node| #[trigger] capacity_of(used, u, v) <= base_capacity(db, u, v),
        carried_by(used, transfer),
    ensures
        backed(db, transfer),
{
    let hops = choose|hops: Seq<Edge>| #[trigger] is_carrying(used, hops, transfer);
    assert forall|m: int| 0 <= m < hops.len() implies (#[trigger] hops[m]).token == transfer.token
        && base_capacity(
        db,
        Node::BalanceNode(hops[m].from, transfer.token),
        Node::TrustNode(hops[m].to, transfer.token),
    ) >= transfer.capacity@ by {
        assert(stands_for(used, hops[m]));
        let j = choose|j: int| 0 <= j < used.len() && transfer_of(#[trigger] used[j]) == Some(hops[m]);
        crate::graph::flow_map::lemma_place(used, j);
        assert(capacity_of(used, used[j].from, used[j].to) <= base_capacity(
            db,
            used[j].from,
            used[j].to,
        ));
    }
    assert(is_backing(db, hops, transfer));
}

/// Transfers that hold, each once, transfers of which none hands on to another just
/// what it brings have no such pair either.
proof fn lemma_simplified_rearranged(now: Seq<Edge>, given: Seq<Edge>)
    requires
        is_simplified(given),
        is_rearrangement(now, given),
    ensures
        is_simplified(now),
{
    let origin = choose|origin: Seq<int>| #[trigger] rearranges(now, given, origin);
    assert forall|i: int, j: int| !#[trigger] simplifiable(now, i, j) by {
        if simplifiable(now, i, j) {
            if i < j {
                assert(origin[i] != origin[j]);
            } else {
                assert(origin[j] != origin[i]);
            }
            assert(simplifiable(given, origin[i], origin[j]));
        }
    }
}

/// The transfers that realise a flow over the used edges: none for no flow; else
/// those drawn from the used edges, with chains drawn together, in the order that
/// the rounds give. It fails where the transfers cannot be drawn, and where they
/// cannot be ordered.
pub open spec fn sorted_transfers(
    used: Seq<FlowEntry>,
    source: Address,
    sink: Address,
    flow: U256,
) -> Result<Seq<Edge>, FlowError> {
    if flow@ == 0 {
        Ok(Seq::empty())
    } else {
        match extraction(used, starting_balances(source, flow), sink) {
            Err(x) => Err(x),
            Ok(list) => match ordering(simplified(list)) {
                Some(order) => Ok(order),
                None => Err(FlowError::Unorderable),
            },
        }
    }
}

/// The transfers that realise a flow: those that the used edges stand for, with
/// chains that hand on the same amount of the same token drawn together, in an
/// order in which every account has received before it sends. No flow gives no
/// transfer.
pub fn create_sorted_transfers(
    source: &Address,
    sink: &Address,
    flow: U256,
    used_edges: FlowMap,
) -> (r: Result<Vec<Edge>, FlowError>)
    requires
        used_edges.wf(),
    ensures
        flow@ != 0 ==> match extraction(used_edges@, starting_balances(*source, flow), *sink) {
            Err(x) => r == Err::<Vec<Edge>, FlowError>(x),
            Ok(list) => if orderable(simplified(list)) {
                r is Ok && is_rearrangement(r->Ok_0@, simplified(list))
            } else {
                r == Err::<Vec<Edge>, FlowError>(FlowError::Unorderable)
            },
        },
        flow@ == 0 ==> r is Ok,
        match r {
            Ok(transfers) => sorted_transfers(used_edges@, *source, *sink, flow) == Ok::<
                Seq<Edge>,
                FlowError,
            >(transfers@),
            Err(e) => sorted_transfers(used_edges@, *source, *sink, flow) == Err::<
                Seq<Edge>,
                FlowError,
            >(e),
        },
        r is Err ==> r == Err::<Vec<Edge>, FlowError>(FlowError::NoAdmissibleEdge) || r == Err::<
            Vec<Edge>,
            FlowError,
        >(FlowError::Unorderable),
        r is Ok && flow@ == 0 ==> r->Ok_0@.len() == 0,
        r is Ok ==> r->Ok_0@.len() <= used_edges@.len(),
        r is Ok ==> is_ordered(r->Ok_0@),
        r is Ok ==> is_simplified(r->Ok_0@),
        r is Ok ==> forall|a: Address| #[trigger]
            transfer_net(r->Ok_0@, a) == expected_transfer_net(a, *source, *sink, flow@),
        r is Ok ==> forall|k: int|
            0 <= k < r->Ok_0@.len() ==> carried_by(used_edges@, #[trigger] r->Ok_0@[k]),
{
    if flow.is_zero() {
        let none: Vec<Edge> = Vec::new();
        assert forall|i: int, j: int| !#[trigger] simplifiable(none@, i, j) by {}
        return Ok(none);
    }
    let ghost used = used_edges@;
    let extracted = match extract_transfers(source, sink, &flow, used_edges) {
        Ok(extracted) => extracted,
        Err(e) => {
            return Err(e);
        },
    };
    let ghost drawn = extracted@;
    let simplified = simplify_transfers(extracted);
    let ghost merged = simplified@;
    match sort_transfers(simplified) {
        None => Err(FlowError::Unorderable),
        Some(sorted) => {
            proof {
                lemma_simplified_rearranged(sorted@, merged);
                let origin = choose|origin: Seq<int>| #[trigger] rearranges(sorted@, merged, origin);
                assert forall|k: int| 0 <= k < sorted@.len() implies carried_by(
                    used,
                    #[trigger] sorted@[k],
                ) by {
                    assert(sorted@[k] == merged[origin[k]]);
                    lemma_merged_is_carried(used, drawn, merged[origin[k]]);
                }
            }
            Ok(sorted)
        },
    }
}

/// Whether the used edges are what the search can end with: a flow of the given size
/// within the capacities, on edges that each hold more than nothing, that cannot be
/// made larger along any way within the limit.
pub open spec fn is_found_flow(
    db: Seq<Edge>,
    used: Seq<FlowEntry>,
    source: Address,
    sink: Address,
    found: nat,
    max_distance: Option<u64>,
) -> bool {
    &&& is_flow(db, used, source, sink, found)
    &&& all_positive(used)
    &&& source != sink ==> is_saturated(db, used, source, sink, max_distance)
}

/// Whether `answer` answers the question for a flow from the source to the sink: it
/// is what a flow that the search can end with is realised as; or the flow does not
/// fit, where the source can send two to the 256 or more.
pub open spec fn is_answer(
    db: Seq<Edge>,
    source: Address,
    sink: Address,
    requested: nat,
    max_distance: Option<u64>,
    max_transfers: Option<u64>,
    answer: Result<(nat, Seq<Edge>), FlowError>,
) -> bool {
    if answer == Err::<(nat, Seq<Edge>), FlowError>(FlowError::Overflow) {
        sent_capacity(db, source) >= modulus()
    } else {
        exists|used: Seq<FlowEntry>, found: nat| #[trigger]
            is_found_flow(db, used, source, sink, found, max_distance) && realised(
                used,
                source,
                sink,
                found,
                requested,
                max_transfers,
            ) == answer
    }
}

/// A result over plain values: the flow as a number, the transfers as a sequence.
pub open spec fn plain(r: Result<(U256, Vec<Edge>), FlowError>) -> Result<
    (nat, Seq<Edge>),
    FlowError,
> {
    match r {
        Ok(sent) => Ok((sent.0@, sent.1@)),
        Err(e) => Err(e),
    }
}

/// Computes the largest flow from `source` to `sink` that the search for augmenting
/// paths finds in the capacity network, cut down to `requested_flow` where it is
/// more, and the transfers that realise it. Where the excess cannot be pruned, no
/// transfers can be drawn from what is left, and the computation fails.
///
/// With `max_distance` set, no augmenting path has more than three times that many
/// steps in the flow network, which is that many transfers. With `max_transfers`
/// set, used edges are taken out until no more than three times that many are left.
///
/// On success the transfers move the flow out of the source and into the sink and
/// leave every other account with what it had; the capacity network has room for
/// each of them; no transfer hands on to another just what it brings; and every
/// account has received all that it receives before it sends.
pub fn compute_flow(
    source: &Address,
    sink: &Address,
    edges: &EdgeDB,
    requested_flow: U256,
    max_distance: Option<u64>,
    max_transfers: Option<u64>,
) -> (r: Result<(U256, Vec<Edge>), FlowError>)
    requires
        edges.wf(),
    ensures
        r is Ok ==> forall|a: Address| #[trigger]
            transfer_net((r->Ok_0).1@, a) == expected_transfer_net(
                a,
                *source,
                *sink,
                (r->Ok_0).0@,
            ),
        r is Ok ==> forall|k: int|
            0 <= k < (r->Ok_0).1@.len() ==> backed(edges@, #[trigger] (r->Ok_0).1@[k]),
        r is Ok ==> is_ordered((r->Ok_0).1@),
        r is Ok ==> is_simplified((r->Ok_0).1@),
        r is Ok && max_transfers is Some ==> (r->Ok_0).1@.len() <= 3 * max_transfers->0,
        *source == *sink ==> r is Ok && (r->Ok_0).0@ == 0,
        r is Ok && (r->Ok_0).0@ == 0 ==> (r->Ok_0).1@.len() == 0,
        r is Ok ==> (r->Ok_0).0@ <= requested_flow@,
        r is Ok ==> exists|used: Seq<FlowEntry>, found: nat|
            {
                &&& #[trigger] is_found_flow(edges@, used, *source, *sink, found, max_distance)
                &&& (r->Ok_0).0@ <= found
                &&& max_transfers is None ==> (r->Ok_0).0@ == if found <= requested_flow@ {
                    found
                } else {
                    requested_flow@
                }
            },
        is_saturated(edges@, Seq::empty(), *source, *sink, max_distance) ==> r is Ok && (
        r->Ok_0).0@ == 0 && (r->Ok_0).1@.len() == 0,
        r is Err ==> r->Err_0 == FlowError::Overflow || r->Err_0 == FlowError::NoAdmissibleEdge
            || r->Err_0 == FlowError::Unorderable,
        is_answer(
            edges@,
            *source,
            *sink,
            requested_flow@,
            max_distance,
            max_transfers,
            plain(r),
        ),
{
    let mut adjacencies = Adjacencies::new(edges);
    let mut used_edges = FlowMap::new();
    let flow = match compute_max_flow(source, sink, &mut adjacencies, &mut used_edges, max_distance) {
        Ok(flow) => flow,
        Err(e) => {
            return Err(e);
        },
    };
    let ghost found = used_edges@;
    let ghost found_flow = flow@;
    proof {
        if *source != *sink {
            lemma_saturated(&adjacencies, found, *source, *sink, max_distance);
        }
    }
    let flow = prune_excess_flow(source, sink, flow, requested_flow, &mut used_edges);
    let ghost pruned = used_edges@;
    let ghost pruned_flow = flow;
    let flow = reduce_transfers_if_needed(max_transfers, flow, &mut used_edges);
    let ghost left = used_edges@;
    proof {
        flow.lemma_limbs();
        U256::lemma_from_nat(flow@);
        U256::lemma_view_injective(flow, U256::from_nat(flow@));
        assert(is_found_flow(edges@, found, *source, *sink, found_flow, max_distance));
    }
    match create_sorted_transfers(source, sink, flow, used_edges) {
        Err(e) => {
            proof {
                assert(realised(found, *source, *sink, found_flow, requested_flow@, max_transfers)
                    == Err::<(nat, Seq<Edge>), FlowError>(e));
            }
            Err(e)
        },
        Ok(transfers) => {
            proof {
                lemma_reduced_transitive(found, pruned, left);
                assert forall|u: Node, v: Node| #[trigger] capacity_of(left, u, v) <= base_capacity(
                    edges@,
                    u,
                    v,
                ) by {
                    assert(capacity_of(left, u, v) <= capacity_of(found, u, v));
                    assert(capacity_of(found, u, v) <= base_capacity(edges@, u, v));
                }
                assert forall|k: int| 0 <= k < transfers@.len() implies backed(
                    edges@,
                    #[trigger] transfers@[k],
                ) by {
                    lemma_carried_is_backed(edges@, left, transfers@[k]);
                }
                assert(is_found_flow(edges@, found, *source, *sink, found_flow, max_distance));
                if pruned_flow@ > requested_flow@ && flow@ > 0 {
                    let (from_source, to_sink, reversed) = choose|
                        from_source: Seq<(Node, u64)>,
                        to_sink: Seq<(Node, u64)>,
                        reversed: Seq<FlowEntry>,
                    |
                        lies_on_no_way(
                            found,
                            pruned,
                            *source,
                            *sink,
                            from_source,
                            to_sink,
                            reversed,
                        );
                    lemma_nothing_leaves_source(
                        found,
                        pruned,
                        *source,
                        *sink,
                        found_flow,
                        from_source,
                        to_sink,
                        reversed,
                    );
                    lemma_first_transfer(left, *source, *sink, flow);
                    let v = choose|v: Node| #[trigger] has_entry(left, Node::Node(*source), v);
                    lemma_place(left, place_of(left, Node::Node(*source), v));
                    assert(capacity_of(left, Node::Node(*source), v) <= capacity_of(
                        pruned,
                        Node::Node(*source),
                        v,
                    ));
                    assert(capacity_of(pruned, Node::Node(*source), v) == 0);
                }
            }
            Ok((flow, transfers))
        },
    }
}

} // verus!
