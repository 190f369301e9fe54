use vstd::prelude::*;
use std::collections::VecDeque;
use crate::graph::flow_map::{
    all_positive, capacity_of, has_entry, keys_unique, lemma_net_out_remove, lemma_net_out_update,
    lemma_place, lemma_total_bounds, net_out, place_of, total, FlowEntry, FlowMap,
};
use crate::graph::conservation::{conserves, lemma_nothing_leaves_source};
use crate::graph::{lemma_node_order_total, lemma_node_order_transitive, node_before, node_lt, Node};
use crate::types::address::Address;
use crate::types::u256::{modulus, U256};

verus! {

broadcast use vstd::std_specs::vecdeque::group_vec_dequeue_axioms;

/// Whether no pair has more recorded in `now` than in `before`.
pub open spec fn reduced(before: Seq<FlowEntry>, now: Seq<FlowEntry>) -> bool {
    forall|u: Node, v: Node| #[trigger] capacity_of(now, u, v) <= capacity_of(before, u, v)
}

/// Whether the capacity `c1` with the vertex `n1` comes before `c2` with `n2`: the
/// smaller capacity first, and of two equal capacities the vertex that is first in
/// the order of the vertices.
pub open spec fn edge_smaller(c1: U256, n1: Node, c2: U256, n2: Node) -> bool {
    c1@ < c2@ || (c1@ == c2@ && node_lt(n1, n2))
}

/// Whether one entry comes before another: the smaller capacity first, then the
/// first vertex, then the second, in the order of the vertices.
pub open spec fn entry_smaller(a: FlowEntry, b: FlowEntry) -> bool {
    a.capacity@ < b.capacity@ || (a.capacity@ == b.capacity@ && (node_lt(a.from, b.from) || (a.from
        == b.from && node_lt(a.to, b.to))))
}

/// Whether one entry comes before another, by capacity, then first vertex, then
/// second.
fn entry_before(a: &FlowEntry, b: &FlowEntry) -> (r: bool)
    ensures
        r == entry_smaller(*a, *b),
{
    proof {
        if a.capacity@ == b.capacity@ {
            U256::lemma_view_injective(a.capacity, b.capacity);
        }
    }
    a.capacity < b.capacity || (a.capacity == b.capacity && (node_before(&a.from, &b.from) || (
    a.from == b.from && node_before(&a.to, &b.to))))
}

/// Of two entries of different pairs one comes before the other, and the order is
/// transitive.
pub proof fn lemma_entry_order(a: FlowEntry, b: FlowEntry, c: FlowEntry)
    ensures
        (a.from == b.from && a.to == b.to) || entry_smaller(a, b) || entry_smaller(b, a),
        entry_smaller(a, b) && entry_smaller(b, c) ==> entry_smaller(a, c),
        !entry_smaller(a, a),
{
    lemma_node_order_total(a.from, b.from);
    lemma_node_order_total(a.to, b.to);
    lemma_node_order_total(a.from, a.from);
    lemma_node_order_total(a.to, a.to);
    if entry_smaller(a, b) && entry_smaller(b, c) {
        if node_lt(a.from, b.from) && node_lt(b.from, c.from) {
            lemma_node_order_transitive(a.from, b.from, c.from);
        }
        if node_lt(a.to, b.to) && node_lt(b.to, c.to) {
            lemma_node_order_transitive(a.to, b.to, c.to);
        }
    }
}

/// The direction in which flow is taken off the used edges.
#[derive(Clone, Copy, Debug, PartialEq, Eq, Structural)]
pub enum PruneDirection {
    /// From a vertex on, along the edges that leave it.
    Forwards,
    /// From a vertex back, along the edges that arrive at it.
    Backwards,
}

/// The vertex at the other end of an entry that has `n` at the end that the
/// direction starts from.
pub open spec fn far_end(e: FlowEntry, direction: PruneDirection) -> Node {
    match direction {
        PruneDirection::Forwards => e.to,
        PruneDirection::Backwards => e.from,
    }
}

/// The vertex at the end of an entry that the direction starts from.
pub open spec fn near_end(e: FlowEntry, direction: PruneDirection) -> Node {
    match direction {
        PruneDirection::Forwards => e.from,
        PruneDirection::Backwards => e.to,
    }
}

/// Whether the entry at place `i` is the first, by capacity and then by the vertex
/// at its far end, among the entries that have `n` at their near end.
pub open spec fn is_smallest_at(
    used: Seq<FlowEntry>,
    n: Node,
    direction: PruneDirection,
    i: int,
) -> bool {
    &&& 0 <= i < used.len()
    &&& near_end(used[i], direction) == n
    &&& forall|j: int|
        0 <= j < used.len() && near_end(#[trigger] used[j], direction) == n && j != i
            ==> edge_smaller(
            used[i].capacity,
            far_end(used[i], direction),
            used[j].capacity,
            far_end(used[j], direction),
        )
}

/// No two entries are the smallest at a vertex.
pub proof fn lemma_smallest_unique(
    used: Seq<FlowEntry>,
    n: Node,
    direction: PruneDirection,
    i: int,
    j: int,
)
    requires
        is_smallest_at(used, n, direction, i),
        is_smallest_at(used, n, direction, j),
    ensures
        i == j,
{
    if i != j {
        lemma_node_order_total(far_end(used[i], direction), far_end(used[j], direction));
        assert(edge_smaller(
            used[i].capacity,
            far_end(used[i], direction),
            used[j].capacity,
            far_end(used[j], direction),
        ));
        assert(edge_smaller(
            used[j].capacity,
            far_end(used[j], direction),
            used[i].capacity,
            far_end(used[i], direction),
        ));
    }
}

/// The place of the smallest entry that has `n` at its near end, if there is one.
pub open spec fn smallest_at(used: Seq<FlowEntry>, n: Node, direction: PruneDirection) -> Option<
    int,
> {
    if exists|i: int| #[trigger] is_smallest_at(used, n, direction, i) {
        Some(choose|i: int| #[trigger] is_smallest_at(used, n, direction, i))
    } else {
        None
    }
}

/// The used edges with `by` taken off the entry at place `i`, and without that entry
/// where nothing is left of it.
pub open spec fn lowered(used: Seq<FlowEntry>, i: int, by: nat) -> Seq<FlowEntry> {
    if used[i].capacity@ <= by {
        used.remove(i)
    } else {
        used.update(
            i,
            FlowEntry { capacity: U256::from_nat((used[i].capacity@ - by) as nat), ..used[i] },
        )
    }
}

/// The smaller of two numbers.
pub open spec fn least(a: nat, b: nat) -> nat {
    if a <= b {
        a
    } else {
        b
    }
}

/// The used edges after up to `amount` has been taken off the edges at `n` in the
/// given direction: nothing changes where the amount is nothing or `n` has no edge
/// in that direction. Else the smallest edge at `n` gives up the amount, or all it
/// has where that is less; as much is taken off the edges at its far end in the same
/// way; and what is then left of the amount is taken off the edges at `n` in the
/// same way.
///
/// Taking off never adds to the sum of the used edges. The definition asks for that
/// where it goes on, which is what shows that it comes to an end.
#[verifier::opaque]
pub open spec fn cascade(
    used: Seq<FlowEntry>,
    n: Node,
    amount: nat,
    direction: PruneDirection,
) -> Seq<FlowEntry>
    decreases total(used),
{
    match smallest_at(used, n, direction) {
        Some(i) if amount > 0 => {
            let taken = least(amount, used[i].capacity@);
            let cut = lowered(used, i, taken);
            if total(cut) < total(used) {
                let behind = cascade(cut, far_end(used[i], direction), taken, direction);
                if total(behind) <= total(cut) {
                    cascade(behind, n, (amount - taken) as nat, direction)
                } else {
                    behind
                }
            } else {
                used
            }
        },
        _ => used,
    }
}

/// Where nothing is to take off, or the vertex has no edge in the direction, the
/// used edges stay as they are.
pub proof fn lemma_cascade_ends(
    used: Seq<FlowEntry>,
    n: Node,
    amount: nat,
    direction: PruneDirection,
)
    requires
        amount == 0 || smallest_at(used, n, direction) is None,
    ensures
        cascade(used, n, amount, direction) == used,
{
    reveal(cascade);
}

/// Where something is to take off and the vertex has an edge in the direction, the
/// smallest such edge gives up what it can, then the edges at its far end, and then
/// the other edges at the vertex.
pub proof fn lemma_cascade_goes_on(
    used: Seq<FlowEntry>,
    n: Node,
    amount: nat,
    direction: PruneDirection,
)
    requires
        amount > 0,
        smallest_at(used, n, direction) is Some,
        total(lowered(
            used,
            smallest_at(used, n, direction)->0,
            least(amount, used[smallest_at(used, n, direction)->0].capacity@),
        )) < total(used),
    ensures
        ({
            let i = smallest_at(used, n, direction)->0;
            let taken = least(amount, used[i].capacity@);
            let cut = lowered(used, i, taken);
            let behind = cascade(cut, far_end(used[i], direction), taken, direction);
            total(behind) <= total(cut) ==> cascade(used, n, amount, direction) == cascade(
                behind,
                n,
                (amount - taken) as nat,
                direction,
            )
        }),
{
    reveal(cascade);
}

/// The used edges after up to `amount` has been taken off the edge from `a` to `b`,
/// and as much off the edges behind it and then off the edges before it.
pub open spec fn pruned(used: Seq<FlowEntry>, a: Node, b: Node, amount: nat) -> Seq<FlowEntry> {
    let taken = pruned_from(used, a, b, amount);
    let cut = lowered(used, place_of(used, a, b), taken);
    let forward = cascade(cut, b, taken, PruneDirection::Forwards);
    cascade(forward, a, taken, PruneDirection::Backwards)
}

/// The place of the smallest entry that has `n` at its near end, if there is one.
fn smallest_edge_at(used_edges: &FlowMap, n: &Node, direction: PruneDirection) -> (r: Option<usize>)
    requires
        used_edges.wf(),
    ensures
        r is None <==> forall|j: int|
            0 <= j < used_edges@.len() ==> near_end(#[trigger] used_edges@[j], direction) != *n,
        r is Some ==> is_smallest_at(used_edges@, *n, direction, r->0 as int),
{
    let mut best: Option<usize> = None;
    let mut j: usize = 0;
    while j < used_edges.len()
        invariant
            j <= used_edges@.len(),
            used_edges.wf(),
            best is None ==> forall|k: int|
                0 <= k < j ==> near_end(#[trigger] used_edges@[k], direction) != *n,
            best is Some ==> {
                let i = best->0 as int;
                &&& 0 <= i < j
                &&& near_end(used_edges@[i], direction) == *n
                &&& forall|k: int|
                    0 <= k < j && near_end(#[trigger] used_edges@[k], direction) == *n && k != i
                        ==> edge_smaller(
                        used_edges@[i].capacity,
                        far_end(used_edges@[i], direction),
                        used_edges@[k].capacity,
                        far_end(used_edges@[k], direction),
                    )
            },
        decreases used_edges@.len() - j,
    {
        let e = used_edges.entry_at(j);
        let (near, far) = match direction {
            PruneDirection::Forwards => (e.from, e.to),
            PruneDirection::Backwards => (e.to, e.from),
        };
        if near == *n {
            match best {
                None => {
                    best = Some(j);
                },
                Some(i) => {
                    let b = used_edges.entry_at(i);
                    let b_far = match direction {
                        PruneDirection::Forwards => b.to,
                        PruneDirection::Backwards => b.from,
                    };
                    proof {
                        if e.capacity@ == b.capacity@ {
                            U256::lemma_view_injective(e.capacity, b.capacity);
                        }
                        // two entries with the same near end have different far ends
                        assert(!(used_edges@[i as int].from == used_edges@[j as int].from
                            && used_edges@[i as int].to == used_edges@[j as int].to));
                        lemma_node_order_total(far, b_far);
                    }
                    if e.capacity < b.capacity || (e.capacity == b.capacity && node_before(
                        &far,
                        &b_far,
                    )) {
                        proof {
                            assert forall|k: int|
                                0 <= k < j + 1 && near_end(#[trigger] used_edges@[k], direction) == *n
                                    && k != j implies edge_smaller(
                                e.capacity,
                                far,
                                used_edges@[k].capacity,
                                far_end(used_edges@[k], direction),
                            ) by {
                                if k != i {
                                    let o = used_edges@[k];
                                    assert(edge_smaller(
                                        b.capacity,
                                        b_far,
                                        o.capacity,
                                        far_end(o, direction),
                                    ));
                                    if e.capacity@ == b.capacity@ && b.capacity@ == o.capacity@ {
                                        lemma_node_order_transitive(far, b_far, far_end(o, direction));
                                    }
                                }
                            }
                        }
                        best = Some(j);
                    }
                },
            }
        }
        j += 1;
    }
    best
}

/// The smallest of the edges that leave `n`: its far end and its capacity.
fn smallest_edge_from(used_edges: &FlowMap, n: &Node) -> (r: Option<(Node, U256)>)
    requires
        used_edges.wf(),
    ensures
        r is None <==> forall|j: int|
            0 <= j < used_edges@.len() ==> (#[trigger] used_edges@[j]).from != *n,
        r is Some ==> exists|i: int|
            #[trigger] is_smallest_at(used_edges@, *n, PruneDirection::Forwards, i)
                && used_edges@[i].to == (r->0).0 && used_edges@[i].capacity == (r->0).1,
{
    match smallest_edge_at(used_edges, n, PruneDirection::Forwards) {
        Some(i) => {
            let e = used_edges.entry_at(i);
            assert(is_smallest_at(used_edges@, *n, PruneDirection::Forwards, i as int));
            Some((e.to, e.capacity))
        },
        None => {
            assert forall|j: int| 0 <= j < used_edges@.len() implies (#[trigger] used_edges@[j]).from
                != *n by {
                assert(near_end(used_edges@[j], PruneDirection::Forwards) != *n);
            }
            None
        },
    }
}

/// The smallest of the edges that arrive at `n`: its far end and its capacity.
fn smallest_edge_to(used_edges: &FlowMap, n: &Node) -> (r: Option<(Node, U256)>)
    requires
        used_edges.wf(),
    ensures
        r is None <==> forall|j: int|
            0 <= j < used_edges@.len() ==> (#[trigger] used_edges@[j]).to != *n,
        r is Some ==> exists|i: int|
            #[trigger] is_smallest_at(used_edges@, *n, PruneDirection::Backwards, i)
                && used_edges@[i].from == (r->0).0 && used_edges@[i].capacity == (r->0).1,
{
    match smallest_edge_at(used_edges, n, PruneDirection::Backwards) {
        Some(i) => {
            let e = used_edges.entry_at(i);
            assert(is_smallest_at(used_edges@, *n, PruneDirection::Backwards, i as int));
            Some((e.from, e.capacity))
        },
        None => {
            assert forall|j: int| 0 <= j < used_edges@.len() implies (#[trigger] used_edges@[j]).to
                != *n by {
                assert(near_end(used_edges@[j], PruneDirection::Backwards) != *n);
            }
            None
        },
    }
}

/// Whether no entry has the vertex at the end that the direction starts from.
pub open spec fn no_edge_at(used: Seq<FlowEntry>, m: Node, direction: PruneDirection) -> bool {
    forall|j: int| 0 <= j < used.len() ==> near_end(#[trigger] used[j], direction) != m
}

/// What a vertex has gained in the direction: how much less arrives at it over the
/// edges against the direction than leaves it over the edges in the direction,
/// compared with before, where `amount` was taken from the edges that lead to
/// `start`.
pub open spec fn gain(
    before: Seq<FlowEntry>,
    now: Seq<FlowEntry>,
    m: Node,
    start: Node,
    amount: nat,
    direction: PruneDirection,
) -> int {
    (match direction {
        PruneDirection::Forwards => net_out(now, m) - net_out(before, m),
        PruneDirection::Backwards => net_out(before, m) - net_out(now, m),
    }) + if m == start {
        amount as int
    } else {
        0
    }
}

/// Whether `amount`, taken from the edges that lead to `start`, has been handed on
/// in the direction as far as there were edges: no vertex is left with a gain but one
/// that has no edge in the direction, and no gain is more than the amount.
pub open spec fn handed_on(
    before: Seq<FlowEntry>,
    now: Seq<FlowEntry>,
    start: Node,
    amount: nat,
    direction: PruneDirection,
) -> bool {
    forall|m: Node|
        0 <= #[trigger] gain(before, now, m, start, amount, direction) <= amount && (gain(
            before,
            now,
            m,
            start,
            amount,
            direction,
        ) > 0 ==> no_edge_at(now, m, direction))
}

/// Whether a number has come no further from zero, has not changed its sign, and has
/// changed by no more than `amount`.
pub open spec fn eased(before: int, now: int, amount: int) -> bool {
    &&& before - amount <= now <= before + amount
    &&& now > before ==> now <= 0
    &&& now < before ==> now >= 0
}

/// Whether, at every vertex, what leaves it less what arrives at it has come no
/// further from zero, has not changed its sign, and has changed by no more than
/// `amount`. Where as much arrived at a vertex as left it, that is still so.
pub open spec fn flow_eased(before: Seq<FlowEntry>, now: Seq<FlowEntry>, amount: int) -> bool {
    forall|m: Node| eased(#[trigger] net_out(before, m), net_out(now, m), amount)
}

/// What has eased twice has eased by the sum.
pub proof fn lemma_flow_eased_twice(
    a: Seq<FlowEntry>,
    b: Seq<FlowEntry>,
    c: Seq<FlowEntry>,
    x: int,
    y: int,
)
    requires
        flow_eased(a, b, x),
        flow_eased(b, c, y),
    ensures
        flow_eased(a, c, x + y),
{
    assert forall|m: Node| eased(#[trigger] net_out(a, m), net_out(c, m), x + y) by {
        assert(eased(net_out(a, m), net_out(b, m), x));
        assert(eased(net_out(b, m), net_out(c, m), y));
    }
}

/// Taking an amount off an entry takes it from what leaves the first vertex of the
/// entry and from what arrives at its second.
pub proof fn lemma_lowered_net_out(used: Seq<FlowEntry>, i: int, by: nat, m: Node)
    requires
        0 <= i < used.len(),
        by <= used[i].capacity@,
    ensures
        net_out(lowered(used, i, by), m) == net_out(used, m) - (if used[i].from == m {
            by as int
        } else {
            0
        }) + (if used[i].to == m {
            by as int
        } else {
            0
        }),
{
    if used[i].capacity@ <= by {
        lemma_net_out_remove(used, i, m);
    } else {
        let rest = (used[i].capacity@ - by) as nat;
        used[i].capacity.lemma_limbs();
        U256::lemma_from_nat(rest);
        lemma_net_out_update(used, i, FlowEntry { capacity: U256::from_nat(rest), ..used[i] }, m);
    }
}

/// A vertex without an edge in a direction has none after edges have been reduced.
pub proof fn lemma_no_edge_persists(
    before: Seq<FlowEntry>,
    now: Seq<FlowEntry>,
    m: Node,
    direction: PruneDirection,
)
    requires
        reduced(before, now),
        keys_unique(now),
        all_positive(now),
        no_edge_at(before, m, direction),
    ensures
        no_edge_at(now, m, direction),
{
    assert forall|j: int| 0 <= j < now.len() implies near_end(#[trigger] now[j], direction)
        != m by {
        lemma_place(now, j);
        assert(capacity_of(now, now[j].from, now[j].to) <= capacity_of(
            before,
            now[j].from,
            now[j].to,
        ));
        let k = place_of(before, now[j].from, now[j].to);
        assert(near_end(before[k], direction) != m);
    }
}

/// Nothing leaves a vertex without an edge that leaves it, and nothing arrives at a
/// vertex without an edge that arrives at it.
pub proof fn lemma_net_out_sign(used: Seq<FlowEntry>, m: Node, direction: PruneDirection)
    requires
        no_edge_at(used, m, direction),
    ensures
        direction == PruneDirection::Forwards ==> net_out(used, m) <= 0,
        direction == PruneDirection::Backwards ==> net_out(used, m) >= 0,
    decreases used.len(),
{
    if used.len() > 0 {
        let init = used.drop_last();
        assert forall|j: int| 0 <= j < init.len() implies near_end(#[trigger] init[j], direction)
            != m by {
            assert(init[j] == used[j]);
        }
        lemma_net_out_sign(init, m, direction);
        assert(near_end(used[used.len() - 1], direction) != m);
    }
}

/// Where an amount has been handed on as far as a vertex, and the next edge there has
/// given up `taken`, which has been handed on from its far end, the amount and
/// `taken` have been handed on.
proof fn lemma_handed_on_further(
    start_state: Seq<FlowEntry>,
    before: Seq<FlowEntry>,
    cut: Seq<FlowEntry>,
    after: Seq<FlowEntry>,
    n: Node,
    w: Node,
    taken: nat,
    amount: nat,
    direction: PruneDirection,
)
    requires
        handed_on(start_state, before, n, amount, direction),
        handed_on(cut, after, w, taken, direction),
        forall|m: Node| #[trigger]
            gain(before, cut, m, n, taken, direction) == if m == w {
                taken as int
            } else {
                0
            },
        reduced(before, after),
        keys_unique(after),
        all_positive(after),
    ensures
        handed_on(start_state, after, n, amount + taken, direction),
{
    assert forall|m: Node|
        0 <= #[trigger] gain(start_state, after, m, n, amount + taken, direction) <= amount
            + taken && (gain(start_state, after, m, n, amount + taken, direction) > 0
            ==> no_edge_at(after, m, direction)) by {
        let g0 = gain(start_state, before, m, n, amount, direction);
        let g1 = gain(cut, after, m, w, taken, direction);
        let step = gain(before, cut, m, n, taken, direction);
        assert(0 <= g0 <= amount);
        assert(0 <= g1 <= taken);
        assert(gain(start_state, after, m, n, amount + taken, direction) == g0 + g1);
        if g0 > 0 {
            lemma_no_edge_persists(before, after, m, direction);
        }
    }
}

/// Takes `reduction` off what is recorded for the pair, and takes the entry out
/// where nothing is left.
fn reduce_capacity(used_edges: &mut FlowMap, a: &Node, b: &Node, reduction: &U256)
    requires
        old(used_edges).wf(),
        all_positive(old(used_edges)@),
        has_entry(old(used_edges)@, *a, *b),
        reduction@ <= capacity_of(old(used_edges)@, *a, *b),
    ensures
        final(used_edges).wf(),
        all_positive(final(used_edges)@),
        capacity_of(final(used_edges)@, *a, *b) == capacity_of(old(used_edges)@, *a, *b)
            - reduction@,
        forall|u: Node, v: Node|
            !(u == *a && v == *b) ==> #[trigger] capacity_of(final(used_edges)@, u, v)
                == capacity_of(old(used_edges)@, u, v),
        total(final(used_edges)@) == total(old(used_edges)@) - reduction@,
        final(used_edges)@.len() <= old(used_edges)@.len(),
        capacity_of(final(used_edges)@, *a, *b) == 0
            ==> final(used_edges)@.len() < old(used_edges)@.len(),
        final(used_edges)@ == lowered(
            old(used_edges)@,
            place_of(old(used_edges)@, *a, *b),
            reduction@,
        ),
        forall|m: Node| #[trigger]
            net_out(final(used_edges)@, m) == net_out(old(used_edges)@, m) - (if *a == m {
                reduction@ as int
            } else {
                0
            }) + (if *b == m {
                reduction@ as int
            } else {
                0
            }),
{
    let ghost before = used_edges@;
    match used_edges.find(a, b) {
        None => {},
        Some(i) => {
            proof {
                lemma_place(before, i as int);
            }
            let current = used_edges.entry_at(i).capacity;
            let rest = match current.checked_sub(*reduction) {
                Some(rest) => rest,
                None => current,
            };
            proof {
                current.lemma_limbs();
                U256::lemma_from_nat(rest@);
                U256::lemma_view_injective(rest, U256::from_nat(rest@));
            }
            if rest.is_zero() {
                used_edges.remove_at(i);
                proof {
                    assert forall|j: int| 0 <= j < used_edges@.len() implies (
                    #[trigger] used_edges@[j]).capacity@ > 0 by {
                        let j0 = if j < i { j } else { j + 1 };
                        assert(used_edges@[j] == before[j0]);
                    }
                }
            } else {
                used_edges.set_at(i, rest);
                proof {
                    assert forall|j: int| 0 <= j < used_edges@.len() implies (
                    #[trigger] used_edges@[j]).capacity@ > 0 by {
                        if j != i {
                            assert(used_edges@[j] == before[j]);
                        }
                    }
                }
            }
        },
    }
    proof {
        let i = place_of(before, *a, *b);
        lemma_place(before, i);
        assert(used_edges@ == lowered(before, i, reduction@));
        assert forall|m: Node| #[trigger]
            net_out(used_edges@, m) == net_out(before, m) - (if *a == m {
                reduction@ as int
            } else {
                0
            }) + (if *b == m {
                reduction@ as int
            } else {
                0
            }) by {
            lemma_lowered_net_out(before, i, reduction@, m);
        }
    }
}

/// Takes up to `flow_to_prune` off the edges at `n` in the given direction, the
/// smallest edge first, and follows each edge to its far end to take the same
/// amount off there.
fn prune_path(
    used_edges: &mut FlowMap,
    n: &Node,
    flow_to_prune: U256,
    direction: PruneDirection,
)
    requires
        old(used_edges).wf(),
        all_positive(old(used_edges)@),
    ensures
        final(used_edges).wf(),
        all_positive(final(used_edges)@),
        reduced(old(used_edges)@, final(used_edges)@),
        total(final(used_edges)@) <= total(old(used_edges)@),
        final(used_edges)@.len() <= old(used_edges)@.len(),
        final(used_edges)@ == cascade(old(used_edges)@, *n, flow_to_prune@, direction),
        handed_on(old(used_edges)@, final(used_edges)@, *n, flow_to_prune@, direction),
    decreases total(old(used_edges)@),
{
    let mut left = flow_to_prune;
    proof {
        assert forall|m: Node| #[trigger]
            gain(used_edges@, used_edges@, m, *n, 0, direction) == 0 by {}
    }
    if left.is_zero() {
        proof {
            lemma_cascade_ends(used_edges@, *n, 0, direction);
        }
        return ;
    }
    loop
        invariant
            used_edges.wf(),
            all_positive(used_edges@),
            reduced(old(used_edges)@, used_edges@),
            total(used_edges@) <= total(old(used_edges)@),
            used_edges@.len() <= old(used_edges)@.len(),
            0 < left@ <= flow_to_prune@,
            cascade(old(used_edges)@, *n, flow_to_prune@, direction) == cascade(
                used_edges@,
                *n,
                left@,
                direction,
            ),
            handed_on(
                old(used_edges)@,
                used_edges@,
                *n,
                (flow_to_prune@ - left@) as nat,
                direction,
            ),
        decreases left@,
    {
        let found = match direction {
            PruneDirection::Forwards => smallest_edge_from(used_edges, n),
            PruneDirection::Backwards => smallest_edge_to(used_edges, n),
        };
        match found {
            None => {
                proof {
                    assert forall|i: int| !#[trigger] is_smallest_at(
                        used_edges@,
                        *n,
                        direction,
                        i,
                    ) by {}
                    lemma_cascade_ends(used_edges@, *n, left@, direction);
                    assert(no_edge_at(used_edges@, *n, direction));
                    assert forall|m: Node|
                        0 <= #[trigger] gain(
                            old(used_edges)@,
                            used_edges@,
                            m,
                            *n,
                            flow_to_prune@,
                            direction,
                        ) <= flow_to_prune@ && (gain(
                            old(used_edges)@,
                            used_edges@,
                            m,
                            *n,
                            flow_to_prune@,
                            direction,
                        ) > 0 ==> no_edge_at(used_edges@, m, direction)) by {
                        let g = gain(
                            old(used_edges)@,
                            used_edges@,
                            m,
                            *n,
                            (flow_to_prune@ - left@) as nat,
                            direction,
                        );
                        assert(0 <= g <= flow_to_prune@ - left@);
                    }
                }
                return ;
            },
            Some((next, edge_capacity)) => {
                let capacity = left.min(edge_capacity);
                let ghost before = used_edges@;
                let ghost i = choose|i: int|
                    #[trigger] is_smallest_at(before, *n, direction, i) && far_end(
                        before[i],
                        direction,
                    ) == next && before[i].capacity == edge_capacity;
                proof {
                    lemma_place(before, i);
                    let chosen = smallest_at(before, *n, direction)->0;
                    lemma_smallest_unique(before, *n, direction, i, chosen);
                }
                match direction {
                    PruneDirection::Forwards => reduce_capacity(used_edges, n, &next, &capacity),
                    PruneDirection::Backwards => reduce_capacity(used_edges, &next, n, &capacity),
                }
                let ghost cut = used_edges@;
                proof {
                    assert forall|m: Node| #[trigger]
                        gain(before, cut, m, *n, capacity@, direction) == if m == next {
                            capacity@ as int
                        } else {
                            0
                        } by {}
                }
                prune_path(used_edges, &next, capacity, direction);
                proof {
                    assert(reduced(before, used_edges@)) by {
                        assert forall|u: Node, v: Node| #[trigger]
                            capacity_of(used_edges@, u, v) <= capacity_of(before, u, v) by {
                            assert(capacity_of(used_edges@, u, v) <= capacity_of(cut, u, v));
                            assert(capacity_of(cut, u, v) <= capacity_of(before, u, v));
                        }
                    }
                    lemma_handed_on_further(
                        old(used_edges)@,
                        before,
                        cut,
                        used_edges@,
                        *n,
                        next,
                        capacity@,
                        (flow_to_prune@ - left@) as nat,
                        direction,
                    );
                    assert(cut == lowered(before, i, least(left@, before[i].capacity@)));
                    assert(total(cut) < total(before));
                    lemma_cascade_goes_on(before, *n, left@, direction);
                    assert forall|u: Node, v: Node| #[trigger]
                        capacity_of(used_edges@, u, v) <= capacity_of(old(used_edges)@, u, v) by {
                        assert(capacity_of(used_edges@, u, v) <= capacity_of(cut, u, v));
                        assert(capacity_of(cut, u, v) <= capacity_of(before, u, v));
                        assert(capacity_of(before, u, v) <= capacity_of(old(used_edges)@, u, v));
                    }
                }
                left = match left.checked_sub(capacity) {
                    Some(rest) => rest,
                    None => left,
                };
                if left.is_zero() {
                    proof {
                        lemma_cascade_ends(used_edges@, *n, 0, direction);
                    }
                    return ;
                }
            },
        }
    }
}

/// Takes up to `flow_to_prune` off the used edge `edge`, and as much off the edges
/// behind it and before it, so that no flow is left without an edge to run on.
/// Returns what of `flow_to_prune` the edge was too small for.
///
/// At every vertex, what leaves it less what arrives at it comes no further from
/// zero and changes by no more than what the edge gave up: where as much arrived as
/// left, that is still so.
pub fn prune_edge(used_edges: &mut FlowMap, edge: (&Node, &Node), flow_to_prune: U256) -> (r: U256)
    requires
        old(used_edges).wf(),
        all_positive(old(used_edges)@),
        has_entry(old(used_edges)@, *edge.0, *edge.1),
    ensures
        final(used_edges).wf(),
        all_positive(final(used_edges)@),
        reduced(old(used_edges)@, final(used_edges)@),
        r@ == flow_to_prune@ - pruned_from(old(used_edges)@, *edge.0, *edge.1, flow_to_prune@),
        capacity_of(final(used_edges)@, *edge.0, *edge.1) <= capacity_of(
            old(used_edges)@,
            *edge.0,
            *edge.1,
        ) - pruned_from(old(used_edges)@, *edge.0, *edge.1, flow_to_prune@),
        total(final(used_edges)@) <= total(old(used_edges)@) - pruned_from(
            old(used_edges)@,
            *edge.0,
            *edge.1,
            flow_to_prune@,
        ),
        final(used_edges)@.len() <= old(used_edges)@.len(),
        flow_to_prune@ >= capacity_of(old(used_edges)@, *edge.0, *edge.1)
            ==> final(used_edges)@.len() < old(used_edges)@.len(),
        final(used_edges)@ == pruned(old(used_edges)@, *edge.0, *edge.1, flow_to_prune@),
        flow_eased(old(used_edges)@, final(used_edges)@, flow_to_prune@ - r@),
{
    let ghost before = used_edges@;
    let edge_size = flow_to_prune.min(used_edges.get(edge.0, edge.1));
    reduce_capacity(used_edges, edge.0, edge.1, &edge_size);
    let ghost cut = used_edges@;
    prune_path(used_edges, edge.1, edge_size, PruneDirection::Forwards);
    let ghost forward = used_edges@;
    prune_path(used_edges, edge.0, edge_size, PruneDirection::Backwards);
    proof {
        assert forall|u: Node, v: Node| #[trigger]
            capacity_of(used_edges@, u, v) <= capacity_of(before, u, v) by {
            assert(capacity_of(used_edges@, u, v) <= capacity_of(forward, u, v));
            assert(capacity_of(forward, u, v) <= capacity_of(cut, u, v));
        }
        assert(capacity_of(used_edges@, *edge.0, *edge.1) <= capacity_of(forward, *edge.0, *edge.1));
        assert(capacity_of(forward, *edge.0, *edge.1) <= capacity_of(cut, *edge.0, *edge.1));
        assert forall|m: Node|
            eased(#[trigger] net_out(before, m), net_out(used_edges@, m), edge_size@ as int) by {
            let forwards = gain(cut, forward, m, *edge.1, edge_size@, PruneDirection::Forwards);
            let backwards = gain(
                forward,
                used_edges@,
                m,
                *edge.0,
                edge_size@,
                PruneDirection::Backwards,
            );
            assert(0 <= forwards <= edge_size@);
            assert(0 <= backwards <= edge_size@);
            assert(net_out(used_edges@, m) - net_out(before, m) == forwards - backwards);
            if forwards > 0 {
                lemma_no_edge_persists(forward, used_edges@, m, PruneDirection::Forwards);
                lemma_net_out_sign(used_edges@, m, PruneDirection::Forwards);
            }
            if backwards > 0 {
                lemma_net_out_sign(used_edges@, m, PruneDirection::Backwards);
            }
        }
        flow_to_prune.lemma_limbs();
    }
    match flow_to_prune.checked_sub(edge_size) {
        Some(rest) => rest,
        None => flow_to_prune,
    }
}

/// How much an edge gives up when `amount` is to be pruned from it: `amount`, or all
/// that the edge has where that is less.
pub open spec fn pruned_from(used: Seq<FlowEntry>, a: Node, b: Node, amount: nat) -> nat {
    if amount <= capacity_of(used, a, b) {
        amount
    } else {
        capacity_of(used, a, b)
    }
}

/// The used edges turned round: every entry with its two vertices exchanged.
fn reverse_edges(used_edges: &FlowMap) -> (reversed: FlowMap)
    requires
        used_edges.wf(),
    ensures
        reversed.wf(),
        reversed@.len() == used_edges@.len(),
        forall|j: int|
            0 <= j < used_edges@.len() ==> (#[trigger] reversed@[j]).from == used_edges@[j].to
                && reversed@[j].to == used_edges@[j].from && reversed@[j].capacity
                == used_edges@[j].capacity,
        forall|u: Node, v: Node| #[trigger]
            capacity_of(reversed@, u, v) == capacity_of(used_edges@, v, u),
{
    let mut reversed = FlowMap::new();
    let mut j: usize = 0;
    while j < used_edges.len()
        invariant
            j <= used_edges@.len(),
            used_edges.wf(),
            reversed.wf(),
            reversed@.len() == j,
            forall|k: int|
                0 <= k < j ==> (#[trigger] reversed@[k]).from == used_edges@[k].to && reversed@[k].to
                    == used_edges@[k].from && reversed@[k].capacity == used_edges@[k].capacity,
        decreases used_edges@.len() - j,
    {
        let e = used_edges.entry_at(j);
        proof {
            if has_entry(reversed@, e.to, e.from) {
                let k = place_of(reversed@, e.to, e.from);
                assert(!(used_edges@[k].from == used_edges@[j as int].from && used_edges@[k].to
                    == used_edges@[j as int].to));
            }
        }
        let ghost before = reversed@;
        reversed.set(&e.to, &e.from, e.capacity);
        proof {
            assert forall|k: int| 0 <= k < j + 1 implies (#[trigger] reversed@[k]).from
                == used_edges@[k].to && reversed@[k].to == used_edges@[k].from
                && reversed@[k].capacity == used_edges@[k].capacity by {
                if k < j {
                    assert(reversed@[k] == before[k]);
                }
            }
        }
        j += 1;
    }
    proof {
        assert forall|u: Node, v: Node| #[trigger]
            capacity_of(reversed@, u, v) == capacity_of(used_edges@, v, u) by {
            if has_entry(reversed@, u, v) {
                let k = place_of(reversed@, u, v);
                lemma_place(reversed@, k);
                lemma_place(used_edges@, k);
            }
            if has_entry(used_edges@, v, u) {
                let k = place_of(used_edges@, v, u);
                lemma_place(reversed@, k);
                lemma_place(used_edges@, k);
            }
        }
    }
    reversed
}

/// Whether the vertex is in the table, at no more than the given distance.
pub open spec fn listed_within(table: Seq<(Node, u64)>, n: Node, bound: int) -> bool {
    exists|k: int| 0 <= k < table.len() && (#[trigger] table[k]).0 == n && table[k].1 <= bound
}

/// Whether the vertex at place `i` of the table is one step further than an earlier
/// vertex that has a used edge to it.
pub open spec fn has_parent(used: Seq<FlowEntry>, table: Seq<(Node, u64)>, i: int) -> bool {
    exists|p: int|
        0 <= p < i && table[i].1 == (#[trigger] table[p]).1 + 1 && capacity_of(
            used,
            table[p].0,
            table[i].0,
        ) > 0
}

/// Whether the far end of the used edge at place `j`, where that edge leaves the
/// vertex at place `i` of the table, is in the table at no more than one step
/// further.
pub open spec fn edge_closed(
    used: Seq<FlowEntry>,
    table: Seq<(Node, u64)>,
    i: int,
    j: int,
) -> bool {
    used[j].from == table[i].0 && used[j].capacity@ > 0 ==> listed_within(
        table,
        used[j].to,
        table[i].1 + 1,
    )
}

/// Whether no vertex is in the table twice.
#[verifier::opaque]
pub open spec fn table_distinct(table: Seq<(Node, u64)>) -> bool {
    forall|i: int, j: int|
        0 <= i < j < table.len() ==> (#[trigger] table[i]).0 != (#[trigger] table[j]).0
}

/// Whether the table holds the vertices that can be reached from `source` over used
/// edges, each once, with the least number of edges it takes: the source at none,
/// every other vertex one step further than a vertex with an edge to it, and no
/// vertex more than one step further than any vertex with an edge to it.
pub open spec fn is_distance_table(
    used: Seq<FlowEntry>,
    source: Node,
    table: Seq<(Node, u64)>,
) -> bool {
    &&& table.len() >= 1
    &&& table[0] == (source, 0u64)
    &&& table_distinct(table)
    &&& forall|i: int| 1 <= i < table.len() ==> #[trigger] has_parent(used, table, i)
    &&& forall|i: int, j: int|
        0 <= i < table.len() && 0 <= j < used.len() ==> #[trigger] edge_closed(used, table, i, j)
}

/// The distance at which a vertex is in a table, if it is in it.
fn lookup(table: &Vec<(Node, u64)>, n: &Node) -> (r: Option<u64>)
    ensures
        r is None ==> forall|k: int| 0 <= k < table@.len() ==> (#[trigger] table@[k]).0 != *n,
        r is Some ==> exists|k: int|
            0 <= k < table@.len() && (#[trigger] table@[k]).0 == *n && table@[k].1 == r->0,
{
    let mut k: usize = 0;
    while k < table.len()
        invariant
            k <= table@.len(),
            forall|l: int| 0 <= l < k ==> (#[trigger] table@[l]).0 != *n,
        decreases table@.len() - k,
    {
        if table[k].0 == *n {
            return Some(table[k].1);
        }
        k += 1;
    }
    None
}

/// The vertices that can be reached from `source` over used edges, each with the
/// least number of edges it takes, in the order in which a search breadth first
/// reaches them.
fn distance_from_source(source: &Node, used_edges: &FlowMap) -> (table: Vec<(Node, u64)>)
    requires
        used_edges.wf(),
    ensures
        is_distance_table(used_edges@, *source, table@),
{
    let ghost used = used_edges@;
    let mut table: Vec<(Node, u64)> = Vec::new();
    table.push((*source, 0));
    proof {
        reveal(table_distinct);
    }
    let mut to_process: VecDeque<usize> = VecDeque::new();
    to_process.push_back(0);
    let ghost mut head: int = 0;
    while to_process.len() > 0
        invariant
            used == used_edges@,
            used_edges.wf(),
            0 <= head <= table@.len(),
            to_process@ =~= Seq::new((table@.len() - head) as nat, |k: int| (head + k) as usize),
            table@.len() >= 1,
            table@[0] == (*source, 0u64),
            table_distinct(table@),
            forall|i: int| 1 <= i < table@.len() ==> #[trigger] has_parent(used, table@, i),
            forall|i: int| 0 <= i < table@.len() ==> (#[trigger] table@[i]).1 <= i,
            forall|i: int, j: int|
                0 <= i <= j < table@.len() ==> (#[trigger] table@[i]).1 <= (#[trigger] table@[j]).1,
            head < table@.len() ==> forall|i: int|
                0 <= i < table@.len() ==> (#[trigger] table@[i]).1 <= table@[head].1 + 1,
            forall|i: int, j: int|
                0 <= i < head && 0 <= j < used.len() ==> #[trigger] edge_closed(used, table@, i, j),
        decreases usize::MAX - head,
    {
        let ghost waiting = to_process@;
        let place = match to_process.pop_front() {
            Some(place) => place,
            None => 0,
        };
        proof {
            let listed = Seq::new((table@.len() - head) as nat, |k: int| (head + k) as usize);
            assert(table@.len() == table.len());
            assert(waiting.len() == listed.len());
            assert(waiting[0] == listed[0]);
            assert(place == head);
        }
        let (node, distance) = table[place];
        let mut j: usize = 0;
        while j < used_edges.len()
            invariant
                used == used_edges@,
                used_edges.wf(),
                0 <= head < table@.len(),
                to_process@ =~= Seq::new(
                    (table@.len() - head - 1) as nat,
                    |k: int| (head + 1 + k) as usize,
                ),
                j <= used.len(),
                (node, distance) == table@[head],
                table@.len() >= 1,
                table@[0] == (*source, 0u64),
                table_distinct(table@),
                forall|i: int| 1 <= i < table@.len() ==> #[trigger] has_parent(used, table@, i),
                forall|i: int| 0 <= i < table@.len() ==> (#[trigger] table@[i]).1 <= i,
                forall|i: int, k: int|
                    0 <= i <= k < table@.len() ==> (#[trigger] table@[i]).1 <= (
                    #[trigger] table@[k]).1,
                forall|i: int|
                    0 <= i < table@.len() ==> (#[trigger] table@[i]).1 <= table@[head].1 + 1,
                forall|i: int, k: int|
                    0 <= i < head && 0 <= k < used.len() ==> #[trigger] edge_closed(
                        used,
                        table@,
                        i,
                        k,
                    ),
                forall|k: int| 0 <= k < j ==> #[trigger] edge_closed(used, table@, head, k),
            decreases used.len() - j,
        {
            let e = used_edges.entry_at(j);
            let ghost before = table@;
            if e.from == node && !e.capacity.is_zero() {
                match lookup(&table, &e.to) {
                    Some(d) => {
                        proof {
                            let k = choose|k: int|
                                0 <= k < table@.len() && (#[trigger] table@[k]).0 == e.to
                                    && table@[k].1 == d;
                            assert(table@[k].1 <= table@[head].1 + 1);
                            assert(listed_within(table@, e.to, table@[head].1 + 1));
                        }
                    },
                    None => {
                        let at = table.len();
                        assert(table@[head].1 <= head);
                        table.push((e.to, distance + 1));
                        to_process.push_back(at);
                        proof {
                            lemma_place(used, j as int);
                            assert(table_distinct(table@)) by {
                                reveal(table_distinct);
                            }
                            assert forall|i: int| 1 <= i < table@.len() implies #[trigger] has_parent(
                                used,
                                table@,
                                i,
                            ) by {
                                if i < before.len() {
                                    assert(has_parent(used, before, i));
                                    let p = choose|p: int|
                                        0 <= p < i && before[i].1 == (#[trigger] before[p]).1 + 1
                                            && capacity_of(used, before[p].0, before[i].0) > 0;
                                    assert(table@[p] == before[p]);
                                } else {
                                    assert(table@[head] == before[head]);
                                }
                            }
                            assert forall|i: int, k: int|
                                0 <= i <= k < table@.len() implies (#[trigger] table@[i]).1 <= (
                            #[trigger] table@[k]).1 by {
                                if k < before.len() {
                                    assert(before[i].1 <= before[k].1);
                                } else if i < before.len() {
                                    assert(before[i].1 <= before[head].1 + 1);
                                }
                            }
                            assert forall|i: int, k: int|
                                0 <= i < head && 0 <= k < used.len() implies #[trigger] edge_closed(
                                used,
                                table@,
                                i,
                                k,
                            ) by {
                                assert(edge_closed(used, before, i, k));
                                lemma_listed_grows(before, table@, used[k].to, before[i].1 + 1);
                            }
                            assert forall|k: int| 0 <= k < j implies #[trigger] edge_closed(
                                used,
                                table@,
                                head,
                                k,
                            ) by {
                                assert(edge_closed(used, before, head, k));
                                lemma_listed_grows(
                                    before,
                                    table@,
                                    used[k].to,
                                    before[head].1 + 1,
                                );
                            }
                            assert(table@[at as int].0 == e.to);
                            assert(listed_within(table@, e.to, table@[head].1 + 1));
                        }
                    },
                }
            }
            j += 1;
        }
        proof {
            head = head + 1;
        }
    }
    table
}

/// A vertex that is in a table within a distance is so in any longer table.
proof fn lemma_listed_grows(
    before: Seq<(Node, u64)>,
    now: Seq<(Node, u64)>,
    n: Node,
    bound: int,
)
    requires
        before.len() <= now.len(),
        forall|k: int| 0 <= k < before.len() ==> before[k] == now[k],
    ensures
        listed_within(before, n, bound) ==> listed_within(now, n, bound),
{
    if listed_within(before, n, bound) {
        let k = choose|k: int|
            0 <= k < before.len() && (#[trigger] before[k]).0 == n && before[k].1 <= bound;
        assert(now[k].0 == n);
    }
}

/// The vertices from which `sink` can be reached over used edges, each with the
/// least number of edges it takes.
fn distance_to_sink(sink: &Node, used_edges: &FlowMap) -> (table: Vec<(Node, u64)>)
    requires
        used_edges.wf(),
    ensures
        exists|reversed: Seq<FlowEntry>|
            #![trigger is_distance_table(reversed, *sink, table@)]
            is_distance_table(reversed, *sink, table@) && forall|u: Node, v: Node| #[trigger]
                capacity_of(reversed, u, v) == capacity_of(used_edges@, v, u),
{
    let reversed = reverse_edges(used_edges);
    let table = distance_from_source(sink, &reversed);
    assert(is_distance_table(reversed@, *sink, table@));
    table
}

/// The distance at which the vertex is in the table, where it is in it.
pub open spec fn distance_of(table: Seq<(Node, u64)>, n: Node) -> Option<u64> {
    if exists|k: int| 0 <= k < table.len() && (#[trigger] table[k]).0 == n {
        Some(table[choose|k: int| 0 <= k < table.len() && (#[trigger] table[k]).0 == n].1)
    } else {
        None
    }
}

/// The distance at which a vertex is in a table that holds no vertex twice.
fn distance_in(table: &Vec<(Node, u64)>, n: &Node) -> (r: Option<u64>)
    requires
        table_distinct(table@),
    ensures
        r == distance_of(table@, *n),
{
    let r = lookup(table, n);
    proof {
        reveal(table_distinct);
        if r is Some {
            let k = choose|k: int|
                0 <= k < table@.len() && (#[trigger] table@[k]).0 == *n && table@[k].1 == r->0;
            let c = choose|c: int| 0 <= c < table@.len() && (#[trigger] table@[c]).0 == *n;
            if c < k {
                assert(table@[c].0 != table@[k].0);
            } else if k < c {
                assert(table@[k].0 != table@[c].0);
            }
        }
    }
    r
}

/// A used edge with the length of the shortest way from the source to the sink that
/// runs over it.
#[derive(Debug, Clone, Copy, PartialEq, Eq, Structural)]
pub struct RankedEdge {
    pub length: u128,
    pub from: Node,
    pub to: Node,
}

/// The rank of a used edge: the distance of its first vertex from the source, one
/// for the edge, and the distance of its second vertex to the sink. An edge has no
/// rank where either distance is missing.
pub open spec fn rank_of(
    from_source: Seq<(Node, u64)>,
    to_sink: Seq<(Node, u64)>,
) -> spec_fn(FlowEntry) -> Option<RankedEdge> {
    |e: FlowEntry|
        match (distance_of(from_source, e.from), distance_of(to_sink, e.to)) {
            (Some(a), Some(b)) => Some(
                RankedEdge { length: (a + 1 + b) as u128, from: e.from, to: e.to },
            ),
            _ => None,
        }
}

/// The used edges that lie on a way from the source to the sink, in their order,
/// each with the length of the shortest such way.
fn rank_edges(
    used_edges: &FlowMap,
    from_source: &Vec<(Node, u64)>,
    to_sink: &Vec<(Node, u64)>,
) -> (ranks: Vec<RankedEdge>)
    requires
        table_distinct(from_source@),
        table_distinct(to_sink@),
    ensures
        ranks@ == used_edges@.filter_map(rank_of(from_source@, to_sink@)),
{
    let ghost rank = rank_of(from_source@, to_sink@);
    let mut ranks: Vec<RankedEdge> = Vec::new();
    let mut j: usize = 0;
    while j < used_edges.len()
        invariant
            j <= used_edges@.len(),
            table_distinct(from_source@),
            table_distinct(to_sink@),
            rank == rank_of(from_source@, to_sink@),
            ranks@ == used_edges@.take(j as int).filter_map(rank),
        decreases used_edges@.len() - j,
    {
        let e = used_edges.entry_at(j);
        proof {
            assert(used_edges@.take(j + 1).drop_last() =~= used_edges@.take(j as int));
        }
        match (distance_in(from_source, &e.from), distance_in(to_sink, &e.to)) {
            (Some(a), Some(b)) => {
                ranks.push(RankedEdge { length: a as u128 + 1 + b as u128, from: e.from, to: e.to });
            },
            _ => {},
        }
        j += 1;
    }
    assert(used_edges@.take(j as int) =~= used_edges@);
    ranks
}

/// Whether the tables hold the distances from the source and to the sink over the
/// used edges, the second over the used edges turned round.
pub open spec fn are_distances(
    used: Seq<FlowEntry>,
    source: Address,
    sink: Address,
    from_source: Seq<(Node, u64)>,
    to_sink: Seq<(Node, u64)>,
    reversed: Seq<FlowEntry>,
) -> bool {
    &&& is_distance_table(used, Node::Node(source), from_source)
    &&& is_distance_table(reversed, Node::Node(sink), to_sink)
    &&& forall|u: Node, v: Node| #[trigger] capacity_of(reversed, u, v) == capacity_of(used, v, u)
}

/// The used edges that lie on a way from the source to the sink, in their order,
/// each with the length of the shortest such way.
pub open spec fn ways_through(used: Seq<FlowEntry>, source: Address, sink: Address) -> Seq<
    RankedEdge,
> {
    let (from_source, to_sink, reversed) = choose|
        from_source: Seq<(Node, u64)>,
        to_sink: Seq<(Node, u64)>,
        reversed: Seq<FlowEntry>,
    | #[trigger] are_distances(used, source, sink, from_source, to_sink, reversed);
    used.filter_map(rank_of(from_source, to_sink))
}

/// A vertex that one table of distances holds is in every other table of distances
/// from the same vertex over the same capacities, at no greater distance.
proof fn lemma_listed_in_both(
    used: Seq<FlowEntry>,
    other: Seq<FlowEntry>,
    source: Node,
    table: Seq<(Node, u64)>,
    second: Seq<(Node, u64)>,
    i: int,
)
    requires
        is_distance_table(used, source, table),
        is_distance_table(other, source, second),
        forall|u: Node, v: Node| #[trigger] capacity_of(used, u, v) == capacity_of(other, u, v),
        0 <= i < table.len(),
    ensures
        listed_within(second, table[i].0, table[i].1 as int),
    decreases i,
{
    if i == 0 {
        assert(second[0].0 == table[0].0);
    } else {
        assert(has_parent(used, table, i));
        let p = choose|p: int|
            0 <= p < i && table[i].1 == (#[trigger] table[p]).1 + 1 && capacity_of(
                used,
                table[p].0,
                table[i].0,
            ) > 0;
        lemma_listed_in_both(used, other, source, table, second, p);
        let q = choose|q: int|
            0 <= q < second.len() && (#[trigger] second[q]).0 == table[p].0 && second[q].1
                <= table[p].1;
        assert(capacity_of(other, table[p].0, table[i].0) == capacity_of(
            used,
            table[p].0,
            table[i].0,
        ));
        let j = place_of(other, table[p].0, table[i].0);
        assert(edge_closed(other, second, q, j));
        let k = choose|k: int|
            0 <= k < second.len() && (#[trigger] second[k]).0 == table[i].0 && second[k].1
                <= second[q].1 + 1;
        assert(second[k].1 <= table[i].1);
    }
}

/// Two tables of distances from one vertex over the same capacities hold the same
/// vertices at the same distances.
pub proof fn lemma_distances_unique(
    used: Seq<FlowEntry>,
    other: Seq<FlowEntry>,
    source: Node,
    table: Seq<(Node, u64)>,
    second: Seq<(Node, u64)>,
    n: Node,
)
    requires
        is_distance_table(used, source, table),
        is_distance_table(other, source, second),
        forall|u: Node, v: Node| #[trigger] capacity_of(used, u, v) == capacity_of(other, u, v),
    ensures
        distance_of(table, n) == distance_of(second, n),
{
    reveal(table_distinct);
    if exists|k: int| 0 <= k < table.len() && (#[trigger] table[k]).0 == n {
        let i = choose|k: int| 0 <= k < table.len() && (#[trigger] table[k]).0 == n;
        lemma_listed_in_both(used, other, source, table, second, i);
        let k = choose|k: int|
            0 <= k < second.len() && (#[trigger] second[k]).0 == n && second[k].1 <= table[i].1;
        lemma_listed_in_both(other, used, source, second, table, k);
        let back = choose|b: int|
            0 <= b < table.len() && (#[trigger] table[b]).0 == n && table[b].1 <= second[k].1;
        assert(back == i) by {
            if back < i {
                assert(table[back].0 != table[i].0);
            }
            if i < back {
                assert(table[i].0 != table[back].0);
            }
        }
        let chosen = choose|c: int| 0 <= c < second.len() && (#[trigger] second[c]).0 == n;
        assert(chosen == k) by {
            if chosen < k {
                assert(second[chosen].0 != second[k].0);
            }
            if k < chosen {
                assert(second[k].0 != second[chosen].0);
            }
        }
    } else if exists|k: int| 0 <= k < second.len() && (#[trigger] second[k]).0 == n {
        let k = choose|k: int| 0 <= k < second.len() && (#[trigger] second[k]).0 == n;
        lemma_listed_in_both(other, used, source, second, table, k);
    }
}

/// Functions that agree on the items of a sequence pick and map the same of it.
proof fn lemma_filter_map_agrees(
    s: Seq<FlowEntry>,
    f: spec_fn(FlowEntry) -> Option<RankedEdge>,
    g: spec_fn(FlowEntry) -> Option<RankedEdge>,
)
    requires
        forall|j: int| 0 <= j < s.len() ==> f(#[trigger] s[j]) == g(s[j]),
    ensures
        s.filter_map(f) == s.filter_map(g),
    decreases s.len(),
{
    if s.len() > 0 {
        let init = s.drop_last();
        assert forall|j: int| 0 <= j < init.len() implies f(#[trigger] init[j]) == g(init[j]) by {
            assert(init[j] == s[j]);
        }
        lemma_filter_map_agrees(init, f, g);
        assert(f(s[s.len() - 1]) == g(s[s.len() - 1]));
    }
}

/// Whatever tables hold the distances, the used edges that lie on a way from the
/// source to the sink are the same, with the same lengths.
pub proof fn lemma_ways_through(
    used: Seq<FlowEntry>,
    source: Address,
    sink: Address,
    from_source: Seq<(Node, u64)>,
    to_sink: Seq<(Node, u64)>,
    reversed: Seq<FlowEntry>,
)
    requires
        are_distances(used, source, sink, from_source, to_sink, reversed),
    ensures
        used.filter_map(rank_of(from_source, to_sink)) == ways_through(used, source, sink),
{
    let (a, b, c) = choose|a: Seq<(Node, u64)>, b: Seq<(Node, u64)>, c: Seq<FlowEntry>|
        #[trigger] are_distances(used, source, sink, a, b, c);
    assert forall|j: int| 0 <= j < used.len() implies rank_of(from_source, to_sink)(
        #[trigger] used[j],
    ) == rank_of(a, b)(used[j]) by {
        lemma_distances_unique(used, used, Node::Node(source), from_source, a, used[j].from);
        assert forall|u: Node, v: Node| #[trigger] capacity_of(reversed, u, v) == capacity_of(
            c,
            u,
            v,
        ) by {
            assert(capacity_of(reversed, u, v) == capacity_of(used, v, u));
            assert(capacity_of(c, u, v) == capacity_of(used, v, u));
        }
        lemma_distances_unique(reversed, c, Node::Node(sink), to_sink, b, used[j].to);
    }
    lemma_filter_map_agrees(used, rank_of(from_source, to_sink), rank_of(a, b));
}

/// The used edges that lie on a way from `source` to `sink`, in their order, each
/// with the length of the shortest such way.
fn compute_edges_by_path_length(source: &Address, sink: &Address, used_edges: &FlowMap) -> (ranks:
    Vec<RankedEdge>)
    requires
        used_edges.wf(),
    ensures
        exists|from_source: Seq<(Node, u64)>, to_sink: Seq<(Node, u64)>, reversed: Seq<FlowEntry>|
            #![trigger is_distance_table(used_edges@, Node::Node(*source), from_source), is_distance_table(reversed, Node::Node(*sink), to_sink)]
            {
                &&& is_distance_table(used_edges@, Node::Node(*source), from_source)
                &&& is_distance_table(reversed, Node::Node(*sink), to_sink)
                &&& forall|u: Node, v: Node| #[trigger]
                    capacity_of(reversed, u, v) == capacity_of(used_edges@, v, u)
                &&& ranks@ == used_edges@.filter_map(rank_of(from_source, to_sink))
            },
        ranks@ == ways_through(used_edges@, *source, *sink),
{
    let from_source = distance_from_source(&Node::Node(*source), used_edges);
    let to_sink = distance_to_sink(&Node::Node(*sink), used_edges);
    let ranks = rank_edges(used_edges, &from_source, &to_sink);
    proof {
        let reversed = choose|reversed: Seq<FlowEntry>|
            #![trigger is_distance_table(reversed, Node::Node(*sink), to_sink@)]
            is_distance_table(reversed, Node::Node(*sink), to_sink@) && forall|u: Node, v: Node| #[trigger]
                capacity_of(reversed, u, v) == capacity_of(used_edges@, v, u);
        assert(is_distance_table(used_edges@, Node::Node(*source), from_source@)
            && is_distance_table(reversed, Node::Node(*sink), to_sink@));
        lemma_ways_through(used_edges@, *source, *sink, from_source@, to_sink@, reversed);
    }
    ranks
}

/// Whether a length is below a bound; every length is below no bound.
pub open spec fn below(length: u128, bound: Option<u128>) -> bool {
    bound is None || length < bound->0
}

/// Whether `length` is the largest length among the ranked edges that is below the
/// bound.
pub open spec fn is_longest_below(ranks: Seq<RankedEdge>, bound: Option<u128>, length: u128) -> bool {
    &&& below(length, bound)
    &&& exists|k: int| 0 <= k < ranks.len() && (#[trigger] ranks[k]).length == length
    &&& forall|k: int|
        0 <= k < ranks.len() && below((#[trigger] ranks[k]).length, bound) ==> ranks[k].length
            <= length
}

/// The largest length among the ranked edges that is below the bound, if there is
/// one.
pub open spec fn longest_below(ranks: Seq<RankedEdge>, bound: Option<u128>) -> Option<u128> {
    if exists|length: u128| #[trigger] is_longest_below(ranks, bound, length) {
        Some(choose|length: u128| #[trigger] is_longest_below(ranks, bound, length))
    } else {
        None
    }
}

/// The largest length among the ranked edges that is below the bound.
fn next_length_below(ranks: &Vec<RankedEdge>, bound: Option<u128>) -> (r: Option<u128>)
    ensures
        r is None <==> forall|k: int|
            0 <= k < ranks@.len() ==> !below((#[trigger] ranks@[k]).length, bound),
        r is Some ==> is_longest_below(ranks@, bound, r->0),
        r == longest_below(ranks@, bound),
{
    let mut best: Option<u128> = None;
    let mut k: usize = 0;
    while k < ranks.len()
        invariant
            k <= ranks@.len(),
            best is None <==> forall|l: int|
                0 <= l < k ==> !below((#[trigger] ranks@[l]).length, bound),
            best is Some ==> below(best->0, bound) && (exists|l: int|
                0 <= l < k && (#[trigger] ranks@[l]).length == best->0) && forall|l: int|
                0 <= l < k && below((#[trigger] ranks@[l]).length, bound) ==> ranks@[l].length
                    <= best->0,
        decreases ranks@.len() - k,
    {
        let length = ranks[k].length;
        let fits = match bound {
            None => true,
            Some(b) => length < b,
        };
        if fits {
            let better = match best {
                None => true,
                Some(b) => length > b,
            };
            if better {
                best = Some(length);
            }
        }
        k += 1;
    }
    proof {
        match best {
            Some(length) => {
                assert(is_longest_below(ranks@, bound, length));
                let chosen = choose|length: u128| #[trigger] is_longest_below(ranks@, bound, length);
                let k = choose|k: int| 0 <= k < ranks@.len() && (#[trigger] ranks@[k]).length == length;
                let c = choose|k: int| 0 <= k < ranks@.len() && (#[trigger] ranks@[k]).length == chosen;
                assert(ranks@[k].length <= chosen);
                assert(ranks@[c].length <= length);
            },
            None => {
                assert forall|length: u128| !#[trigger] is_longest_below(ranks@, bound, length) by {
                    if is_longest_below(ranks@, bound, length) {
                        let k = choose|k: int|
                            0 <= k < ranks@.len() && (#[trigger] ranks@[k]).length == length;
                        assert(!below(ranks@[k].length, bound));
                    }
                }
            },
        }
    }
    best
}

/// Whether the ranked edge at place `k` has the given length and is still a used
/// edge.
pub open spec fn in_group(
    used: Seq<FlowEntry>,
    ranks: Seq<RankedEdge>,
    length: u128,
    k: int,
) -> bool {
    0 <= k < ranks.len() && ranks[k].length == length && has_entry(used, ranks[k].from, ranks[k].to)
}

/// The entry of a pair that has one.
pub open spec fn entry_of(used: Seq<FlowEntry>, a: Node, b: Node) -> FlowEntry {
    used[place_of(used, a, b)]
}

/// Whether the pair is, of the ranked edges of the given length that are still used
/// edges, the one whose used edge is the first by capacity, then first vertex, then
/// second vertex.
pub open spec fn is_smallest_in_group(
    used: Seq<FlowEntry>,
    ranks: Seq<RankedEdge>,
    length: u128,
    s: Node,
    t: Node,
) -> bool {
    &&& has_entry(used, s, t)
    &&& exists|k: int|
        #[trigger] in_group(used, ranks, length, k) && ranks[k].from == s && ranks[k].to == t
    &&& forall|k: int|
        #[trigger] in_group(used, ranks, length, k) ==> (ranks[k].from == s && ranks[k].to == t)
            || entry_smaller(entry_of(used, s, t), entry_of(used, ranks[k].from, ranks[k].to))
}

/// The ranked edge of the given length whose used edge is the first, if one of that
/// length is still a used edge.
pub open spec fn smallest_in_group(used: Seq<FlowEntry>, ranks: Seq<RankedEdge>, length: u128) -> Option<
    (Node, Node),
> {
    if exists|s: Node, t: Node| #[trigger] is_smallest_in_group(used, ranks, length, s, t) {
        Some(choose|p: (Node, Node)| #[trigger] is_smallest_in_group(used, ranks, length, p.0, p.1))
    } else {
        None
    }
}

/// No two pairs are the smallest of a group.
pub proof fn lemma_smallest_in_group_unique(
    used: Seq<FlowEntry>,
    ranks: Seq<RankedEdge>,
    length: u128,
    a: (Node, Node),
    b: (Node, Node),
)
    requires
        is_smallest_in_group(used, ranks, length, a.0, a.1),
        is_smallest_in_group(used, ranks, length, b.0, b.1),
    ensures
        a == b,
{
    if a != b {
        let k = choose|k: int|
            #[trigger] in_group(used, ranks, length, k) && ranks[k].from == a.0 && ranks[k].to == a.1;
        let l = choose|l: int|
            #[trigger] in_group(used, ranks, length, l) && ranks[l].from == b.0 && ranks[l].to == b.1;
        assert(in_group(used, ranks, length, k));
        assert(in_group(used, ranks, length, l));
        assert(entry_smaller(entry_of(used, a.0, a.1), entry_of(used, b.0, b.1)));
        assert(entry_smaller(entry_of(used, b.0, b.1), entry_of(used, a.0, a.1)));
        lemma_entry_order(
            entry_of(used, a.0, a.1),
            entry_of(used, b.0, b.1),
            entry_of(used, a.0, a.1),
        );
    }
}

/// Of the ranked edges of the given length that are still used edges, the one whose
/// used edge is the first by capacity, then first vertex, then second vertex.
fn smallest_edge_in_set(all_edges: &FlowMap, ranks: &Vec<RankedEdge>, length: u128) -> (r: Option<
    (Node, Node),
>)
    requires
        all_edges.wf(),
    ensures
        r is None <==> forall|k: int| !#[trigger] in_group(all_edges@, ranks@, length, k),
        r is Some ==> is_smallest_in_group(all_edges@, ranks@, length, (r->0).0, (r->0).1),
        r == smallest_in_group(all_edges@, ranks@, length),
{
    let mut best: Option<FlowEntry> = None;
    let mut k: usize = 0;
    while k < ranks.len()
        invariant
            k <= ranks@.len(),
            all_edges.wf(),
            best is None <==> forall|l: int|
                0 <= l < k ==> !#[trigger] in_group(all_edges@, ranks@, length, l),
            best is Some ==> has_entry(all_edges@, best->0.from, best->0.to) && best->0
                == entry_of(all_edges@, best->0.from, best->0.to) && (exists|l: int|
                0 <= l < k && #[trigger] in_group(all_edges@, ranks@, length, l) && ranks@[l].from
                    == best->0.from && ranks@[l].to == best->0.to) && forall|l: int|
                0 <= l < k && #[trigger] in_group(all_edges@, ranks@, length, l) ==> (
                ranks@[l].from == best->0.from && ranks@[l].to == best->0.to) || entry_smaller(
                    best->0,
                    entry_of(all_edges@, ranks@[l].from, ranks@[l].to),
                ),
        decreases ranks@.len() - k,
    {
        let rank = ranks[k];
        if rank.length == length {
            match all_edges.find(&rank.from, &rank.to) {
                None => {},
                Some(i) => {
                    let e = all_edges.entry_at(i);
                    proof {
                        lemma_place(all_edges@, i as int);
                        assert(in_group(all_edges@, ranks@, length, k as int));
                    }
                    match best {
                        None => {
                            best = Some(e);
                        },
                        Some(b) => {
                            if entry_before(&e, &b) {
                                proof {
                                    assert forall|l: int|
                                        0 <= l < k + 1 && #[trigger] in_group(
                                            all_edges@,
                                            ranks@,
                                            length,
                                            l,
                                        ) implies (ranks@[l].from == e.from && ranks@[l].to == e.to)
                                        || entry_smaller(
                                        e,
                                        entry_of(all_edges@, ranks@[l].from, ranks@[l].to),
                                    ) by {
                                        if l < k {
                                            let o = entry_of(all_edges@, ranks@[l].from, ranks@[l].to);
                                            lemma_entry_order(e, b, o);
                                        }
                                    }
                                }
                                best = Some(e);
                            } else {
                                proof {
                                    lemma_entry_order(b, e, e);
                                }
                            }
                        },
                    }
                },
            }
        }
        k += 1;
    }
    match best {
        None => {
            proof {
                assert forall|s: Node, t: Node| !#[trigger] is_smallest_in_group(
                    all_edges@,
                    ranks@,
                    length,
                    s,
                    t,
                ) by {}
            }
            None
        },
        Some(e) => {
            proof {
                assert(is_smallest_in_group(all_edges@, ranks@, length, e.from, e.to));
                let chosen = choose|p: (Node, Node)| #[trigger]
                    is_smallest_in_group(all_edges@, ranks@, length, p.0, p.1);
                lemma_smallest_in_group_unique(all_edges@, ranks@, length, (e.from, e.to), chosen);
            }
            Some((e.from, e.to))
        },
    }
}

/// The number that a bound stands for when bounds are counted down.
pub open spec fn bound_measure(bound: Option<u128>) -> int {
    match bound {
        None => u128::MAX + 1,
        Some(b) => b as int,
    }
}

/// The used edges and what is still to prune after whole edges of the given length
/// have been taken out: as long as something is to prune and the smallest edge of
/// that length is no larger, that edge is pruned by all it has.
///
/// Pruning an edge by all it has leaves fewer entries. The definition asks for that
/// where it goes on, which is what shows that it comes to an end.
pub open spec fn whole_edges(
    used: Seq<FlowEntry>,
    ranks: Seq<RankedEdge>,
    length: u128,
    left: nat,
) -> (Seq<FlowEntry>, nat)
    decreases used.len(),
{
    match smallest_in_group(used, ranks, length) {
        Some((s, t)) if 0 < left && capacity_of(used, s, t) <= left => {
            let rest = pruned(used, s, t, left);
            if rest.len() < used.len() {
                whole_edges(rest, ranks, length, (left - capacity_of(used, s, t)) as nat)
            } else {
                (used, left)
            }
        },
        _ => (used, left),
    }
}

/// The used edges and what is still to prune after the ranked edges of the given
/// length from place `k` on have been pruned, each by what is to prune or by all it
/// has, until nothing is to prune.
pub open spec fn partial_edges(
    used: Seq<FlowEntry>,
    ranks: Seq<RankedEdge>,
    length: u128,
    k: int,
    left: nat,
) -> (Seq<FlowEntry>, nat)
    decreases ranks.len() - k,
{
    if k < 0 || k >= ranks.len() || left == 0 {
        (used, left)
    } else if ranks[k].length == length && has_entry(used, ranks[k].from, ranks[k].to) {
        partial_edges(
            pruned(used, ranks[k].from, ranks[k].to, left),
            ranks,
            length,
            k + 1,
            (left - pruned_from(used, ranks[k].from, ranks[k].to, left)) as nat,
        )
    } else {
        partial_edges(used, ranks, length, k + 1, left)
    }
}

/// The used edges and what is still to prune after whole edges have been taken out
/// for every length below the bound, the largest length first.
pub open spec fn whole_edges_below(
    used: Seq<FlowEntry>,
    ranks: Seq<RankedEdge>,
    bound: Option<u128>,
    left: nat,
) -> (Seq<FlowEntry>, nat)
    decreases bound_measure(bound),
{
    match longest_below(ranks, bound) {
        Some(length) if below(length, bound) => {
            let (rest, still) = whole_edges(used, ranks, length, left);
            whole_edges_below(rest, ranks, Some(length), still)
        },
        _ => (used, left),
    }
}

/// The used edges and what is still to prune after the edges of every length below
/// the bound have been pruned by what they have, the largest length first, until
/// nothing is to prune.
pub open spec fn partial_edges_below(
    used: Seq<FlowEntry>,
    ranks: Seq<RankedEdge>,
    bound: Option<u128>,
    left: nat,
) -> (Seq<FlowEntry>, nat)
    decreases bound_measure(bound),
{
    match longest_below(ranks, bound) {
        Some(length) if below(length, bound) && left > 0 => {
            let (rest, still) = partial_edges(used, ranks, length, 0, left);
            partial_edges_below(rest, ranks, Some(length), still)
        },
        _ => (used, left),
    }
}

/// The used edges and what could not be taken off after `amount` has been pruned
/// from them: whole edges first, for every length, and then, where something is
/// still to prune, parts of edges.
pub open spec fn pruned_flow(used: Seq<FlowEntry>, ranks: Seq<RankedEdge>, amount: nat) -> (
    Seq<FlowEntry>,
    nat,
) {
    if amount == 0 {
        (used, 0)
    } else {
        let (rest, still) = whole_edges_below(used, ranks, None, amount);
        partial_edges_below(rest, ranks, None, still)
    }
}

/// Takes whole edges of the given length out, the smallest first, as long as
/// something is to prune and the smallest is no larger, and returns what is still to
/// prune.
fn take_whole_edges(
    used_edges: &mut FlowMap,
    ranks: &Vec<RankedEdge>,
    length: u128,
    flow_to_prune: U256,
) -> (r: U256)
    requires
        old(used_edges).wf(),
        all_positive(old(used_edges)@),
    ensures
        final(used_edges).wf(),
        all_positive(final(used_edges)@),
        reduced(old(used_edges)@, final(used_edges)@),
        final(used_edges)@.len() <= old(used_edges)@.len(),
        r@ <= flow_to_prune@,
        total(final(used_edges)@) + (flow_to_prune@ - r@) <= total(old(used_edges)@),
        (final(used_edges)@, r@) == whole_edges(old(used_edges)@, ranks@, length, flow_to_prune@),
        flow_eased(old(used_edges)@, final(used_edges)@, flow_to_prune@ - r@),
{
    let mut left = flow_to_prune;
    let mut going = !left.is_zero();
    proof {
        assert forall|u: Node, v: Node| #[trigger]
            capacity_of(used_edges@, u, v) <= capacity_of(old(used_edges)@, u, v) by {}        assert(flow_eased(used_edges@, used_edges@, 0));
    }
    while going
        invariant
            used_edges.wf(),
            all_positive(used_edges@),
            reduced(old(used_edges)@, used_edges@),
            used_edges@.len() <= old(used_edges)@.len(),
            left@ <= flow_to_prune@,
            total(used_edges@) + (flow_to_prune@ - left@) <= total(old(used_edges)@),
            going ==> left@ > 0,
            flow_eased(old(used_edges)@, used_edges@, flow_to_prune@ - left@),
            whole_edges(old(used_edges)@, ranks@, length, flow_to_prune@) == whole_edges(
                used_edges@,
                ranks@,
                length,
                left@,
            ),
            !going ==> whole_edges(used_edges@, ranks@, length, left@) == (used_edges@, left@),
        decreases left@ + (if going { 1int } else { 0 }),
    {
        match smallest_edge_in_set(used_edges, ranks, length) {
            None => {
                going = false;
            },
            Some((s, t)) => {
                if used_edges.get(&s, &t) > left {
                    going = false;
                } else {
                    let ghost before = used_edges@;
                    proof {
                        let i = place_of(before, s, t);
                        lemma_place(before, i);
                        assert(before[i].capacity@ > 0);
                    }
                    let ghost had = left@;
                    left = prune_edge(used_edges, (&s, &t), left);
                    proof {
                        lemma_reduced_transitive(old(used_edges)@, before, used_edges@);
                        lemma_flow_eased_twice(
                            old(used_edges)@,
                            before,
                            used_edges@,
                            flow_to_prune@ - had,
                            had - left@,
                        );
                    }
                    if left.is_zero() {
                        going = false;
                    }
                }
            },
        }
    }
    left
}

/// Prunes the ranked edges of the given length in their order, each by what is to
/// prune or by all it has, until nothing is to prune, and returns what is still to
/// prune. Where that is anything, none of those edges is left.
fn take_partial_edges(
    used_edges: &mut FlowMap,
    ranks: &Vec<RankedEdge>,
    length: u128,
    flow_to_prune: U256,
) -> (r: U256)
    requires
        old(used_edges).wf(),
        all_positive(old(used_edges)@),
        flow_to_prune@ > 0,
    ensures
        final(used_edges).wf(),
        all_positive(final(used_edges)@),
        reduced(old(used_edges)@, final(used_edges)@),
        final(used_edges)@.len() <= old(used_edges)@.len(),
        r@ <= flow_to_prune@,
        total(final(used_edges)@) + (flow_to_prune@ - r@) <= total(old(used_edges)@),
        (final(used_edges)@, r@) == partial_edges(
            old(used_edges)@,
            ranks@,
            length,
            0,
            flow_to_prune@,
        ),
        r@ > 0 ==> forall|l: int|
            0 <= l < ranks@.len() && (#[trigger] ranks@[l]).length == length ==> capacity_of(
                final(used_edges)@,
                ranks@[l].from,
                ranks@[l].to,
            ) == 0,        flow_eased(old(used_edges)@, final(used_edges)@, flow_to_prune@ - r@),
{
    let mut left = flow_to_prune;
    let mut k: usize = 0;
    proof {
        assert forall|u: Node, v: Node| #[trigger]
            capacity_of(used_edges@, u, v) <= capacity_of(old(used_edges)@, u, v) by {}        assert(flow_eased(used_edges@, used_edges@, 0));
    }
    while k < ranks.len()
        invariant
            k <= ranks@.len(),
            used_edges.wf(),
            all_positive(used_edges@),
            reduced(old(used_edges)@, used_edges@),
            used_edges@.len() <= old(used_edges)@.len(),
            0 < left@ <= flow_to_prune@,
            total(used_edges@) + (flow_to_prune@ - left@) <= total(old(used_edges)@),
            flow_eased(old(used_edges)@, used_edges@, flow_to_prune@ - left@),
            k == ranks@.len() ==> partial_edges(used_edges@, ranks@, length, k as int, left@) == (
                used_edges@,
                left@,
            ),
            partial_edges(old(used_edges)@, ranks@, length, 0, flow_to_prune@) == partial_edges(
                used_edges@,
                ranks@,
                length,
                k as int,
                left@,
            ),
            forall|l: int|
                0 <= l < k && (#[trigger] ranks@[l]).length == length ==> capacity_of(
                    used_edges@,
                    ranks@[l].from,
                    ranks@[l].to,
                ) == 0,
        decreases ranks@.len() - k,
    {
        let rank = ranks[k];
        let ghost before = used_edges@;
        let ghost had = left@;
        if rank.length == length && used_edges.contains(&rank.from, &rank.to) {
            left = prune_edge(used_edges, (&rank.from, &rank.to), left);
            proof {
                lemma_reduced_transitive(old(used_edges)@, before, used_edges@);
                lemma_flow_eased_twice(
                    old(used_edges)@,
                    before,
                    used_edges@,
                    flow_to_prune@ - had,
                    had - left@,
                );
                assert forall|l: int| 0 <= l < ranks@.len() implies capacity_of(
                    used_edges@,
                    (#[trigger] ranks@[l]).from,
                    ranks@[l].to,
                ) <= capacity_of(before, ranks@[l].from, ranks@[l].to) by {}
                assert(partial_edges(before, ranks@, length, k as int, had) == partial_edges(
                    used_edges@,
                    ranks@,
                    length,
                    k + 1,
                    left@,
                ));
            }
            if left.is_zero() {
                proof {
                    assert(partial_edges(used_edges@, ranks@, length, k + 1, 0) == (
                        used_edges@,
                        0nat,
                    ));
                }
                return left;
            }
        } else {
            proof {
                assert(partial_edges(before, ranks@, length, k as int, had) == partial_edges(
                    before,
                    ranks@,
                    length,
                    k + 1,
                    had,
                ));
            }
        }
        k += 1;
    }
    left
}

/// Takes `flow_to_prune` off the flow that the used edges hold, and returns what it
/// could not take off. It goes through the used edges by the length of the shortest
/// way from the source to the sink over each of them, the longest first: first it
/// takes out whole edges, the smallest of a length first, as long as the smallest
/// is no larger than what is still to prune; then, if something is left to prune,
/// it goes through them once more and takes off what it can of each.
///
/// Where it returns anything, no used edge is left that lay on a way from the source
/// to the sink. Of a flow from the source to the sink that is no smaller than
/// `flow_to_prune` it takes off all that it is asked to. At every vertex, what
/// leaves it less what arrives at it comes no further from zero and changes by no
/// more than what was taken off. Where the used edges hold a circle, what is taken
/// off the circle counts as taken off, though no less leaves the source for it.
pub fn prune_flow(
    source: &Address,
    sink: &Address,
    flow_to_prune: U256,
    used_edges: &mut FlowMap,
) -> (r: U256)
    requires
        old(used_edges).wf(),
        all_positive(old(used_edges)@),
    ensures
        final(used_edges).wf(),
        all_positive(final(used_edges)@),
        reduced(old(used_edges)@, final(used_edges)@),
        final(used_edges)@.len() <= old(used_edges)@.len(),
        r@ <= flow_to_prune@,
        total(final(used_edges)@) + (flow_to_prune@ - r@) <= total(old(used_edges)@),
        flow_to_prune@ == 0 ==> final(used_edges)@ == old(used_edges)@,
        (final(used_edges)@, r@) == pruned_flow(
            old(used_edges)@,
            ways_through(old(used_edges)@, *source, *sink),
            flow_to_prune@,
        ),
        flow_eased(old(used_edges)@, final(used_edges)@, flow_to_prune@ - r@),
        forall|flow: nat| #[trigger]
            conserves(old(used_edges)@, *source, *sink, flow) && *source != *sink
                && flow_to_prune@ <= flow ==> r@ == 0,
        r@ > 0 ==> exists|
            from_source: Seq<(Node, u64)>,
            to_sink: Seq<(Node, u64)>,
            reversed: Seq<FlowEntry>,
        | #[trigger]
            lies_on_no_way(
                old(used_edges)@,
                final(used_edges)@,
                *source,
                *sink,
                from_source,
                to_sink,
                reversed,
            ),
{
    let mut left = flow_to_prune;
    proof {
        assert(flow_eased(used_edges@, used_edges@, 0));
    }
    if left.is_zero() {
        return left;
    }
    let ranks = compute_edges_by_path_length(source, sink, used_edges);
    let ghost (from_source, to_sink, reversed) = choose|
        from_source: Seq<(Node, u64)>,
        to_sink: Seq<(Node, u64)>,
        reversed: Seq<FlowEntry>,
    |
        #![trigger is_distance_table(old(used_edges)@, Node::Node(*source), from_source), is_distance_table(reversed, Node::Node(*sink), to_sink)]
        {
            &&& is_distance_table(old(used_edges)@, Node::Node(*source), from_source)
            &&& is_distance_table(reversed, Node::Node(*sink), to_sink)
            &&& forall|u: Node, v: Node| #[trigger]
                capacity_of(reversed, u, v) == capacity_of(old(used_edges)@, v, u)
            &&& ranks@ == old(used_edges)@.filter_map(rank_of(from_source, to_sink))
        };
    proof {
        assert forall|u: Node, v: Node| #[trigger]
            capacity_of(used_edges@, u, v) <= capacity_of(old(used_edges)@, u, v) by {}
    }
    let mut bound: Option<u128> = None;
    let mut groups_left = true;
    while groups_left
        invariant
            used_edges.wf(),
            all_positive(used_edges@),
            reduced(old(used_edges)@, used_edges@),
            used_edges@.len() <= old(used_edges)@.len(),
            flow_to_prune@ > 0,
            left@ <= flow_to_prune@,
            total(used_edges@) + (flow_to_prune@ - left@) <= total(old(used_edges)@),
            flow_eased(old(used_edges)@, used_edges@, flow_to_prune@ - left@),
            whole_edges_below(old(used_edges)@, ranks@, None, flow_to_prune@) == whole_edges_below(
                used_edges@,
                ranks@,
                bound,
                left@,
            ),
            !groups_left ==> longest_below(ranks@, bound) is None,
        decreases bound_measure(bound) + (if groups_left { 1int } else { 0 }),
    {
        match next_length_below(&ranks, bound) {
            None => {
                groups_left = false;
            },
            Some(length) => {
                let ghost before = used_edges@;
                let ghost had = left@;
                left = take_whole_edges(used_edges, &ranks, length, left);
                proof {
                    lemma_reduced_transitive(old(used_edges)@, before, used_edges@);
                    lemma_flow_eased_twice(
                        old(used_edges)@,
                        before,
                        used_edges@,
                        flow_to_prune@ - had,
                        had - left@,
                    );
                    assert(whole_edges_below(before, ranks@, bound, had) == whole_edges_below(
                        used_edges@,
                        ranks@,
                        Some(length),
                        left@,
                    ));
                }
                bound = Some(length);
            },
        }
    }
    let ghost whole = used_edges@;
    let ghost still = left@;
    if left.is_zero() {
        proof {
            assert(partial_edges_below(whole, ranks@, None, 0) == (whole, 0nat));
        }
        return left;
    }
    let mut bound: Option<u128> = None;
    let mut groups_left = true;
    while groups_left
        invariant
            used_edges.wf(),
            all_positive(used_edges@),
            reduced(old(used_edges)@, used_edges@),
            used_edges@.len() <= old(used_edges)@.len(),
            flow_to_prune@ > 0,
            0 < left@ <= flow_to_prune@,
            total(used_edges@) + (flow_to_prune@ - left@) <= total(old(used_edges)@),
            flow_eased(old(used_edges)@, used_edges@, flow_to_prune@ - left@),
            ranks@ == ways_through(old(used_edges)@, *source, *sink),
            whole_edges_below(old(used_edges)@, ranks@, None, flow_to_prune@) == (whole, still),
            partial_edges_below(whole, ranks@, None, still) == partial_edges_below(
                used_edges@,
                ranks@,
                bound,
                left@,
            ),
            forall|k: int|
                0 <= k < ranks@.len() && !below((#[trigger] ranks@[k]).length, bound)
                    ==> capacity_of(used_edges@, ranks@[k].from, ranks@[k].to) == 0,
            !groups_left ==> forall|k: int|
                0 <= k < ranks@.len() ==> !below((#[trigger] ranks@[k]).length, bound),
            !groups_left ==> longest_below(ranks@, bound) is None,
        decreases bound_measure(bound) + (if groups_left { 1int } else { 0 }),
    {
        match next_length_below(&ranks, bound) {
            None => {
                groups_left = false;
            },
            Some(length) => {
                let ghost before = used_edges@;
                let ghost had = left@;
                left = take_partial_edges(used_edges, &ranks, length, left);
                proof {
                    lemma_reduced_transitive(old(used_edges)@, before, used_edges@);
                    lemma_flow_eased_twice(
                        old(used_edges)@,
                        before,
                        used_edges@,
                        flow_to_prune@ - had,
                        had - left@,
                    );
                    assert(partial_edges_below(before, ranks@, bound, had) == partial_edges_below(
                        used_edges@,
                        ranks@,
                        Some(length),
                        left@,
                    ));
                }
                if left.is_zero() {
                    proof {
                        assert(partial_edges_below(used_edges@, ranks@, Some(length), 0) == (
                            used_edges@,
                            0nat,
                        ));
                    }
                    return left;
                }
                proof {
                    assert forall|l: int|
                        0 <= l < ranks@.len() && !below(
                            (#[trigger] ranks@[l]).length,
                            Some(length),
                        ) implies capacity_of(used_edges@, ranks@[l].from, ranks@[l].to) == 0 by {
                        if ranks@[l].length != length {
                            // a longer way: its edges were gone through before
                            if below(ranks@[l].length, bound) {
                                assert(ranks@[l].length <= length);
                            }
                            assert(capacity_of(used_edges@, ranks@[l].from, ranks@[l].to)
                                <= capacity_of(before, ranks@[l].from, ranks@[l].to));
                        }
                    }
                }
                bound = Some(length);
            },
        }
    }
    proof {
        assert forall|j: int|
            0 <= j < old(used_edges)@.len() && rank_of(from_source, to_sink)(
                #[trigger] old(used_edges)@[j],
            ) is Some implies capacity_of(
            used_edges@,
            old(used_edges)@[j].from,
            old(used_edges)@[j].to,
        ) == 0 by {
            lemma_ranked_is_listed(old(used_edges)@, rank_of(from_source, to_sink), j);
            let k = choose|k: int|
                0 <= k < ranks@.len() && Some(#[trigger] ranks@[k]) == rank_of(
                    from_source,
                    to_sink,
                )(old(used_edges)@[j]);
            assert(!below(ranks@[k].length, bound));
        }
        assert(lies_on_no_way(
            old(used_edges)@,
            used_edges@,
            *source,
            *sink,
            from_source,
            to_sink,
            reversed,
        ));
           assert forall|flow: nat| #[trigger]
            conserves(old(used_edges)@, *source, *sink, flow) && *source != *sink
                && flow_to_prune@ <= flow implies left@ == 0 by {
            if conserves(old(used_edges)@, *source, *sink, flow) && *source != *sink
                && flow_to_prune@ <= flow {
                let start = Node::Node(*source);
                lemma_nothing_leaves_source(
                    old(used_edges)@,
                    used_edges@,
                    *source,
                    *sink,
                    flow,
                    from_source,
                    to_sink,
                    reversed,
                );
                assert(no_edge_at(used_edges@, start, PruneDirection::Forwards)) by {
                    assert forall|j: int| 0 <= j < used_edges@.len() implies near_end(
                        #[trigger] used_edges@[j],
                        PruneDirection::Forwards,
                    ) != start by {
                        lemma_place(used_edges@, j);
                        if used_edges@[j].from == start {
                            assert(capacity_of(used_edges@, start, used_edges@[j].to) == 0);
                        }
                    }
                }
                lemma_net_out_sign(used_edges@, start, PruneDirection::Forwards);
                assert(eased(
                    net_out(old(used_edges)@, start),
                    net_out(used_edges@, start),
                    flow_to_prune@ - left@,
                ));
            }
        }
    }
    left
}

/// Every used edge that has a rank is among the ranked edges.
proof fn lemma_ranked_is_listed(
    used: Seq<FlowEntry>,
    rank: spec_fn(FlowEntry) -> Option<RankedEdge>,
    j: int,
)
    requires
        0 <= j < used.len(),
        rank(used[j]) is Some,
    ensures
        exists|k: int|
            0 <= k < used.filter_map(rank).len() && Some(#[trigger] used.filter_map(rank)[k])
                == rank(used[j]),
    decreases used.len(),
{
    let all = used.filter_map(rank);
    let init = used.drop_last();
    if j == used.len() - 1 {
        assert(all =~= init.filter_map(rank) + seq![rank(used[j])->0]);
        assert(Some(all[all.len() - 1]) == rank(used[j]));
    } else {
        lemma_ranked_is_listed(init, rank, j);
        let k = choose|k: int|
            0 <= k < init.filter_map(rank).len() && Some(#[trigger] init.filter_map(rank)[k])
                == rank(init[j]);
        assert(init[j] == used[j]);
        if rank(used.last()) is Some {
            assert(all =~= init.filter_map(rank) + seq![rank(used.last())->0]);
        } else {
            assert(all =~= init.filter_map(rank));
        }
        assert(Some(all[k]) == rank(used[j]));
    }
}

/// Whether the tables hold the distances from the source and to the sink over the
/// used edges `before`, and none of those edges that lay on a way from the source to
/// the sink is a used edge of `now`.
pub open spec fn lies_on_no_way(
    before: Seq<FlowEntry>,
    now: Seq<FlowEntry>,
    source: Address,
    sink: Address,
    from_source: Seq<(Node, u64)>,
    to_sink: Seq<(Node, u64)>,
    reversed: Seq<FlowEntry>,
) -> bool {
    &&& are_distances(before, source, sink, from_source, to_sink, reversed)
    &&& forall|j: int|
        0 <= j < before.len() && rank_of(from_source, to_sink)(#[trigger] before[j]) is Some
            ==> capacity_of(now, before[j].from, before[j].to) == 0
}

/// What has been reduced twice has been reduced.
pub proof fn lemma_reduced_transitive(a: Seq<FlowEntry>, b: Seq<FlowEntry>, c: Seq<FlowEntry>)
    requires
        reduced(a, b),
        reduced(b, c),
    ensures
        reduced(a, c),
{
    assert forall|u: Node, v: Node| #[trigger] capacity_of(c, u, v) <= capacity_of(a, u, v) by {
        assert(capacity_of(c, u, v) <= capacity_of(b, u, v));
        assert(capacity_of(b, u, v) <= capacity_of(a, u, v));
    }
}

/// The place of the entry that is first by capacity, then first vertex, then second
/// vertex, in a table that is not empty.
pub fn smallest_entry(used_edges: &FlowMap) -> (r: Option<usize>)
    requires
        used_edges.wf(),
    ensures
        r is None <==> used_edges@.len() == 0,
        r is Some ==> r->0 < used_edges@.len() && forall|j: int|
            0 <= j < used_edges@.len() && j != r->0 ==> entry_smaller(
                used_edges@[r->0 as int],
                #[trigger] used_edges@[j],
            ),
{
    if used_edges.len() == 0 {
        return None;
    }
    let mut best: usize = 0;
    let mut j: usize = 1;
    while j < used_edges.len()
        invariant
            1 <= j <= used_edges@.len(),
            used_edges.wf(),
            best < j,
            forall|k: int|
                0 <= k < j && k != best ==> entry_smaller(
                    used_edges@[best as int],
                    #[trigger] used_edges@[k],
                ),
        decreases used_edges@.len() - j,
    {
        let e = used_edges.entry_at(j);
        let b = used_edges.entry_at(best);
        proof {
            assert(!(used_edges@[best as int].from == used_edges@[j as int].from
                && used_edges@[best as int].to == used_edges@[j as int].to));
            lemma_entry_order(e, b, b);
        }
        if entry_before(&e, &b) {
            proof {
                assert forall|k: int| 0 <= k < j + 1 && k != j implies entry_smaller(
                    e,
                    #[trigger] used_edges@[k],
                ) by {
                    if k != best {
                        lemma_entry_order(e, b, used_edges@[k]);
                    }
                }
            }
            best = j;
        }
        j += 1;
    }
    Some(best)
}

} // verus!
