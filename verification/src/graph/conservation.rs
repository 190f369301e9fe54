use vstd::prelude::*;
use crate::graph::extract_transfers::{
    admissible, admissible_now, extraction, is_next, is_settled, starting_balances, transfer_of,
};
use crate::graph::adjacencies::{base_capacity, max_capacity};
use crate::graph::flow::{expected_net, residual};
use crate::graph::flow_map::{
    capacity_of, has_entry, keys_unique, lemma_place, lemma_push, net_out, place_of, FlowEntry,
};
use crate::graph::prune::{
    distance_of, eased, edge_closed, flow_eased, is_distance_table, lies_on_no_way, listed_within,
    rank_of, table_distinct,
};
use crate::graph::Node;
use crate::types::address::Address;
use crate::types::edge::{touches, Edge};
use crate::types::u256::U256;

verus! {

/// How often a vertex is in a list.
pub open spec fn count_of(nodes: Seq<Node>, x: Node) -> int
    decreases nodes.len(),
{
    if nodes.len() == 0 {
        0
    } else {
        count_of(nodes.drop_last(), x) + if nodes.last() == x {
            1int
        } else {
            0
        }
    }
}

/// One where the vertex is in the list, zero where it is not.
pub open spec fn inside(nodes: Seq<Node>, x: Node) -> int {
    if nodes.contains(x) {
        1
    } else {
        0
    }
}

/// What leaves the vertices of a list less what arrives at them, summed over the
/// vertices.
pub open spec fn net_sum(used: Seq<FlowEntry>, nodes: Seq<Node>) -> int
    decreases nodes.len(),
{
    if nodes.len() == 0 {
        0
    } else {
        net_sum(used, nodes.drop_last()) + net_out(used, nodes.last())
    }
}

/// What crosses the border of a list of vertices: what the entries carry out of the
/// list less what they carry into it.
pub open spec fn boundary(used: Seq<FlowEntry>, nodes: Seq<Node>) -> int
    decreases used.len(),
{
    if used.len() == 0 {
        0
    } else {
        boundary(used.drop_last(), nodes) + used.last().capacity@ * (inside(nodes, used.last().from)
            - inside(nodes, used.last().to))
    }
}

/// A vertex is once in a list without repetition that holds it, and never in one
/// that does not.
pub proof fn lemma_count_of(nodes: Seq<Node>, x: Node)
    requires
        nodes.no_duplicates(),
    ensures
        count_of(nodes, x) == inside(nodes, x),
    decreases nodes.len(),
{
    if nodes.len() > 0 {
        let init = nodes.drop_last();
        assert(init.no_duplicates()) by {
            assert forall|i: int, j: int|
                0 <= i < init.len() && 0 <= j < init.len() && i != j implies init[i] != init[j] by {
                assert(nodes[i] != nodes[j]);
            }
        }
        lemma_count_of(init, x);
        if init.contains(x) {
            let i = choose|i: int| 0 <= i < init.len() && init[i] == x;
            assert(nodes[i] == x);
            assert(nodes[i] != nodes[nodes.len() - 1]);
        }
        if nodes.contains(x) && nodes.last() != x {
            let i = choose|i: int| 0 <= i < nodes.len() && nodes[i] == x;
            assert(init[i] == x);
        }
        if nodes.last() == x {
            assert(nodes[nodes.len() - 1] == x);
        }
    }
}

/// One more entry adds to the sum over the vertices what it carries, as often as its
/// first vertex is listed, and takes off as much as often as its second is.
proof fn lemma_net_sum_entry(used: Seq<FlowEntry>, nodes: Seq<Node>)
    requires
        used.len() > 0,
    ensures
        net_sum(used, nodes) == net_sum(used.drop_last(), nodes) + used.last().capacity@ * (
        count_of(nodes, used.last().from) - count_of(nodes, used.last().to)),
    decreases nodes.len(),
{
    if nodes.len() > 0 {
        lemma_net_sum_entry(used, nodes.drop_last());
        let c = used.last().capacity@ as int;
        let a = count_of(nodes.drop_last(), used.last().from);
        let b = count_of(nodes.drop_last(), used.last().to);
        let x = if nodes.last() == used.last().from { 1int } else { 0 };
        let y = if nodes.last() == used.last().to { 1int } else { 0 };
        assert(c * ((a + x) - (b + y)) == c * (a - b) + c * x - c * y) by (nonlinear_arith);
        assert(c * x == if nodes.last() == used.last().from { c } else { 0 }) by (nonlinear_arith)
            requires
                x == (if nodes.last() == used.last().from { 1int } else { 0 }),
        ;
        assert(c * y == if nodes.last() == used.last().to { c } else { 0 }) by (nonlinear_arith)
            requires
                y == (if nodes.last() == used.last().to { 1int } else { 0 }),
        ;
    } else {
        assert(used.last().capacity@ * (0int - 0int) == 0) by (nonlinear_arith);
    }
}

/// No entries carry nothing.
proof fn lemma_net_sum_empty(nodes: Seq<Node>)
    ensures
        net_sum(Seq::<FlowEntry>::empty(), nodes) == 0,
    decreases nodes.len(),
{
    if nodes.len() > 0 {
        lemma_net_sum_empty(nodes.drop_last());
    }
}

/// What leaves the vertices of a list without repetition less what arrives at them
/// is what crosses the border of the list.
pub proof fn lemma_net_sum_is_boundary(used: Seq<FlowEntry>, nodes: Seq<Node>)
    requires
        nodes.no_duplicates(),
    ensures
        net_sum(used, nodes) == boundary(used, nodes),
    decreases used.len(),
{
    if used.len() == 0 {
        lemma_net_sum_empty(nodes);
        assert(used =~= Seq::<FlowEntry>::empty());
    } else {
        lemma_net_sum_is_boundary(used.drop_last(), nodes);
        lemma_net_sum_entry(used, nodes);
        lemma_count_of(nodes, used.last().from);
        lemma_count_of(nodes, used.last().to);
    }
}

/// Where the entries hold a flow from the source to the sink, what leaves the
/// vertices of a list without repetition less what arrives at them is the flow where
/// the list holds the source and not the sink, its negative where it holds the sink
/// and not the source, and nothing else.
pub proof fn lemma_net_sum_of_flow(
    used: Seq<FlowEntry>,
    nodes: Seq<Node>,
    source: Address,
    sink: Address,
    flow: nat,
)
    requires
        nodes.no_duplicates(),
        forall|n: Node| #[trigger] net_out(used, n) == expected_net(n, source, sink, flow),
    ensures
        net_sum(used, nodes) == flow * inside(nodes, Node::Node(source)) - flow * inside(
            nodes,
            Node::Node(sink),
        ),
{
    lemma_net_sum_counts(used, nodes, source, sink, flow);
    lemma_count_of(nodes, Node::Node(source));
    lemma_count_of(nodes, Node::Node(sink));
}

/// The sum over the vertices of a list counts the flow for the source and against
/// the sink, as often as the list holds them.
proof fn lemma_net_sum_counts(
    used: Seq<FlowEntry>,
    nodes: Seq<Node>,
    source: Address,
    sink: Address,
    flow: nat,
)
    requires
        forall|n: Node| #[trigger] net_out(used, n) == expected_net(n, source, sink, flow),
    ensures
        net_sum(used, nodes) == flow * count_of(nodes, Node::Node(source)) - flow * count_of(
            nodes,
            Node::Node(sink),
        ),
    decreases nodes.len(),
{
    if nodes.len() > 0 {
        lemma_net_sum_counts(used, nodes.drop_last(), source, sink, flow);
        let f = flow as int;
        let a = count_of(nodes.drop_last(), Node::Node(source));
        let b = count_of(nodes.drop_last(), Node::Node(sink));
        let x = if nodes.last() == Node::Node(source) { 1int } else { 0 };
        let y = if nodes.last() == Node::Node(sink) { 1int } else { 0 };
        assert(net_out(used, nodes.last()) == expected_net(nodes.last(), source, sink, flow));
        assert(f * (a + x) - f * (b + y) == f * a - f * b + f * x - f * y) by (nonlinear_arith);
        assert(f * x == if nodes.last() == Node::Node(source) { f } else { 0 }) by (nonlinear_arith)
            requires
                x == (if nodes.last() == Node::Node(source) { 1int } else { 0 }),
        ;
        assert(f * y == if nodes.last() == Node::Node(sink) { f } else { 0 }) by (nonlinear_arith)
            requires
                y == (if nodes.last() == Node::Node(sink) { 1int } else { 0 }),
        ;
    } else {
        assert(flow * 0 - flow * 0 == 0) by (nonlinear_arith);
    }
}

/// Where no entry leads into a list of vertices from outside, nothing crosses the
/// border of the list but outwards; and where nothing crosses it at all, no entry
/// that carries anything leads out of the list.
pub proof fn lemma_boundary_outwards(used: Seq<FlowEntry>, nodes: Seq<Node>)
    requires
        forall|j: int|
            0 <= j < used.len() && (#[trigger] used[j]).capacity@ > 0 && nodes.contains(used[j].to)
                ==> nodes.contains(used[j].from),
    ensures
        boundary(used, nodes) >= 0,
        boundary(used, nodes) == 0 ==> forall|j: int|
            0 <= j < used.len() && (#[trigger] used[j]).capacity@ > 0 && nodes.contains(
                used[j].from,
            ) ==> nodes.contains(used[j].to),
    decreases used.len(),
{
    if used.len() > 0 {
        let init = used.drop_last();
        assert forall|j: int|
            0 <= j < init.len() && (#[trigger] init[j]).capacity@ > 0 && nodes.contains(
                init[j].to,
            ) implies nodes.contains(init[j].from) by {
            assert(used[j] == init[j]);
        }
        lemma_boundary_outwards(init, nodes);
        let e = used.last();
        let c = e.capacity@ as int;
        let d = inside(nodes, e.from) - inside(nodes, e.to);
        assert(used[used.len() - 1] == e);
        assert(c * d >= 0 && (c * d == 0 ==> c == 0 || d == 0)) by (nonlinear_arith)
            requires
                c >= 0,
                c > 0 ==> d >= 0,
                -1 <= d <= 1,
        ;
        if boundary(used, nodes) == 0 {
            assert forall|j: int|
                0 <= j < used.len() && (#[trigger] used[j]).capacity@ > 0 && nodes.contains(
                    used[j].from,
                ) implies nodes.contains(used[j].to) by {
                if j < init.len() {
                    assert(init[j] == used[j]);
                }
            }
        }
    }
}

/// Whether the used edges carry a flow of the given size from the source to the
/// sink: as much arrives at every other vertex as leaves it.
pub open spec fn conserves(used: Seq<FlowEntry>, source: Address, sink: Address, flow: nat) -> bool {
    forall|n: Node| #[trigger] net_out(used, n) == expected_net(n, source, sink, flow)
}

/// The vertices of a table of distances, in its order.
pub open spec fn vertices_of(table: Seq<(Node, u64)>) -> Seq<Node> {
    Seq::new(table.len(), |i: int| table[i].0)
}

/// Where the entries hold a flow of more than nothing from the source to the sink,
/// every vertex that an entry with something on it leads to from a vertex from which
/// the sink can be reached is one from which the sink can be reached, and the source
/// is one of them.
pub proof fn lemma_flow_leads_to_sink(
    used: Seq<FlowEntry>,
    reversed: Seq<FlowEntry>,
    to_sink: Seq<(Node, u64)>,
    source: Address,
    sink: Address,
    flow: nat,
)
    requires
        keys_unique(used),
        flow > 0,
        forall|n: Node| #[trigger] net_out(used, n) == expected_net(n, source, sink, flow),
        is_distance_table(reversed, Node::Node(sink), to_sink),
        forall|u: Node, v: Node| #[trigger] capacity_of(reversed, u, v) == capacity_of(used, v, u),
    ensures
        vertices_of(to_sink).contains(Node::Node(source)),
        forall|j: int|
            0 <= j < used.len() && (#[trigger] used[j]).capacity@ > 0 && vertices_of(
                to_sink,
            ).contains(used[j].from) ==> vertices_of(to_sink).contains(used[j].to),
{
    let nodes = vertices_of(to_sink);
    assert(nodes.no_duplicates()) by {
        reveal(table_distinct);
        assert forall|i: int, j: int|
            0 <= i < nodes.len() && 0 <= j < nodes.len() && i != j implies nodes[i] != nodes[j] by {
            if i < j {
                assert(to_sink[i].0 != to_sink[j].0);
            } else {
                assert(to_sink[j].0 != to_sink[i].0);
            }
        }
    }
    assert(nodes[0] == Node::Node(sink));
    assert(nodes.contains(Node::Node(sink)));
    // no entry leads into the list from outside
    assert forall|j: int|
        0 <= j < used.len() && (#[trigger] used[j]).capacity@ > 0 && nodes.contains(
            used[j].to,
        ) implies nodes.contains(used[j].from) by {
        let u = used[j].from;
        let v = used[j].to;
        lemma_place(used, j);
        assert(capacity_of(reversed, v, u) == capacity_of(used, u, v));
        assert(has_entry(reversed, v, u));
        let back = place_of(reversed, v, u);
        let i = choose|i: int| 0 <= i < nodes.len() && nodes[i] == v;
        assert(edge_closed(reversed, to_sink, i, back));
        assert(listed_within(to_sink, u, to_sink[i].1 + 1));
        let k = choose|k: int|
            0 <= k < to_sink.len() && (#[trigger] to_sink[k]).0 == u && to_sink[k].1 <= to_sink[i].1
                + 1;
        assert(nodes[k] == u);
    }
    lemma_boundary_outwards(used, nodes);
    lemma_net_sum_is_boundary(used, nodes);
    lemma_net_sum_of_flow(used, nodes, source, sink, flow);
    let f = flow as int;
    let s = inside(nodes, Node::Node(source));
    assert(f * s - f * 1 >= 0 ==> s == 1) by (nonlinear_arith)
        requires
            f > 0,
            0 <= s <= 1,
    ;
    assert(f * 1 - f * 1 == 0) by (nonlinear_arith);
}

/// Where the used edges held a flow of more than nothing and none of them that lay
/// on a way from the source to the sink is left, no used edge leaves the source.
pub proof fn lemma_nothing_leaves_source(
    before: Seq<FlowEntry>,
    now: Seq<FlowEntry>,
    source: Address,
    sink: Address,
    flow: nat,
    from_source: Seq<(Node, u64)>,
    to_sink: Seq<(Node, u64)>,
    reversed: Seq<FlowEntry>,
)
    requires
        keys_unique(before),
        flow > 0,
        forall|n: Node| #[trigger] net_out(before, n) == expected_net(n, source, sink, flow),
        forall|u: Node, v: Node| #[trigger] capacity_of(now, u, v) <= capacity_of(before, u, v),
        lies_on_no_way(before, now, source, sink, from_source, to_sink, reversed),
    ensures
        forall|v: Node| #[trigger] capacity_of(now, Node::Node(source), v) == 0,
{
    lemma_flow_leads_to_sink(before, reversed, to_sink, source, sink, flow);
    let start = Node::Node(source);
    assert forall|v: Node| #[trigger] capacity_of(now, start, v) == 0 by {
        if capacity_of(now, start, v) > 0 {
            assert(capacity_of(now, start, v) <= capacity_of(before, start, v));
            let j = place_of(before, start, v);
            assert(has_entry(before, start, v));
            assert(before[j].capacity@ > 0);
            assert(vertices_of(to_sink).contains(before[j].to));
            let k = choose|k: int| 0 <= k < to_sink.len() && vertices_of(to_sink)[k] == v;
            assert(to_sink[k].0 == v);
            assert(from_source[0].0 == start);
            assert(distance_of(from_source, start) is Some);
            assert(distance_of(to_sink, v) is Some);
            assert(rank_of(from_source, to_sink)(before[j]) is Some);
        }
    }
}

/// Where an amount can be drawn from a source that is not the sink, a used edge
/// leaves the source.
pub proof fn lemma_first_transfer(
    used: Seq<FlowEntry>,
    source: Address,
    sink: Address,
    amount: U256,
)
    requires
        extraction(used, starting_balances(source, amount), sink) is Ok,
        source != sink,
        amount@ > 0,
    ensures
        exists|v: Node| #[trigger] has_entry(used, Node::Node(source), v),
{
    let balances = starting_balances(source, amount);
    assert(balances.contains_key(source));
    assert(!is_settled(balances, sink));
    let j = choose|j: int| #[trigger] is_next(used, balances, j);
    assert(is_next(used, balances, j));
    assert(admissible_now(used, balances, j));
    let account = transfer_of(used[j])->0.from;
    assert(account == source);
    assert(admissible(used, account, balances[account], j));
    assert(has_entry(used, Node::Node(source), used[j].from));
}

/// The list with the vertex in it: the list itself where it holds the vertex, else
/// the list with the vertex behind it.
pub open spec fn with_vertex(nodes: Seq<Node>, x: Node) -> Seq<Node> {
    if nodes.contains(x) {
        nodes
    } else {
        nodes.push(x)
    }
}

/// The vertices at the ends of the used edges, each once.
pub open spec fn vertices(used: Seq<FlowEntry>) -> Seq<Node>
    decreases used.len(),
{
    if used.len() == 0 {
        Seq::empty()
    } else {
        with_vertex(with_vertex(vertices(used.drop_last()), used.last().from), used.last().to)
    }
}

/// A list without repetition with a vertex in it has no repetition, holds the
/// vertex, and holds what the list held.
proof fn lemma_with_vertex(nodes: Seq<Node>, x: Node)
    requires
        nodes.no_duplicates(),
    ensures
        with_vertex(nodes, x).no_duplicates(),
        with_vertex(nodes, x).contains(x),
        forall|y: Node| nodes.contains(y) ==> #[trigger] with_vertex(nodes, x).contains(y),
{
    let all = with_vertex(nodes, x);
    if !nodes.contains(x) {
        assert(all[nodes.len() as int] == x);
        assert forall|y: Node| nodes.contains(y) implies #[trigger] all.contains(y) by {
            let i = choose|i: int| 0 <= i < nodes.len() && nodes[i] == y;
            assert(all[i] == y);
        }
    }
}

/// The list of the vertices of used edges has no repetition and holds both ends of
/// every used edge.
proof fn lemma_vertices(used: Seq<FlowEntry>)
    ensures
        vertices(used).no_duplicates(),
        forall|j: int|
            0 <= j < used.len() ==> vertices(used).contains((#[trigger] used[j]).from)
                && vertices(used).contains(used[j].to),
    decreases used.len(),
{
    if used.len() > 0 {
        let init = used.drop_last();
        lemma_vertices(init);
        let first = with_vertex(vertices(init), used.last().from);
        lemma_with_vertex(vertices(init), used.last().from);
        lemma_with_vertex(first, used.last().to);
        assert forall|j: int| 0 <= j < used.len() implies vertices(used).contains(
            (#[trigger] used[j]).from,
        ) && vertices(used).contains(used[j].to) by {
            if j < init.len() {
                assert(init[j] == used[j]);
                assert(first.contains(used[j].from));
                assert(first.contains(used[j].to));
            } else {
                assert(first.contains(used[j].from));
            }
        }
    }
}

/// Nothing crosses the border of a list that holds both ends of every used edge.
proof fn lemma_boundary_closed(used: Seq<FlowEntry>, nodes: Seq<Node>)
    requires
        forall|j: int|
            0 <= j < used.len() ==> nodes.contains((#[trigger] used[j]).from) && nodes.contains(
                used[j].to,
            ),
    ensures
        boundary(used, nodes) == 0,
    decreases used.len(),
{
    if used.len() > 0 {
        let init = used.drop_last();
        assert forall|j: int| 0 <= j < init.len() implies nodes.contains(
            (#[trigger] init[j]).from,
        ) && nodes.contains(init[j].to) by {
            assert(init[j] == used[j]);
        }
        lemma_boundary_closed(init, nodes);
        assert(nodes.contains(used[used.len() - 1].from) && nodes.contains(
            used[used.len() - 1].to,
        ));
        assert(used.last().capacity@ * (1int - 1int) == 0) by (nonlinear_arith);
    }
}

/// Where what leaves less what arrives is `a` at one vertex, `b` at another and
/// nothing elsewhere, the sum over a list counts `a` and `b` as often as the list
/// holds the two vertices.
proof fn lemma_net_sum_two(used: Seq<FlowEntry>, nodes: Seq<Node>, s: Node, t: Node, a: int, b: int)
    requires
        s != t,
        net_out(used, s) == a,
        net_out(used, t) == b,
        forall|n: Node| n != s && n != t ==> #[trigger] net_out(used, n) == 0,
    ensures
        net_sum(used, nodes) == a * count_of(nodes, s) + b * count_of(nodes, t),
    decreases nodes.len(),
{
    if nodes.len() > 0 {
        lemma_net_sum_two(used, nodes.drop_last(), s, t, a, b);
        let k = count_of(nodes.drop_last(), s);
        let l = count_of(nodes.drop_last(), t);
        let x = if nodes.last() == s { 1int } else { 0 };
        let y = if nodes.last() == t { 1int } else { 0 };
        assert(a * (k + x) + b * (l + y) == a * k + b * l + a * x + b * y) by (nonlinear_arith);
        assert(a * x == if nodes.last() == s { a } else { 0 }) by (nonlinear_arith)
            requires
                x == (if nodes.last() == s { 1int } else { 0 }),
        ;
        assert(b * y == if nodes.last() == t { b } else { 0 }) by (nonlinear_arith)
            requires
                y == (if nodes.last() == t { 1int } else { 0 }),
        ;
        if nodes.last() != s && nodes.last() != t {
            assert(net_out(used, nodes.last()) == 0);
        }
    } else {
        assert(a * 0 + b * 0 == 0) by (nonlinear_arith);
    }
}

/// Used edges that carried a flow from the source to the sink, and have eased by no
/// more than `amount`, carry a flow from the source to the sink: as much arrives at
/// every other vertex as leaves it, and what arrives at the sink is what leaves the
/// source, which is no more than the flow was and less by no more than `amount`.
pub proof fn lemma_eased_flow_conserves(
    before: Seq<FlowEntry>,
    now: Seq<FlowEntry>,
    source: Address,
    sink: Address,
    flow: nat,
    amount: int,
)
    requires
        conserves(before, source, sink, flow),
        flow_eased(before, now, amount),
        source != sink,
    ensures
        net_out(now, Node::Node(source)) >= 0,
        conserves(now, source, sink, net_out(now, Node::Node(source)) as nat),
        flow - amount <= net_out(now, Node::Node(source)) <= flow,
{
    let s = Node::Node(source);
    let t = Node::Node(sink);
    let a = net_out(now, s);
    let b = net_out(now, t);
    assert(net_out(before, s) == expected_net(s, source, sink, flow));
    assert(net_out(before, t) == expected_net(t, source, sink, flow));
    assert(eased(net_out(before, s), a, amount));
    assert(eased(net_out(before, t), b, amount));
    assert forall|n: Node| n != s && n != t implies #[trigger] net_out(now, n) == 0 by {
        assert(net_out(before, n) == expected_net(n, source, sink, flow));
        assert(eased(net_out(before, n), net_out(now, n), amount));
    }
    lemma_vertices(now);
    let first = with_vertex(vertices(now), s);
    lemma_with_vertex(vertices(now), s);
    let all = with_vertex(first, t);
    lemma_with_vertex(first, t);
    assert forall|j: int| 0 <= j < now.len() implies all.contains((#[trigger] now[j]).from)
        && all.contains(now[j].to) by {
        assert(first.contains(now[j].from));
        assert(first.contains(now[j].to));
    }
    assert(all.contains(s));
    lemma_boundary_closed(now, all);
    lemma_net_sum_is_boundary(now, all);
    lemma_net_sum_two(now, all, s, t, a, b);
    lemma_count_of(all, s);
    lemma_count_of(all, t);
    assert(a * 1 + b * 1 == a + b) by (nonlinear_arith);
    assert forall|n: Node| #[trigger]
        net_out(now, n) == expected_net(n, source, sink, a as nat) by {
        if n != s && n != t {
            assert(net_out(now, n) == 0);
        }
    }
}

/// The sum of the capacities of edges.
pub open spec fn capacity_sum(edges: Seq<Edge>) -> nat
    decreases edges.len(),
{
    if edges.len() == 0 {
        0
    } else {
        capacity_sum(edges.drop_last()) + edges.last().capacity@
    }
}

/// All that the capacity network lets an account send: the sum of the capacities of
/// its outgoing edges.
pub open spec fn sent_capacity(db: Seq<Edge>, a: Address) -> nat {
    capacity_sum(db.filter(touches(false, a)))
}

/// What the edges of an account give to the pair of the account and one of its
/// pools, and nothing for any other vertex.
pub open spec fn pool_capacity(edges: Seq<Edge>, a: Address, w: Node) -> nat {
    match w {
        Node::BalanceNode(b, t) => if a == b {
            max_capacity(edges, t)
        } else {
            0
        },
        _ => 0,
    }
}

/// The sum of what the edges of an account give to its pairs with the listed
/// vertices.
pub open spec fn pool_sum(edges: Seq<Edge>, a: Address, ws: Seq<Node>) -> nat
    decreases ws.len(),
{
    if ws.len() == 0 {
        0
    } else {
        pool_sum(edges, a, ws.drop_last()) + pool_capacity(edges, a, ws.last())
    }
}

/// One more edge adds to the pools of the listed vertices no more than its capacity,
/// as often as the pool of its token is listed.
proof fn lemma_pool_sum_edge(edges: Seq<Edge>, a: Address, ws: Seq<Node>)
    requires
        edges.len() > 0,
    ensures
        pool_sum(edges, a, ws) <= pool_sum(edges.drop_last(), a, ws) + edges.last().capacity@
            * count_of(ws, Node::BalanceNode(a, edges.last().token)),
        count_of(ws, Node::BalanceNode(a, edges.last().token)) >= 0,
    decreases ws.len(),
{
    let c = edges.last().capacity@ as int;
    let pool = Node::BalanceNode(a, edges.last().token);
    if ws.len() > 0 {
        lemma_pool_sum_edge(edges, a, ws.drop_last());
        let k = count_of(ws.drop_last(), pool);
        let x = if ws.last() == pool { 1int } else { 0 };
        assert(c * (k + x) == c * k + c * x) by (nonlinear_arith);
        assert(c * x == if ws.last() == pool { c } else { 0 }) by (nonlinear_arith)
            requires
                x == (if ws.last() == pool { 1int } else { 0 }),
        ;
    } else {
        assert(c * 0 == 0) by (nonlinear_arith);
    }
}

/// The pools of vertices that are listed once each hold no more than the edges have.
proof fn lemma_pool_sum_bound(edges: Seq<Edge>, a: Address, ws: Seq<Node>)
    requires
        ws.no_duplicates(),
    ensures
        pool_sum(edges, a, ws) <= capacity_sum(edges),
    decreases edges.len(),
{
    if edges.len() == 0 {
        assert(edges =~= Seq::<Edge>::empty());
        lemma_pool_sum_none(a, ws);
    } else {
        lemma_pool_sum_bound(edges.drop_last(), a, ws);
        lemma_pool_sum_edge(edges, a, ws);
        let pool = Node::BalanceNode(a, edges.last().token);
        lemma_count_of(ws, pool);
        let c = edges.last().capacity@ as int;
        let k = count_of(ws, pool);
        assert(c * k <= c) by (nonlinear_arith)
            requires
                0 <= k <= 1,
                c >= 0,
        ;
    }
}

/// No edges give nothing to any pool.
proof fn lemma_pool_sum_none(a: Address, ws: Seq<Node>)
    ensures
        pool_sum(Seq::<Edge>::empty(), a, ws) == 0,
    decreases ws.len(),
{
    if ws.len() > 0 {
        lemma_pool_sum_none(a, ws.drop_last());
    }
}

/// The far ends of the used edges that leave `n` for another vertex than `v`.
pub open spec fn targets(used: Seq<FlowEntry>, n: Node, v: Node) -> Seq<Node>
    decreases used.len(),
{
    if used.len() == 0 {
        Seq::empty()
    } else if used.last().from == n && used.last().to != v {
        targets(used.drop_last(), n, v).push(used.last().to)
    } else {
        targets(used.drop_last(), n, v)
    }
}

/// What the used edges carry from `n` to other vertices than `v`.
pub open spec fn sent_elsewhere(used: Seq<FlowEntry>, n: Node, v: Node) -> nat
    decreases used.len(),
{
    if used.len() == 0 {
        0
    } else if used.last().from == n && used.last().to != v {
        sent_elsewhere(used.drop_last(), n, v) + used.last().capacity@
    } else {
        sent_elsewhere(used.drop_last(), n, v)
    }
}

/// The far ends of the used edges that leave a vertex are listed once each, each is
/// the far end of such an edge, and `v` is not among them.
proof fn lemma_targets(used: Seq<FlowEntry>, n: Node, v: Node)
    requires
        keys_unique(used),
    ensures
        targets(used, n, v).no_duplicates(),
        !targets(used, n, v).contains(v),
        forall|w: Node| #[trigger] targets(used, n, v).contains(w) ==> has_entry(used, n, w),
    decreases used.len(),
{
    if used.len() > 0 {
        let init = used.drop_last();
        let e = used.last();
        assert(keys_unique(init)) by {
            assert forall|j: int, k: int| 0 <= j < k < init.len() implies !((#[trigger] init[j]).from
                == (#[trigger] init[k]).from && init[j].to == init[k].to) by {
                assert(!(used[j].from == used[k].from && used[j].to == used[k].to));
            }
        }
        lemma_targets(init, n, v);
        let before = targets(init, n, v);
        assert forall|w: Node| #[trigger] before.contains(w) implies has_entry(used, n, w) by {
            let j = choose|j: int| 0 <= j < init.len() && (#[trigger] init[j]).from == n && init[j].to == w;
            assert(used[j].from == n && used[j].to == w);
        }
        if e.from == n && e.to != v {
            let now = before.push(e.to);
            if before.contains(e.to) {
                let j = choose|j: int|
                    0 <= j < init.len() && (#[trigger] init[j]).from == n && init[j].to == e.to;
                assert(!(used[j].from == used[used.len() - 1].from && used[j].to == used[used.len()
                    - 1].to));
            }
            assert(now.no_duplicates()) by {
                assert forall|i: int, j: int|
                    0 <= i < now.len() && 0 <= j < now.len() && i != j implies now[i] != now[j] by {
                    if i < before.len() && j < before.len() {
                        assert(before[i] != before[j]);
                    } else if i < before.len() {
                        assert(before.contains(before[i]));
                    } else {
                        assert(before.contains(before[j]));
                    }
                }
            }
            assert forall|w: Node| #[trigger] now.contains(w) implies has_entry(used, n, w) by {
                let i = choose|i: int| 0 <= i < now.len() && now[i] == w;
                if i < before.len() {
                    assert(before.contains(before[i]));
                } else {
                    assert(used[used.len() - 1].from == n && used[used.len() - 1].to == w);
                }
            }
            if now.contains(v) {
                let i = choose|i: int| 0 <= i < now.len() && now[i] == v;
                assert(before.contains(before[i]));
            }
        }
    }
}

/// What used edges within the capacities carry from an account to other vertices
/// than `v` is no more than the pools at their far ends hold.
proof fn lemma_sent_elsewhere(db: Seq<Edge>, used: Seq<FlowEntry>, a: Address, v: Node)
    requires
        keys_unique(used),
        forall|u: Node, w: Node| #[trigger] capacity_of(used, u, w) <= base_capacity(db, u, w),
    ensures
        sent_elsewhere(used, Node::Node(a), v) <= pool_sum(
            db.filter(touches(false, a)),
            a,
            targets(used, Node::Node(a), v),
        ),
    decreases used.len(),
{
    if used.len() > 0 {
        let init = used.drop_last();
        let e = used.last();
        assert(keys_unique(init)) by {
            assert forall|j: int, k: int| 0 <= j < k < init.len() implies !((#[trigger] init[j]).from
                == (#[trigger] init[k]).from && init[j].to == init[k].to) by {
                assert(!(used[j].from == used[k].from && used[j].to == used[k].to));
            }
        }
        assert(init.push(e) =~= used);
        if has_entry(init, e.from, e.to) {
            let j = place_of(init, e.from, e.to);
            assert(!(used[j].from == used[used.len() - 1].from && used[j].to == used[used.len()
                - 1].to));
        }
        lemma_push(init, e);
        assert forall|u: Node, w: Node| #[trigger] capacity_of(init, u, w) <= base_capacity(
            db,
            u,
            w,
        ) by {
            assert(capacity_of(used, u, w) <= base_capacity(db, u, w));
        }
        lemma_sent_elsewhere(db, init, a, v);
        if e.from == Node::Node(a) && e.to != v {
            assert(capacity_of(used, e.from, e.to) <= base_capacity(db, e.from, e.to));
            assert(targets(used, Node::Node(a), v).drop_last() =~= targets(init, Node::Node(a), v));
        }
    }
}

/// What leaves a vertex less what arrives at it is no more than what the used edges
/// carry from it to other vertices than `v`, with what they carry to `v` and without
/// what they carry back from `v`.
proof fn lemma_net_out_bound(used: Seq<FlowEntry>, n: Node, v: Node)
    requires
        keys_unique(used),
        n != v,
    ensures
        net_out(used, n) + capacity_of(used, v, n) <= sent_elsewhere(used, n, v) + capacity_of(
            used,
            n,
            v,
        ),
    decreases used.len(),
{
    if used.len() > 0 {
        let init = used.drop_last();
        let e = used.last();
        assert(keys_unique(init)) by {
            assert forall|j: int, k: int| 0 <= j < k < init.len() implies !((#[trigger] init[j]).from
                == (#[trigger] init[k]).from && init[j].to == init[k].to) by {
                assert(!(used[j].from == used[k].from && used[j].to == used[k].to));
            }
        }
        assert(init.push(e) =~= used);
        if has_entry(init, e.from, e.to) {
            let j = place_of(init, e.from, e.to);
            assert(!(used[j].from == used[used.len() - 1].from && used[j].to == used[used.len()
                - 1].to));
        }
        lemma_push(init, e);
        lemma_net_out_bound(init, n, v);
        if e.from == n && e.to == v {
            assert(!has_entry(init, n, v));
        }
        if e.from == v && e.to == n {
            assert(!has_entry(init, v, n));
        }
    }
}

/// A flow and what can be added to it along an edge that leaves the source are
/// together no more than all that the capacity network lets the source send.
pub proof fn lemma_flow_within_sent_capacity(
    db: Seq<Edge>,
    used: Seq<FlowEntry>,
    source: Address,
    sink: Address,
    flow: nat,
    v: Node,
)
    requires
        keys_unique(used),
        forall|u: Node, w: Node| #[trigger] capacity_of(used, u, w) <= base_capacity(db, u, w),
        net_out(used, Node::Node(source)) == expected_net(Node::Node(source), source, sink, flow),
        source != sink,
        v != Node::Node(source),
    ensures
        flow + residual(db, used, Node::Node(source), v) <= sent_capacity(db, source),
{
    let n = Node::Node(source);
    let edges = db.filter(touches(false, source));
    let ws = targets(used, n, v);
    lemma_net_out_bound(used, n, v);
    lemma_sent_elsewhere(db, used, source, v);
    lemma_targets(used, n, v);
    let all = ws.push(v);
    assert(all.no_duplicates()) by {
        assert forall|i: int, j: int|
            0 <= i < all.len() && 0 <= j < all.len() && i != j implies all[i] != all[j] by {
            if i < ws.len() && j < ws.len() {
                assert(ws[i] != ws[j]);
            } else if i < ws.len() {
                assert(ws.contains(ws[i]));
            } else {
                assert(ws.contains(ws[j]));
            }
        }
    }
    assert(all.drop_last() =~= ws);
    lemma_pool_sum_bound(edges, source, all);
    assert(pool_capacity(edges, source, v) == base_capacity(db, n, v));
    assert(capacity_of(used, n, v) <= base_capacity(db, n, v));
    assert(capacity_of(used, v, n) <= base_capacity(db, v, n));
}

} // verus!
