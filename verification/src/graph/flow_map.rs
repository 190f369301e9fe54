use vstd::prelude::*;
use crate::graph::Node;
use crate::types::u256::U256;

verus! {

/// One entry of a table of capacities: what is recorded for the pair `from`, `to`.
#[derive(Debug, Eq, PartialEq, Structural, Clone, Copy)]
pub struct FlowEntry {
    pub from: Node,
    pub to: Node,
    pub capacity: U256,
}

/// Whether no pair of vertices has two entries.
pub open spec fn keys_unique(s: Seq<FlowEntry>) -> bool {
    forall|i: int, j: int|
        0 <= i < j < s.len() ==> !((#[trigger] s[i]).from == (#[trigger] s[j]).from && s[i].to
            == s[j].to)
}

/// Whether every entry records more than nothing.
pub open spec fn all_positive(s: Seq<FlowEntry>) -> bool {
    forall|i: int| 0 <= i < s.len() ==> (#[trigger] s[i]).capacity@ > 0
}

/// The entries that record more than nothing, in their order.
pub open spec fn nonzero_entries(s: Seq<FlowEntry>) -> Seq<FlowEntry> {
    s.filter(|e: FlowEntry| e.capacity@ != 0)
}

/// Whether the pair has an entry.
pub open spec fn has_entry(s: Seq<FlowEntry>, from: Node, to: Node) -> bool {
    exists|i: int| 0 <= i < s.len() && (#[trigger] s[i]).from == from && s[i].to == to
}

/// The place of the entry of the pair, where it has one.
pub open spec fn place_of(s: Seq<FlowEntry>, from: Node, to: Node) -> int {
    choose|i: int| 0 <= i < s.len() && (#[trigger] s[i]).from == from && s[i].to == to
}

/// What is recorded for the pair: the capacity of its entry, or nothing.
pub open spec fn capacity_of(s: Seq<FlowEntry>, from: Node, to: Node) -> nat {
    if has_entry(s, from, to) {
        s[place_of(s, from, to)].capacity@
    } else {
        0
    }
}

/// The sum of all that is recorded.
pub open spec fn total(s: Seq<FlowEntry>) -> nat
    decreases s.len(),
{
    if s.len() == 0 {
        0
    } else {
        total(s.drop_last()) + s.last().capacity@
    }
}

/// What leaves a vertex less what arrives at it, over all entries.
pub open spec fn net_out(s: Seq<FlowEntry>, n: Node) -> int
    decreases s.len(),
{
    if s.len() == 0 {
        0
    } else {
        let e = s.last();
        net_out(s.drop_last(), n) + (if e.from == n {
            e.capacity@ as int
        } else {
            0
        }) - (if e.to == n {
            e.capacity@ as int
        } else {
            0
        })
    }
}

/// In a table without double entries, the entry at a place is the entry of its pair.
pub proof fn lemma_place(s: Seq<FlowEntry>, i: int)
    requires
        keys_unique(s),
        0 <= i < s.len(),
    ensures
        has_entry(s, s[i].from, s[i].to),
        place_of(s, s[i].from, s[i].to) == i,
        capacity_of(s, s[i].from, s[i].to) == s[i].capacity@,
{
    let j = place_of(s, s[i].from, s[i].to);
    if i < j {
        assert(!(s[i].from == s[j].from && s[i].to == s[j].to));
    } else if j < i {
        assert(!(s[j].from == s[i].from && s[j].to == s[i].to));
    }
}

/// Changing the capacity at one place changes the sum by as much.
pub proof fn lemma_total_update(s: Seq<FlowEntry>, i: int, e: FlowEntry)
    requires
        0 <= i < s.len(),
    ensures
        total(s.update(i, e)) == total(s) - s[i].capacity@ + e.capacity@,
    decreases s.len(),
{
    let t = s.update(i, e);
    if i == s.len() - 1 {
        assert(t.drop_last() =~= s.drop_last());
    } else {
        lemma_total_update(s.drop_last(), i, e);
        assert(t.drop_last() =~= s.drop_last().update(i, e));
    }
}

/// Taking an entry out lowers the sum by its capacity.
pub proof fn lemma_total_remove(s: Seq<FlowEntry>, i: int)
    requires
        0 <= i < s.len(),
    ensures
        total(s.remove(i)) == total(s) - s[i].capacity@,
    decreases s.len(),
{
    let t = s.remove(i);
    if i == s.len() - 1 {
        assert(t =~= s.drop_last());
    } else {
        lemma_total_remove(s.drop_last(), i);
        assert(t.drop_last() =~= s.drop_last().remove(i));
        assert(t.last() == s.last());
    }
}

/// No entry records more than the sum.
pub proof fn lemma_total_bounds(s: Seq<FlowEntry>, i: int)
    requires
        0 <= i < s.len(),
    ensures
        s[i].capacity@ <= total(s),
    decreases s.len(),
{
    if i < s.len() - 1 {
        lemma_total_bounds(s.drop_last(), i);
    }
}

/// Changing the capacity at one place changes what leaves and arrives by as much.
pub proof fn lemma_net_out_update(s: Seq<FlowEntry>, i: int, e: FlowEntry, n: Node)
    requires
        0 <= i < s.len(),
        e.from == s[i].from,
        e.to == s[i].to,
    ensures
        net_out(s.update(i, e), n) == net_out(s, n) + (if e.from == n {
            e.capacity@ - s[i].capacity@
        } else {
            0
        }) - (if e.to == n {
            e.capacity@ - s[i].capacity@
        } else {
            0
        }),
    decreases s.len(),
{
    let t = s.update(i, e);
    if i == s.len() - 1 {
        assert(t.drop_last() =~= s.drop_last());
    } else {
        lemma_net_out_update(s.drop_last(), i, e, n);
        assert(t.drop_last() =~= s.drop_last().update(i, e));
    }
}

/// Taking an entry out takes its capacity from what leaves its first vertex and from
/// what arrives at its second.
pub proof fn lemma_net_out_remove(s: Seq<FlowEntry>, i: int, n: Node)
    requires
        0 <= i < s.len(),
    ensures
        net_out(s.remove(i), n) == net_out(s, n) - (if s[i].from == n {
            s[i].capacity@ as int
        } else {
            0
        }) + (if s[i].to == n {
            s[i].capacity@ as int
        } else {
            0
        }),
    decreases s.len(),
{
    let t = s.remove(i);
    if i == s.len() - 1 {
        assert(t =~= s.drop_last());
    } else {
        lemma_net_out_remove(s.drop_last(), i, n);
        assert(t.drop_last() =~= s.drop_last().remove(i));
        assert(t.last() == s.last());
    }
}

/// A table of capacities by pairs of vertices, kept in the order in which the pairs
/// were first entered.
#[derive(Debug, Clone)]
pub struct FlowMap {
    entries: Vec<FlowEntry>,
}

impl View for FlowMap {
    type V = Seq<FlowEntry>;

    closed spec fn view(&self) -> Seq<FlowEntry> {
        self.entries@
    }
}

impl FlowMap {
    /// No pair has two entries.
    pub open spec fn wf(&self) -> bool {
        keys_unique(self@)
    }

    /// The empty table.
    pub fn new() -> (r: FlowMap)
        ensures
            r.wf(),
            r@.len() == 0,
    {
        FlowMap { entries: Vec::new() }
    }

    /// The number of entries.
    pub fn len(&self) -> (r: usize)
        ensures
            r == self@.len(),
    {
        self.entries.len()
    }

    /// Whether the table has no entry.
    pub fn is_empty(&self) -> (r: bool)
        ensures
            r == (self@.len() == 0),
    {
        self.entries.len() == 0
    }

    /// The entry at place `i`.
    pub fn entry_at(&self, i: usize) -> (r: FlowEntry)
        requires
            i < self@.len(),
        ensures
            r == self@[i as int],
    {
        self.entries[i]
    }

    /// The place of the entry of the pair, if it has one.
    pub fn find(&self, from: &Node, to: &Node) -> (r: Option<usize>)
        ensures
            r is Some <==> has_entry(self@, *from, *to),
            r is Some ==> r->0 < self@.len() && self@[r->0 as int].from == *from
                && self@[r->0 as int].to == *to,
            r is Some && self.wf() ==> r->0 == place_of(self@, *from, *to),
    {
        let mut i: usize = 0;
        while i < self.entries.len()
            invariant
                i <= self@.len(),
                forall|j: int|
                    0 <= j < i ==> !((#[trigger] self@[j]).from == *from && self@[j].to == *to),
            decreases self@.len() - i,
        {
            if self.entries[i].from == *from && self.entries[i].to == *to {
                proof {
                    if self.wf() {
                        lemma_place(self@, i as int);
                    }
                }
                return Some(i);
            }
            i += 1;
        }
        None
    }

    /// Whether the pair has an entry.
    pub fn contains(&self, from: &Node, to: &Node) -> (r: bool)
        ensures
            r == has_entry(self@, *from, *to),
    {
        self.find(from, to).is_some()
    }

    /// What is recorded for the pair, zero where it has no entry.
    pub fn get(&self, from: &Node, to: &Node) -> (r: U256)
        requires
            self.wf(),
        ensures
            r@ == capacity_of(self@, *from, *to),
    {
        match self.find(from, to) {
            Some(i) => self.entries[i].capacity,
            None => U256::zero(),
        }
    }

    /// Records `capacity` for the pair, in its entry or in a new one behind the others.
    pub fn set(&mut self, from: &Node, to: &Node, capacity: U256)
        requires
            old(self).wf(),
        ensures
            final(self).wf(),
            final(self)@ == (if has_entry(old(self)@, *from, *to) {
                old(self)@.update(
                    place_of(old(self)@, *from, *to),
                    FlowEntry { from: *from, to: *to, capacity },
                )
            } else {
                old(self)@.push(FlowEntry { from: *from, to: *to, capacity })
            }),
            capacity_of(final(self)@, *from, *to) == capacity@,
            forall|a: Node, b: Node|
                !(a == *from && b == *to) ==> #[trigger] capacity_of(final(self)@, a, b)
                    == capacity_of(old(self)@, a, b),
            total(final(self)@) == total(old(self)@) - capacity_of(old(self)@, *from, *to)
                + capacity@,
            forall|n: Node| #[trigger]
                net_out(final(self)@, n) == net_out(old(self)@, n) + (if *from == n {
                    capacity@ - capacity_of(old(self)@, *from, *to)
                } else {
                    0
                }) - (if *to == n {
                    capacity@ - capacity_of(old(self)@, *from, *to)
                } else {
                    0
                }),
    {
        let ghost before = self@;
        let e = FlowEntry { from: *from, to: *to, capacity };
        match self.find(from, to) {
            Some(i) => {
                self.entries[i] = e;
                proof {
                    lemma_place(before, i as int);
                    lemma_set_at(before, i as int, e);
                    lemma_total_update(before, i as int, e);
                    assert forall|n: Node| #[trigger]
                        net_out(self@, n) == net_out(before, n) + (if *from == n {
                            capacity@ - capacity_of(before, *from, *to)
                        } else {
                            0
                        }) - (if *to == n {
                            capacity@ - capacity_of(before, *from, *to)
                        } else {
                            0
                        }) by {
                        lemma_net_out_update(before, i as int, e, n);
                    }
                }
            },
            None => {
                self.entries.push(e);
                proof {
                    lemma_push(before, e);
                    assert(self@.drop_last() =~= before);
                }
            },
        }
    }

    /// Changes what the entry at place `i` records.
    pub fn set_at(&mut self, i: usize, capacity: U256)
        requires
            old(self).wf(),
            i < old(self)@.len(),
        ensures
            final(self).wf(),
            final(self)@ == old(self)@.update(
                i as int,
                FlowEntry { capacity, ..old(self)@[i as int] },
            ),
            capacity_of(final(self)@, old(self)@[i as int].from, old(self)@[i as int].to)
                == capacity@,
            forall|a: Node, b: Node|
                !(a == old(self)@[i as int].from && b == old(self)@[i as int].to)
                    ==> #[trigger] capacity_of(final(self)@, a, b) == capacity_of(old(self)@, a, b),
            total(final(self)@) == total(old(self)@) - old(self)@[i as int].capacity@ + capacity@,
    {
        let ghost before = self@;
        self.entries[i].capacity = capacity;
        proof {
            assert(self@ =~= before.update(
                i as int,
                FlowEntry { capacity, ..before[i as int] },
            ));
            lemma_set_at(before, i as int, FlowEntry { capacity, ..before[i as int] });
            lemma_total_update(before, i as int, FlowEntry { capacity, ..before[i as int] });
        }
    }

    /// Takes the entry at place `i` out; the others keep their order.
    pub fn remove_at(&mut self, i: usize)
        requires
            old(self).wf(),
            i < old(self)@.len(),
        ensures
            final(self).wf(),
            final(self)@ == old(self)@.remove(i as int),
            capacity_of(final(self)@, old(self)@[i as int].from, old(self)@[i as int].to) == 0,
            forall|a: Node, b: Node|
                !(a == old(self)@[i as int].from && b == old(self)@[i as int].to)
                    ==> #[trigger] capacity_of(final(self)@, a, b) == capacity_of(old(self)@, a, b),
            total(final(self)@) == total(old(self)@) - old(self)@[i as int].capacity@,
    {
        let ghost before = self@;
        self.entries.remove(i);
        proof {
            lemma_remove(before, i as int);
            lemma_total_remove(before, i as int);
        }
    }

    /// Takes out every entry that records nothing; the others keep their order.
    pub fn retain_nonzero(&mut self)
        requires
            old(self).wf(),
        ensures
            final(self).wf(),
            all_positive(final(self)@),
            final(self)@ == nonzero_entries(old(self)@),
            forall|a: Node, b: Node| #[trigger]
                capacity_of(final(self)@, a, b) == capacity_of(old(self)@, a, b),
            forall|n: Node| #[trigger] net_out(final(self)@, n) == net_out(old(self)@, n),
            total(final(self)@) == total(old(self)@),
    {
        let ghost before = self@;
        let ghost keep = |e: FlowEntry| e.capacity@ != 0;
        let mut kept: Vec<FlowEntry> = Vec::new();
        let mut i: usize = 0;
        while i < self.entries.len()
            invariant
                i <= self@.len(),
                self@ == before,
                keep == |e: FlowEntry| e.capacity@ != 0,
                kept@ == before.take(i as int).filter(keep),
            decreases self@.len() - i,
        {
            let e = self.entries[i];
            proof {
                reveal(Seq::filter);
                assert(before.take(i + 1).drop_last() =~= before.take(i as int));
            }
            if !e.capacity.is_zero() {
                kept.push(e);
            }
            i += 1;
        }
        proof {
            assert(before.take(i as int) =~= before);
            lemma_filter_nonzero(before);
            assert forall|n: Node| #[trigger]
                net_out(nonzero_entries(before), n) == net_out(before, n) by {
                lemma_filter_nonzero_sums(before, n);
            }
            lemma_filter_nonzero_sums(before, before[0].from);
        }
        self.entries = kept;
    }
}

/// Overwriting the capacity of an entry keeps the table free of double entries and
/// changes what is recorded for its pair only.
pub proof fn lemma_set_at(s: Seq<FlowEntry>, i: int, e: FlowEntry)
    requires
        keys_unique(s),
        0 <= i < s.len(),
        e.from == s[i].from,
        e.to == s[i].to,
    ensures
        keys_unique(s.update(i, e)),
        capacity_of(s.update(i, e), e.from, e.to) == e.capacity@,
        forall|a: Node, b: Node|
            !(a == e.from && b == e.to) ==> #[trigger] capacity_of(s.update(i, e), a, b)
                == capacity_of(s, a, b),
        forall|a: Node, b: Node| #[trigger]
            has_entry(s.update(i, e), a, b) == has_entry(s, a, b),
{
    let t = s.update(i, e);
    assert(keys_unique(t)) by {
        assert forall|j: int, k: int| 0 <= j < k < t.len() implies !((#[trigger] t[j]).from == (
        #[trigger] t[k]).from && t[j].to == t[k].to) by {
            assert(!(s[j].from == s[k].from && s[j].to == s[k].to));
        }
    }
    lemma_place(t, i);
    assert forall|a: Node, b: Node| #[trigger] has_entry(t, a, b) == has_entry(s, a, b) by {
        if has_entry(t, a, b) {
            let j = place_of(t, a, b);
            assert(s[j].from == a && s[j].to == b);
        }
        if has_entry(s, a, b) {
            let j = place_of(s, a, b);
            assert(t[j].from == a && t[j].to == b);
        }
    }
    assert forall|a: Node, b: Node| !(a == e.from && b == e.to) implies #[trigger] capacity_of(
        t,
        a,
        b,
    ) == capacity_of(s, a, b) by {
        if has_entry(s, a, b) {
            let j = place_of(s, a, b);
            lemma_place(s, j);
            assert(t[j] == s[j]);
            lemma_place(t, j);
        }
    }
}

/// A new entry for a pair that had none keeps the table free of double entries and
/// changes what is recorded for its pair only.
pub proof fn lemma_push(s: Seq<FlowEntry>, e: FlowEntry)
    requires
        keys_unique(s),
        !has_entry(s, e.from, e.to),
    ensures
        keys_unique(s.push(e)),
        capacity_of(s.push(e), e.from, e.to) == e.capacity@,
        forall|a: Node, b: Node|
            !(a == e.from && b == e.to) ==> #[trigger] capacity_of(s.push(e), a, b)
                == capacity_of(s, a, b),
        forall|a: Node, b: Node|
            !(a == e.from && b == e.to) ==> #[trigger] has_entry(s.push(e), a, b) == has_entry(
                s,
                a,
                b,
            ),
        has_entry(s.push(e), e.from, e.to),
{
    let t = s.push(e);
    assert(keys_unique(t)) by {
        assert forall|j: int, k: int| 0 <= j < k < t.len() implies !((#[trigger] t[j]).from == (
        #[trigger] t[k]).from && t[j].to == t[k].to) by {
            if k < s.len() {
                assert(!(s[j].from == s[k].from && s[j].to == s[k].to));
            } else {
                assert(s[j].from == t[j].from);
            }
        }
    }
    lemma_place(t, s.len() as int);
    assert forall|a: Node, b: Node| !(a == e.from && b == e.to) implies #[trigger] has_entry(
        t,
        a,
        b,
    ) == has_entry(s, a, b) by {
        if has_entry(t, a, b) {
            let j = place_of(t, a, b);
            assert(s[j].from == a && s[j].to == b);
        }
        if has_entry(s, a, b) {
            let j = place_of(s, a, b);
            assert(t[j].from == a && t[j].to == b);
        }
    }
    assert forall|a: Node, b: Node| !(a == e.from && b == e.to) implies #[trigger] capacity_of(
        t,
        a,
        b,
    ) == capacity_of(s, a, b) by {
        if has_entry(s, a, b) {
            let j = place_of(s, a, b);
            lemma_place(s, j);
            assert(t[j] == s[j]);
            lemma_place(t, j);
        }
    }
}

/// Taking an entry out keeps the table free of double entries, leaves nothing recorded
/// for its pair and changes nothing for the other pairs.
pub proof fn lemma_remove(s: Seq<FlowEntry>, i: int)
    requires
        keys_unique(s),
        0 <= i < s.len(),
    ensures
        keys_unique(s.remove(i)),
        !has_entry(s.remove(i), s[i].from, s[i].to),
        capacity_of(s.remove(i), s[i].from, s[i].to) == 0,
        forall|a: Node, b: Node|
            !(a == s[i].from && b == s[i].to) ==> #[trigger] capacity_of(s.remove(i), a, b)
                == capacity_of(s, a, b),
        forall|a: Node, b: Node|
            !(a == s[i].from && b == s[i].to) ==> #[trigger] has_entry(s.remove(i), a, b)
                == has_entry(s, a, b),
{
    let t = s.remove(i);
    assert forall|j: int| 0 <= j < t.len() implies #[trigger] t[j] == s[if j < i {
        j
    } else {
        j + 1
    }] by {}
    assert(keys_unique(t)) by {
        assert forall|j: int, k: int| 0 <= j < k < t.len() implies !((#[trigger] t[j]).from == (
        #[trigger] t[k]).from && t[j].to == t[k].to) by {
            let j0 = if j < i { j } else { j + 1 };
            let k0 = if k < i { k } else { k + 1 };
            assert(!(s[j0].from == s[k0].from && s[j0].to == s[k0].to));
        }
    }
    assert(!has_entry(t, s[i].from, s[i].to)) by {
        if has_entry(t, s[i].from, s[i].to) {
            let j = place_of(t, s[i].from, s[i].to);
            let j0 = if j < i { j } else { j + 1 };
            assert(t[j] == s[j0]);
            if j0 < i {
                assert(!(s[j0].from == s[i].from && s[j0].to == s[i].to));
            } else {
                assert(!(s[i].from == s[j0].from && s[i].to == s[j0].to));
            }
        }
    }
    assert forall|a: Node, b: Node| !(a == s[i].from && b == s[i].to) implies #[trigger] has_entry(
        t,
        a,
        b,
    ) == has_entry(s, a, b) by {
        if has_entry(t, a, b) {
            let j = place_of(t, a, b);
            let j0 = if j < i { j } else { j + 1 };
            assert(s[j0].from == a && s[j0].to == b);
        }
        if has_entry(s, a, b) {
            let j0 = place_of(s, a, b);
            let j = if j0 < i { j0 } else { j0 - 1 };
            assert(t[j].from == a && t[j].to == b);
        }
    }
    assert forall|a: Node, b: Node| !(a == s[i].from && b == s[i].to) implies #[trigger] capacity_of(
        t,
        a,
        b,
    ) == capacity_of(s, a, b) by {
        if has_entry(s, a, b) {
            let j0 = place_of(s, a, b);
            lemma_place(s, j0);
            let j = if j0 < i { j0 } else { j0 - 1 };
            assert(t[j] == s[j0]);
            lemma_place(t, j);
        }
    }
}

/// Dropping the entries that record nothing keeps the table free of double entries
/// and changes nothing that is recorded.
pub proof fn lemma_filter_nonzero(s: Seq<FlowEntry>)
    requires
        keys_unique(s),
    ensures
        keys_unique(nonzero_entries(s)),
        all_positive(nonzero_entries(s)),
        forall|a: Node, b: Node| #[trigger]
            capacity_of(nonzero_entries(s), a, b) == capacity_of(s, a, b),
    decreases s.len(),
{
    reveal(Seq::filter);
    let keep = |e: FlowEntry| e.capacity@ != 0;
    let t = nonzero_entries(s);
    if s.len() > 0 {
        let init = s.drop_last();
        let last = s.last();
        lemma_filter_nonzero(init);
        let u = nonzero_entries(init);
        assert(!has_entry(init, last.from, last.to)) by {
            if has_entry(init, last.from, last.to) {
                let j = place_of(init, last.from, last.to);
                assert(!(s[j].from == s[s.len() - 1].from && s[j].to == s[s.len() - 1].to));
            }
        }
        assert(capacity_of(u, last.from, last.to) == 0);
        assert(!has_entry(u, last.from, last.to)) by {
            if has_entry(u, last.from, last.to) {
                let j = place_of(u, last.from, last.to);
                lemma_place(u, j);
            }
        }
        lemma_place(s, s.len() - 1);
        assert forall|a: Node, b: Node| !(a == last.from && b == last.to) implies capacity_of(
            s,
            a,
            b,
        ) == capacity_of(init, a, b) by {
            assert(init.push(last) =~= s);
            lemma_push(init, last);
        }
        if keep(last) {
            assert(t == u.push(last));
            lemma_push(u, last);
        } else {
            assert(t == u);
        }
    }
}

/// Dropping the entries that record nothing changes no sum.
pub proof fn lemma_filter_nonzero_sums(s: Seq<FlowEntry>, n: Node)
    ensures
        net_out(nonzero_entries(s), n) == net_out(s, n),
        total(nonzero_entries(s)) == total(s),
    decreases s.len(),
{
    reveal(Seq::filter);
    if s.len() > 0 {
        lemma_filter_nonzero_sums(s.drop_last(), n);
        let u = nonzero_entries(s.drop_last());
        if s.last().capacity@ != 0 {
            assert(nonzero_entries(s) == u.push(s.last()));
            assert(u.push(s.last()).drop_last() =~= u);
        } else {
            assert(nonzero_entries(s) == u);
        }
    }
}

} // verus!
