use vstd::prelude::*;
use crate::types::address::Address;

verus! {

/// A map keyed by address, kept as two parallel vectors in strictly ascending order of
/// the keys, so that it is walked in that order.
#[derive(Debug, Clone)]
pub struct AddressMap<V> {
    keys: Vec<Address>,
    values: Vec<V>,
}

impl<V> View for AddressMap<V> {
    type V = Map<Address, V>;

    open spec fn view(&self) -> Map<Address, V> {
        Map::new(
            |k: Address| self.keys().contains(k),
            |k: Address| self.values()[self.keys().index_of(k)],
        )
    }
}

impl<V> AddressMap<V> {
    /// The keys, in ascending order.
    pub closed spec fn keys(&self) -> Seq<Address> {
        self.keys@
    }

    /// The values, each at the place of its key.
    pub closed spec fn values(&self) -> Seq<V> {
        self.values@
    }

    /// Every key has its value, and the keys ascend strictly.
    pub open spec fn wf(&self) -> bool {
        &&& self.keys().len() == self.values().len()
        &&& forall|i: int, j: int|
            0 <= i < j < self.keys().len() ==> (#[trigger] self.keys()[i])@ < (
            #[trigger] self.keys()[j])@
    }

    /// In a well-formed map the value of the key at place `i` is the value at place `i`.
    pub proof fn lemma_entry(&self, i: int)
        requires
            self.wf(),
            0 <= i < self.keys().len(),
        ensures
            self@.contains_key(self.keys()[i]),
            self@[self.keys()[i]] == self.values()[i],
            self.keys().index_of(self.keys()[i]) == i,
    {
        let k = self.keys()[i];
        assert(self.keys().contains(k));
        let j = self.keys().index_of(k);
        if j < i {
            assert(self.keys()[j]@ < self.keys()[i]@);
        } else if i < j {
            assert(self.keys()[i]@ < self.keys()[j]@);
        }
    }

    /// A key of the map stands at some place.
    pub proof fn lemma_key_place(&self, k: Address) -> (i: int)
        requires
            self.wf(),
            self@.contains_key(k),
        ensures
            0 <= i < self.keys().len(),
            self.keys()[i] == k,
            self.values()[i] == self@[k],
    {
        let i = self.keys().index_of(k);
        self.lemma_entry(i);
        i
    }

    /// A map that differs from a well-formed map in the value at one place is the map
    /// with that value for the key at the place.
    pub proof fn lemma_value_changed(before: AddressMap<V>, after: AddressMap<V>, i: int)
        requires
            before.wf(),
            0 <= i < before.keys().len(),
            after.keys() == before.keys(),
            after.values() == before.values().update(i, after.values()[i]),
        ensures
            after.wf(),
            after@ == before@.insert(before.keys()[i], after.values()[i]),
    {
        before.lemma_entry(i);
        assert forall|a: Address| after@.contains_key(a) implies #[trigger] after@[a]
            == before@.insert(before.keys()[i], after.values()[i])[a] by {
            let j = after.lemma_key_place(a);
            before.lemma_entry(j);
        }
        assert(after@ =~= before@.insert(before.keys()[i], after.values()[i]));
    }

    /// The empty map.
    pub fn new() -> (r: AddressMap<V>)
        ensures
            r.wf(),
            r.keys().len() == 0,
            r@ == Map::<Address, V>::empty(),
    {
        let r = AddressMap { keys: Vec::new(), values: Vec::new() };
        assert(r@ =~= Map::<Address, V>::empty());
        r
    }

    /// The number of keys.
    pub fn len(&self) -> (r: usize)
        requires
            self.wf(),
        ensures
            r == self.keys().len(),
    {
        self.keys.len()
    }

    /// The key at place `i` of the ascending order.
    pub fn key_at(&self, i: usize) -> (r: Address)
        requires
            self.wf(),
            i < self.keys().len(),
        ensures
            r == self.keys()[i as int],
    {
        self.keys[i]
    }

    /// The value at place `i` of the ascending order of keys.
    pub fn value_at(&self, i: usize) -> (r: &V)
        requires
            self.wf(),
            i < self.keys().len(),
        ensures
            *r == self.values()[i as int],
    {
        &self.values[i]
    }

    /// The value at place `i`, to be changed in place.
    pub fn value_at_mut(&mut self, i: usize) -> (r: &mut V)
        requires
            old(self).wf(),
            i < old(self).keys().len(),
        ensures
            *r == old(self).values()[i as int],
            final(self).keys() == old(self).keys(),
            final(self).values() == old(self).values().update(i as int, *final(r)),
    {
        &mut self.values[i]
    }

    /// The first place whose key is not below `k`.
    fn lower_bound(&self, k: Address) -> (r: usize)
        requires
            self.wf(),
        ensures
            r <= self.keys().len(),
            forall|i: int| 0 <= i < r ==> (#[trigger] self.keys()[i])@ < k@,
            forall|i: int| r <= i < self.keys().len() ==> (#[trigger] self.keys()[i])@ >= k@,
    {
        let mut lo: usize = 0;
        let mut hi: usize = self.keys.len();
        while lo < hi
            invariant
                self.wf(),
                lo <= hi <= self.keys().len(),
                forall|i: int| 0 <= i < lo ==> (#[trigger] self.keys()[i])@ < k@,
                forall|i: int| hi <= i < self.keys().len() ==> (#[trigger] self.keys()[i])@ >= k@,
            decreases hi - lo,
        {
            let mid = lo + (hi - lo) / 2;
            if self.keys[mid] < k {
                assert forall|i: int| 0 <= i < mid + 1 implies (#[trigger] self.keys()[i])@
                    < k@ by {
                    if i < mid {
                        assert(self.keys()[i]@ < self.keys()[mid as int]@);
                    }
                }
                lo = mid + 1;
            } else {
                assert forall|i: int| mid <= i < self.keys().len() implies (
                #[trigger] self.keys()[i])@ >= k@ by {
                    if mid < i {
                        assert(self.keys()[mid as int]@ < self.keys()[i]@);
                    }
                }
                hi = mid;
            }
        }
        lo
    }

    /// The place of `k` in the ascending order, if it is a key.
    pub fn find(&self, k: Address) -> (r: Option<usize>)
        requires
            self.wf(),
        ensures
            r is Some <==> self@.contains_key(k),
            r is Some ==> r->0 < self.keys().len() && self.keys()[r->0 as int] == k
                && self.values()[r->0 as int] == self@[k],
    {
        let i = self.lower_bound(k);
        if i < self.keys.len() && self.keys[i] == k {
            proof {
                self.lemma_entry(i as int);
            }
            Some(i)
        } else {
            proof {
                if self@.contains_key(k) {
                    let j = self.lemma_key_place(k);
                    if i < self.keys().len() {
                        Address::lemma_view_injective(self.keys()[i as int], k);
                    }
                }
            }
            None
        }
    }

    /// Whether `k` is a key.
    pub fn contains_key(&self, k: Address) -> (r: bool)
        requires
            self.wf(),
        ensures
            r == self@.contains_key(k),
    {
        self.find(k).is_some()
    }

    /// The value of `k`, if it is a key.
    pub fn get(&self, k: Address) -> (r: Option<&V>)
        requires
            self.wf(),
        ensures
            r is Some <==> self@.contains_key(k),
            r is Some ==> *r->0 == self@[k],
    {
        match self.find(k) {
            Some(i) => Some(&self.values[i]),
            None => None,
        }
    }

    /// Gives `k` the value `v`, whether or not it was a key, and returns the place of `k`
    /// in the ascending order.
    pub fn insert(&mut self, k: Address, v: V) -> (p: usize)
        requires
            old(self).wf(),
        ensures
            final(self).wf(),
            final(self)@ == old(self)@.insert(k, v),
            p < final(self).keys().len(),
            p <= old(self).keys().len(),
            final(self).keys()[p as int] == k,
            old(self)@.contains_key(k) ==> final(self).keys() == old(self).keys(),
            old(self)@.contains_key(k) ==> final(self).values() == old(self).values().update(
                p as int,
                v,
            ),
            !old(self)@.contains_key(k) ==> final(self).keys() == old(self).keys().insert(
                p as int,
                k,
            ) && final(self).values() == old(self).values().insert(p as int, v),
    {
        let i = self.lower_bound(k);
        if i < self.keys.len() && self.keys[i] == k {
            let ghost before = *self;
            self.values[i] = v;
            proof {
                before.lemma_entry(i as int);
                assert forall|a: Address| self@.contains_key(a) implies #[trigger] self@[a]
                    == before@.insert(k, v)[a] by {
                    let j = self.lemma_key_place(a);
                    before.lemma_entry(j);
                }
                assert(self@ =~= before@.insert(k, v));
                assert(before@.contains_key(k));
                assert(self.values() =~= before.values().update(i as int, v));
            }
        } else {
            let ghost before = *self;
            proof {
                if before@.contains_key(k) {
                    let j = before.lemma_key_place(k);
                    if i < before.keys().len() {
                        Address::lemma_view_injective(before.keys()[i as int], k);
                    }
                }
            }
            self.keys.insert(i, k);
            self.values.insert(i, v);
            proof {
                assert(self.keys() =~= before.keys().insert(i as int, k));
                assert(self.values() =~= before.values().insert(i as int, v));
                assert forall|a: int, b: int| 0 <= a < b < self.keys().len() implies (
                #[trigger] self.keys()[a])@ < (#[trigger] self.keys()[b])@ by {
                    let a0 = if a < i { a } else { a - 1 };
                    let b0 = if b < i { b } else { b - 1 };
                    if a != i && b != i {
                        assert(before.keys()[a0]@ < before.keys()[b0]@);
                    } else if a == i {
                        assert(before.keys()[b0]@ >= k@);
                        if before.keys()[b0]@ == k@ {
                            Address::lemma_view_injective(before.keys()[b0], k);
                            before.lemma_entry(b0);
                        }
                    } else {
                        assert(before.keys()[a0]@ < k@);
                    }
                }
                assert(self.wf());
                assert forall|a: Address| #[trigger]
                    self@.contains_key(a) == before@.insert(k, v).contains_key(a) by {
                    if self@.contains_key(a) {
                        let j = self.lemma_key_place(a);
                        if j != i {
                            let j0 = if j < i { j } else { j - 1 };
                            before.lemma_entry(j0);
                        }
                    }
                    if before@.insert(k, v).contains_key(a) {
                        if a == k {
                            assert(self.keys()[i as int] == k);
                        } else {
                            let j0 = before.lemma_key_place(a);
                            let j = if j0 < i { j0 } else { j0 + 1 };
                            assert(self.keys()[j] == a);
                        }
                    }
                }
                assert forall|a: Address| self@.contains_key(a) implies #[trigger] self@[a]
                    == before@.insert(k, v)[a] by {
                    let j = self.lemma_key_place(a);
                    if j != i {
                        let j0 = if j < i { j } else { j - 1 };
                        before.lemma_entry(j0);
                        assert(before.keys()[j0] == a);
                        assert(a != k);
                    }
                }
                assert(self@ =~= before@.insert(k, v));
            }
        }
        i
    }

    /// Replaces the value at place `i` of the ascending order of keys.
    pub fn set_value_at(&mut self, i: usize, v: V)
        requires
            old(self).wf(),
            i < old(self).keys().len(),
        ensures
            final(self).wf(),
            final(self).keys() == old(self).keys(),
            final(self).values() == old(self).values().update(i as int, v),
            final(self)@ == old(self)@.insert(old(self).keys()[i as int], v),
    {
        let ghost before = *self;
        self.values[i] = v;
        proof {
            before.lemma_entry(i as int);
            assert(self.values() =~= before.values().update(i as int, v));
            assert forall|a: Address| self@.contains_key(a) implies #[trigger] self@[a]
                == before@.insert(before.keys()[i as int], v)[a] by {
                let j = self.lemma_key_place(a);
                before.lemma_entry(j);
            }
            assert(self@ =~= before@.insert(before.keys()[i as int], v));
        }
    }

    /// Takes out the key at place `i` of the ascending order, with its value.
    pub fn remove_at(&mut self, i: usize)
        requires
            old(self).wf(),
            i < old(self).keys().len(),
        ensures
            final(self).wf(),
            final(self).keys() == old(self).keys().remove(i as int),
            final(self).values() == old(self).values().remove(i as int),
            final(self)@ == old(self)@.remove(old(self).keys()[i as int]),
    {
        let ghost before = *self;
        let k = self.keys[i];
        proof {
            before.lemma_entry(i as int);
        }
        self.keys.remove(i);
        self.values.remove(i);
        proof {
            assert(self.keys() =~= before.keys().remove(i as int));
            assert(self.values() =~= before.values().remove(i as int));
            assert forall|a: int, b: int| 0 <= a < b < self.keys().len() implies (
            #[trigger] self.keys()[a])@ < (#[trigger] self.keys()[b])@ by {
                let a0 = if a < i { a } else { a + 1 };
                let b0 = if b < i { b } else { b + 1 };
                assert(before.keys()[a0]@ < before.keys()[b0]@);
            }
            assert(self.wf());
            assert forall|a: Address| #[trigger]
                self@.contains_key(a) == before@.remove(k).contains_key(a) by {
                if self@.contains_key(a) {
                    let j = self.lemma_key_place(a);
                    let j0 = if j < i { j } else { j + 1 };
                    before.lemma_entry(j0);
                }
                if before@.remove(k).contains_key(a) {
                    let j0 = before.lemma_key_place(a);
                    let j = if j0 < i { j0 } else { j0 - 1 };
                    assert(self.keys()[j] == a);
                }
            }
            assert forall|a: Address| self@.contains_key(a) implies #[trigger] self@[a]
                == before@.remove(k)[a] by {
                let j = self.lemma_key_place(a);
                let j0 = if j < i { j } else { j + 1 };
                before.lemma_entry(j0);
            }
            assert(self@ =~= before@.remove(k));
        }
    }

    /// Takes `k` out, if it is a key.
    pub fn remove(&mut self, k: Address)
        requires
            old(self).wf(),
        ensures
            final(self).wf(),
            final(self)@ == old(self)@.remove(k),
    {
        let ghost before = *self;
        match self.find(k) {
            None => {
                assert(self@ =~= before@.remove(k));
            },
            Some(i) => {
                self.keys.remove(i);
                self.values.remove(i);
                proof {
                    assert(self.keys() =~= before.keys().remove(i as int));
                    assert(self.values() =~= before.values().remove(i as int));
                    assert forall|a: int, b: int| 0 <= a < b < self.keys().len() implies (
                    #[trigger] self.keys()[a])@ < (#[trigger] self.keys()[b])@ by {
                        let a0 = if a < i { a } else { a + 1 };
                        let b0 = if b < i { b } else { b + 1 };
                        assert(before.keys()[a0]@ < before.keys()[b0]@);
                    }
                    assert(self.wf());
                    assert forall|a: Address| #[trigger]
                        self@.contains_key(a) == before@.remove(k).contains_key(a) by {
                        if self@.contains_key(a) {
                            let j = self.lemma_key_place(a);
                            let j0 = if j < i { j } else { j + 1 };
                            before.lemma_entry(j0);
                            before.lemma_entry(i as int);
                        }
                        if before@.remove(k).contains_key(a) {
                            let j0 = before.lemma_key_place(a);
                            let j = if j0 < i { j0 } else { j0 - 1 };
                            assert(self.keys()[j] == a);
                        }
                    }
                    assert forall|a: Address| self@.contains_key(a) implies #[trigger] self@[a]
                        == before@.remove(k)[a] by {
                        let j = self.lemma_key_place(a);
                        let j0 = if j < i { j } else { j + 1 };
                        before.lemma_entry(j0);
                    }
                    assert(self@ =~= before@.remove(k));
                }
            },
        }
    }
}

} // verus!
