use vstd::prelude::*;
use std::collections::HashMap;
use std::sync::Arc;
use crate::types::edge::{Edge, EdgeDB};

verus! {

broadcast use vstd::std_specs::hash::group_hash_axioms;

/// What a dispenser holds, as numbers and maps: the number of the latest version,
/// the edges of each version that is kept, and the number of readers of each
/// version that has any.
pub struct DispenserState {
    pub counter: nat,
    pub versions: Map<nat, Seq<Edge>>,
    pub refs: Map<nat, nat>,
}

impl DispenserState {
    /// The state of a dispenser in which nothing has been published.
    pub open spec fn empty() -> DispenserState {
        DispenserState { counter: 0, versions: Map::empty(), refs: Map::empty() }
    }

    /// The number of readers of a version.
    pub open spec fn readers(self, version: nat) -> nat {
        if self.refs.contains_key(version) {
            self.refs[version]
        } else {
            0
        }
    }

    /// No version is later than the latest, only versions that are kept have
    /// readers, and a version that is listed with readers has at least one.
    pub open spec fn inv(self) -> bool {
        &&& forall|v: nat| #[trigger] self.versions.contains_key(v) ==> v <= self.counter
        &&& forall|v: nat| #[trigger]
            self.refs.contains_key(v) ==> self.versions.contains_key(v) && self.refs[v] > 0
    }

    /// The state after a reader has pinned the latest version: one reader more of
    /// that version, or no change where nothing has been published.
    pub open spec fn pin(self) -> DispenserState {
        if self.versions.contains_key(self.counter) {
            DispenserState {
                refs: self.refs.insert(self.counter, self.readers(self.counter) + 1),
                ..self
            }
        } else {
            self
        }
    }

    /// The state after `edges` have been published: they are the latest version,
    /// and of the earlier versions those with readers are kept.
    pub open spec fn publish(self, edges: Seq<Edge>) -> DispenserState {
        let latest = self.counter + 1;
        DispenserState {
            counter: latest,
            versions: Map::new(
                |v: nat| v == latest || (self.versions.contains_key(v) && self.refs.contains_key(v)),
                |v: nat|
                    if v == latest {
                        edges
                    } else {
                        self.versions[v]
                    },
            ),
            refs: self.refs,
        }
    }

    /// The state after a reader of `version` has released it: one reader less, and
    /// the version no longer listed with readers where that was the last. No change
    /// where the version has no readers.
    pub open spec fn release(self, version: nat) -> DispenserState {
        if self.refs.contains_key(version) {
            if self.refs[version] <= 1 {
                DispenserState { refs: self.refs.remove(version), ..self }
            } else {
                DispenserState {
                    refs: self.refs.insert(version, (self.refs[version] - 1) as nat),
                    ..self
                }
            }
        } else {
            self
        }
    }

    /// The state after one version after another has been published.
    pub open spec fn publish_all(self, editions: Seq<Seq<Edge>>) -> DispenserState
        decreases editions.len(),
    {
        if editions.len() == 0 {
            self
        } else {
            self.publish_all(editions.drop_last()).publish(editions.last())
        }
    }
}

/// Pinning, publishing and releasing keep a dispenser in order.
pub proof fn lemma_steps_keep_order(s: DispenserState, edges: Seq<Edge>, version: nat)
    requires
        s.inv(),
    ensures
        s.pin().inv(),
        s.release(version).inv(),
        s.publish(edges).inv(),
{
}

/// A version that has a reader is kept, with the edges it was published with, however
/// many versions are published after it.
pub proof fn lemma_pinned_version_survives(
    s: DispenserState,
    version: nat,
    editions: Seq<Seq<Edge>>,
)
    requires
        s.inv(),
        s.refs.contains_key(version),
    ensures
        s.publish_all(editions).inv(),
        s.publish_all(editions).counter == s.counter + editions.len(),
        s.publish_all(editions).refs == s.refs,
        s.publish_all(editions).versions.contains_key(version),
        s.publish_all(editions).versions[version] == s.versions[version],
    decreases editions.len(),
{
    if editions.len() > 0 {
        lemma_pinned_version_survives(s, version, editions.drop_last());
        let before = s.publish_all(editions.drop_last());
        lemma_steps_keep_order(before, editions.last(), version);
    }
}

/// A reader that pins the latest version reads the edges that were published as that
/// version, however many versions are published before it releases it.
pub proof fn lemma_reader_keeps_its_version(s: DispenserState, editions: Seq<Seq<Edge>>)
    requires
        s.inv(),
        s.versions.contains_key(s.counter),
    ensures
        s.pin().publish_all(editions).versions.contains_key(s.counter),
        s.pin().publish_all(editions).versions[s.counter] == s.versions[s.counter],
{
    lemma_steps_keep_order(s, Seq::empty(), s.counter);
    lemma_pinned_version_survives(s.pin(), s.counter, editions);
}

/// Once the last reader of a version has released it, the next publication drops the
/// version.
pub proof fn lemma_released_version_is_dropped(s: DispenserState, version: nat, edges: Seq<Edge>)
    requires
        s.inv(),
        version <= s.counter,
        s.readers(version) <= 1,
    ensures
        !s.release(version).publish(edges).versions.contains_key(version),
{
}

/// One version of the edges, as a reader holds it.
pub struct EdgeDBVersion {
    pub version_number: u64,
    pub edges: Arc<EdgeDB>,
}

/// The current edges and the earlier versions that still have readers. A reader pins
/// the latest version and works on it while newer versions are published; a version
/// is dropped when a newer one is published after its last reader has released it.
pub struct EdgeDbDispenser {
    versions: HashMap<u64, Arc<EdgeDB>>,
    counter: u64,
    refs: HashMap<u64, usize>,
}

/// Another handle on the same edges.
///
/// Calls `Arc::clone`, which gives a new pointer to the same allocation: what the
/// new handle points to is what the given handle points to.
#[verifier::external_body]
fn share(edges: &Arc<EdgeDB>) -> (r: Arc<EdgeDB>)
    ensures
        *r == **edges,
{
    Arc::clone(edges)
}

/// Whether a number is among the first `i` of the numbers.
spec fn gone_through(numbers: Seq<u64>, i: int, v: u64) -> bool {
    exists|k: int| 0 <= k < i && k < numbers.len() && #[trigger] numbers[k] == v
}

/// The numbers of the versions that are kept, each once, in no order that can be
/// counted on.
fn version_numbers(versions: &HashMap<u64, Arc<EdgeDB>>) -> (r: Vec<u64>)
    ensures
        r@.no_duplicates(),
        r@.to_set() == versions@.dom(),
{
    let mut numbers: Vec<u64> = Vec::new();
    for number in iter: versions.keys()
        invariant
            numbers@.len() == iter.index(),
            forall|i: int| 0 <= i < numbers@.len() ==> numbers@[i] == *iter.seq()[i],
            iter.seq().unref().to_set() == versions@.dom(),
            iter.seq().unref().len() == iter.seq().len(),
            forall|i: int| 0 <= i < iter.seq().len() ==> iter.seq().unref()[i] == *iter.seq()[i],
            numbers@ =~= iter.seq().unref().take(iter.index()),
    {
        numbers.push(*number);
    }
    numbers
}

impl EdgeDbDispenser {
    /// What the dispenser holds.
    pub closed spec fn state(&self) -> DispenserState {
        DispenserState {
            counter: self.counter as nat,
            versions: Map::new(
                |v: nat| v <= u64::MAX && self.versions@.contains_key(v as u64),
                |v: nat| (*self.versions@[v as u64])@,
            ),
            refs: Map::new(
                |v: nat| v <= u64::MAX && self.refs@.contains_key(v as u64),
                |v: nat| self.refs@[v as u64] as nat,
            ),
        }
    }

    /// Every version that is kept is well formed, and the state is in order.
    pub closed spec fn wf(&self) -> bool {
        &&& forall|v: u64| #[trigger] self.versions@.contains_key(v) ==> (*self.versions@[v]).wf()
        &&& self.state().inv()
    }

    /// What a well-formed dispenser holds is in order: no version is later than the
    /// latest, only versions that are kept have readers, and a version that is listed
    /// with readers has at least one.
    pub proof fn lemma_wf_inv(&self)
        requires
            self.wf(),
        ensures
            self.state().inv(),
    {
    }

    /// A dispenser in which nothing has been published.
    pub fn new() -> (r: Self)
        ensures
            r.wf(),
            r.state() == DispenserState::empty(),
    {
        let r = EdgeDbDispenser { versions: HashMap::new(), counter: 0, refs: HashMap::new() };
        proof {
            assert(r.state().versions =~= Map::<nat, Seq<Edge>>::empty());
            assert(r.state().refs =~= Map::<nat, nat>::empty());
        }
        r
    }

    /// Pins the latest version for a reader and hands it out, or hands out nothing
    /// where nothing has been published.
    pub fn get_latest_version(&mut self) -> (r: Option<EdgeDBVersion>)
        requires
            old(self).wf(),
            old(self).state().readers(old(self).state().counter) < usize::MAX,
        ensures
            final(self).wf(),
            final(self).state() == old(self).state().pin(),
            r is Some <==> old(self).state().versions.contains_key(old(self).state().counter),
            r is Some ==> r->0.version_number == old(self).state().counter && r->0.edges.wf()
                && (*r->0.edges)@ == old(self).state().versions[old(self).state().counter],
    {
        let ghost before = *self;
        let number = self.counter;
        let edges = match self.versions.get(&number) {
            None => {
                return None;
            },
            Some(edges) => share(edges),
        };
        let readers: usize = match self.refs.get(&number) {
            Some(count) => *count,
            None => 0,
        };
        self.refs.insert(number, readers + 1);
        proof {
            assert(self.state().refs =~= before.state().pin().refs);
            assert(self.state().versions =~= before.state().versions);
            lemma_steps_keep_order(before.state(), Seq::empty(), number as nat);
        }
        Some(EdgeDBVersion { version_number: number, edges })
    }

    /// The number of the latest version, zero where nothing has been published.
    pub fn counter(&self) -> (r: u64)
        ensures
            r == self.state().counter,
    {
        self.counter
    }

    /// The number of readers of a version.
    pub fn readers(&self, version_number: u64) -> (r: usize)
        requires
            self.wf(),
        ensures
            r == self.state().readers(version_number as nat),
    {
        match self.refs.get(&version_number) {
            Some(count) => *count,
            None => 0,
        }
    }

    /// The edges of the latest version, without pinning it, or nothing where nothing
    /// has been published.
    pub fn latest(&self) -> (r: Option<&EdgeDB>)
        requires
            self.wf(),
        ensures
            r is Some <==> self.state().versions.contains_key(self.state().counter),
            r is Some ==> r->0.wf() && r->0@ == self.state().versions[self.state().counter],
    {
        match self.versions.get(&self.counter) {
            Some(edges) => Some(&**edges),
            None => None,
        }
    }

    /// Releases a version that a reader had pinned. Nothing changes where the version
    /// has no readers.
    pub fn try_release_version(&mut self, version: EdgeDBVersion)
        requires
            old(self).wf(),
        ensures
            final(self).wf(),
            final(self).state() == old(self).state().release(version.version_number as nat),
    {
        let ghost before = *self;
        let number = version.version_number;
        let readers: usize = match self.refs.get(&number) {
            None => {
                return ;
            },
            Some(count) => *count,
        };
        if readers <= 1 {
            self.refs.remove(&number);
        } else {
            self.refs.insert(number, readers - 1);
        }
        proof {
            assert(before.state().refs.contains_key(number as nat));
            assert(self.state().refs =~= before.state().release(number as nat).refs);
            assert(self.state().versions =~= before.state().versions);
            lemma_steps_keep_order(before.state(), Seq::empty(), number as nat);
        }
    }

    /// Publishes `new_edgedb` as the latest version, and drops every earlier version
    /// that has no reader.
    pub fn update(&mut self, new_edgedb: EdgeDB)
        requires
            old(self).wf(),
            new_edgedb.wf(),
            old(self).state().counter < u64::MAX,
        ensures
            final(self).wf(),
            final(self).state() == old(self).state().publish(new_edgedb@),
    {
        let ghost before = *self;
        let latest = self.counter + 1;
        let numbers = version_numbers(&self.versions);
        proof {
            assert forall|v: u64| numbers@.contains(v) <==> before.versions@.contains_key(v) by {
                assert(numbers@.to_set().contains(v) <==> before.versions@.dom().contains(v));
            }
        }
        let mut i: usize = 0;
        while i < numbers.len()
            invariant
                i <= numbers@.len(),
                self.counter == before.counter,
                self.refs@ == before.refs@,
                forall|v: u64| numbers@.contains(v) <==> before.versions@.contains_key(v),
                forall|v: u64| #[trigger]
                    self.versions@.contains_key(v) <==> before.versions@.contains_key(v) && (
                    before.refs@.contains_key(v) || !gone_through(numbers@, i as int, v)),
                forall|v: u64| #[trigger]
                    self.versions@.contains_key(v) ==> self.versions@[v] == before.versions@[v],
            decreases numbers@.len() - i,
        {
            let number = numbers[i];
            let ghost kept = self.versions@;
            if !self.refs.contains_key(&number) {
                self.versions.remove(&number);
            }
            proof {
                assert forall|v: u64| #[trigger]
                    self.versions@.contains_key(v) <==> before.versions@.contains_key(v) && (
                    before.refs@.contains_key(v) || !gone_through(numbers@, i + 1, v)) by {
                    assert(kept.contains_key(v) <==> before.versions@.contains_key(v) && (
                    before.refs@.contains_key(v) || !gone_through(numbers@, i as int, v)));
                    if gone_through(numbers@, i + 1, v) && v != number {
                        let k = choose|k: int|
                            0 <= k < i + 1 && k < numbers@.len() && #[trigger] numbers@[k] == v;
                        assert(0 <= k < i && numbers@[k] == v);
                    }
                    if v == number {
                        assert(numbers@[i as int] == v);
                    }
                    if gone_through(numbers@, i as int, v) {
                        let k = choose|k: int|
                            0 <= k < i && k < numbers@.len() && #[trigger] numbers@[k] == v;
                        assert(0 <= k < i + 1 && numbers@[k] == v);
                    }
                }
            }
            i += 1;
        }
        proof {
            assert forall|v: u64| gone_through(numbers@, i as int, v) <==> numbers@.contains(v) by {
                if numbers@.contains(v) {
                    let k = choose|k: int| 0 <= k < numbers@.len() && numbers@[k] == v;
                    assert(0 <= k < i && numbers@[k] == v);
                }
            }
        }
        let ghost kept = self.versions@;
        self.counter = latest;
        self.versions.insert(latest, Arc::new(new_edgedb));
        proof {
            let target = before.state().publish(new_edgedb@);
            assert(before.state().inv());
            assert(!before.versions@.contains_key(latest)) by {
                if before.versions@.contains_key(latest) {
                    assert(before.state().versions.contains_key(latest as nat));
                }
            }
            assert forall|v: nat|
                self.state().versions.contains_key(v) <==> target.versions.contains_key(v) by {
                if v <= u64::MAX {
                    let w = v as u64;
                    assert(kept.contains_key(w) <==> before.versions@.contains_key(w) && (
                    before.refs@.contains_key(w) || !gone_through(numbers@, i as int, w)));
                    assert(before.state().versions.contains_key(v) <==> before.versions@.contains_key(
                        w,
                    ));
                    assert(before.state().refs.contains_key(v) <==> before.refs@.contains_key(w));
                    assert(self.versions@.contains_key(w) <==> w == latest || kept.contains_key(w));
                } else {
                    assert(!before.state().versions.contains_key(v));
                }
            }
            assert forall|v: nat| self.state().versions.contains_key(v) implies self.state().versions[v]
                == target.versions[v] by {
                if v != latest {
                    assert(kept.contains_key(v as u64));
                    assert(kept[v as u64] == before.versions@[v as u64]);
                }
            }
            assert(self.state().versions =~= target.versions);
            assert(self.state().refs =~= target.refs);
            lemma_steps_keep_order(before.state(), new_edgedb@, 0);
        }
    }
}

} // verus!
