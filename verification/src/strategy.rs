//! Pluggable set strategies and the strategy-agnostic replay runner.
//!
//! A strategy is anything satisfying the `KeySet` interface: an unordered
//! collection of u32 keys with insert/remove/contains. Two strategies are
//! provided, both `std::collections::HashSet` under a different hasher: the
//! identity (no-hash) strategy and the Fx non-cryptographic hash strategy.

use vstd::prelude::*;
use crate::workload::{Action, gets_present_from, lemma_step_snoc, lemma_wf_gets_present,
    replay_from, replay_ok};

verus! {

/// Declares std::hash::BuildHasherDefault, the zero-sized builder both
/// hash strategies are parameterized by; carried opaquely.
#[verifier::external_type_specification]
#[verifier::external_body]
#[verifier::reject_recursive_types(H)]
pub struct ExBuildHasherDefault<H>(std::hash::BuildHasherDefault<H>);

/// Declares nohash_hasher::NoHashHasher, the identity hasher; carried
/// opaquely inside the hash-set's build hasher.
#[verifier::external_type_specification]
#[verifier::external_body]
#[verifier::reject_recursive_types(T)]
pub struct ExNoHashHasher<T>(nohash_hasher::NoHashHasher<T>);

/// Declares fxhash::FxHasher, the fast non-cryptographic hasher; carried
/// opaquely inside the hash-set's build hasher.
#[verifier::external_type_specification]
#[verifier::external_body]
pub struct ExFxHasher(fxhash::FxHasher);

/// The capability set a replay strategy must offer: an unordered collection
/// of u32 keys, viewed as the mathematical set of keys it holds.
pub trait KeySet: Sized + View<V = Set<u32>> {
    /// A fresh, empty collection.
    fn empty() -> (s: Self)
        ensures
            s@ == Set::<u32>::empty(),
    ;

    /// Inserts `k`.
    fn insert(&mut self, k: u32)
        ensures
            final(self)@ == old(self)@.insert(k),
    ;

    /// Deletes `k` if present, reporting whether it was.
    fn remove(&mut self, k: u32) -> (was_present: bool)
        ensures
            final(self)@ == old(self)@.remove(k),
            was_present == old(self)@.contains(k),
    ;

    /// Reports whether `k` is present.
    fn contains(&self, k: u32) -> (present: bool)
        ensures
            present == self@.contains(k),
    ;

    /// Reports whether no key is present.
    fn is_empty(&self) -> (empty: bool)
        ensures
            empty == self@.is_empty(),
    ;
}

/// Relies on HashSet::insert: nohash_hasher::NoHashHasher hashes a u32 to
/// itself, deterministically and consistently with equality, so the set
/// gains exactly the inserted key.
#[verifier::external_body]
fn nohash_insert(
    set: &mut std::collections::HashSet<u32, nohash_hasher::BuildNoHashHasher<u32>>,
    k: u32,
)
    ensures
        final(set)@ == old(set)@.insert(k),
{
    set.insert(k);
}

/// Relies on HashSet::remove under the deterministic identity hasher: the
/// set loses exactly the removed key.
#[verifier::external_body]
fn nohash_remove(
    set: &mut std::collections::HashSet<u32, nohash_hasher::BuildNoHashHasher<u32>>,
    k: u32,
) -> (was_present: bool)
    ensures
        final(set)@ == old(set)@.remove(k),
        was_present == old(set)@.contains(k),
{
    set.remove(&k)
}

/// Relies on HashSet::contains under the deterministic identity hasher.
#[verifier::external_body]
fn nohash_contains(
    set: &std::collections::HashSet<u32, nohash_hasher::BuildNoHashHasher<u32>>,
    k: u32,
) -> (present: bool)
    ensures
        present == set@.contains(k),
{
    set.contains(&k)
}

/// Relies on HashSet::insert: fxhash::FxHasher is a deterministic hash
/// consistent with equality, so the set gains exactly the inserted key.
#[verifier::external_body]
fn fx_insert(set: &mut std::collections::HashSet<u32, fxhash::FxBuildHasher>, k: u32)
    ensures
        final(set)@ == old(set)@.insert(k),
{
    set.insert(k);
}

/// Relies on HashSet::remove under the deterministic Fx hasher: the set
/// loses exactly the removed key.
#[verifier::external_body]
fn fx_remove(
    set: &mut std::collections::HashSet<u32, fxhash::FxBuildHasher>,
    k: u32,
) -> (was_present: bool)
    ensures
        final(set)@ == old(set)@.remove(k),
        was_present == old(set)@.contains(k),
{
    set.remove(&k)
}

/// Relies on HashSet::contains under the deterministic Fx hasher.
#[verifier::external_body]
fn fx_contains(
    set: &std::collections::HashSet<u32, fxhash::FxBuildHasher>,
    k: u32,
) -> (present: bool)
    ensures
        present == set@.contains(k),
{
    set.contains(&k)
}

/// The identity-hash strategy: a `HashSet` whose hasher takes the key's own
/// bit pattern as its hash.
pub struct NoHashSet {
    set: std::collections::HashSet<u32, nohash_hasher::BuildNoHashHasher<u32>>,
}

impl View for NoHashSet {
    type V = Set<u32>;

    closed spec fn view(&self) -> Set<u32> {
        self.set@
    }
}

impl KeySet for NoHashSet {
    fn empty() -> (s: Self) {
        NoHashSet { set: std::collections::HashSet::default() }
    }

    fn insert(&mut self, k: u32) {
        nohash_insert(&mut self.set, k);
    }

    fn remove(&mut self, k: u32) -> (was_present: bool) {
        nohash_remove(&mut self.set, k)
    }

    fn contains(&self, k: u32) -> (present: bool) {
        nohash_contains(&self.set, k)
    }

    fn is_empty(&self) -> (empty: bool) {
        self.set.is_empty()
    }
}

/// The Fx strategy: a `HashSet` under fxhash's fast non-cryptographic hash.
pub struct FxHashSet {
    set: std::collections::HashSet<u32, fxhash::FxBuildHasher>,
}

impl View for FxHashSet {
    type V = Set<u32>;

    closed spec fn view(&self) -> Set<u32> {
        self.set@
    }
}

impl KeySet for FxHashSet {
    fn empty() -> (s: Self) {
        FxHashSet { set: std::collections::HashSet::default() }
    }

    fn insert(&mut self, k: u32) {
        fx_insert(&mut self.set, k);
    }

    fn remove(&mut self, k: u32) -> (was_present: bool) {
        fx_remove(&mut self.set, k)
    }

    fn contains(&self, k: u32) -> (present: bool) {
        fx_contains(&self.set, k)
    }

    fn is_empty(&self) -> (empty: bool) {
        self.set.is_empty()
    }
}

/// Replays every action in order against an initially empty strategy
/// collection: Add inserts, Remove deletes, Get accumulates a running
/// conjunction of presence checks. Returns whether the collection ended
/// empty and whether every Get observed its key present — both of which are
/// functions of the action sequence alone, for every strategy.
pub fn replay<S: KeySet>(actions: &Vec<Action>) -> (r: (bool, bool))
    ensures
        r.0 == replay_from(Set::<u32>::empty(), actions@).is_empty(),
        r.1 == gets_present_from(Set::<u32>::empty(), actions@),
{
    let mut data = S::empty();
    let mut get_all = true;
    let mut i: usize = 0;
    while i < actions.len()
        invariant
            i <= actions@.len(),
            data@ == replay_from(Set::<u32>::empty(), actions@.take(i as int)),
            get_all == gets_present_from(Set::<u32>::empty(), actions@.take(i as int)),
        decreases actions@.len() - i,
    {
        proof {
            assert(actions@.take(i + 1) =~= actions@.take(i as int).push(actions@[i as int]));
            lemma_step_snoc(Set::<u32>::empty(), actions@.take(i as int), actions@[i as int]);
        }
        let action = actions[i];
        match action {
            Action::Add(k) => {
                data.insert(k);
            },
            Action::Remove(k) => {
                data.remove(k);
            },
            Action::Get(k) => {
                let present = data.contains(k);
                get_all = get_all && present;
            },
        }
        i = i + 1;
    }
    proof {
        assert(actions@.take(actions@.len() as int) =~= actions@);
    }
    let ended_empty = data.is_empty();
    (ended_empty, get_all)
}

/// Replays a consistent workload against the chosen strategy and checks the
/// runner's two postconditions: the collection ends empty and every Get
/// observed its key present. Both checks are proved, so they cannot fail at
/// run time for any conforming strategy.
pub fn run<S: KeySet>(actions: &Vec<Action>)
    requires
        replay_ok(actions@),
{
    let (ended_empty, get_all) = replay::<S>(actions);
    proof {
        lemma_wf_gets_present(Set::<u32>::empty(), actions@);
    }
    assert(ended_empty);
    assert(get_all);
}

/// Strategy-equivalence law: for one fixed consistent action sequence the
/// replay outcome is a function of the sequence alone — the final abstract
/// set is empty and every Get observes its key present — so any two
/// conforming strategies leave the same (empty) contents and report the
/// same all-present Get result.
pub proof fn lemma_strategy_equivalence(actions: Seq<Action>)
    requires
        replay_ok(actions),
    ensures
        replay_from(Set::<u32>::empty(), actions).is_empty(),
        gets_present_from(Set::<u32>::empty(), actions),
{
    lemma_wf_gets_present(Set::<u32>::empty(), actions);
}

} // verus!
