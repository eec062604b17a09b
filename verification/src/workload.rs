//! Synthetic workload for the hash-set benchmark: an ordered sequence of
//! Add/Remove/Get actions, generated randomly but kept consistent, so that a
//! replay against an initially empty set never touches an absent key and
//! drains the set by the final action.

use vstd::prelude::*;
use crate::rng::rand_below;

verus! {

/// One operation of the synthetic workload.
#[derive(Clone, Copy, Debug, PartialEq, Eq, Structural)]
pub enum Action {
    Add(u32),
    Remove(u32),
    Get(u32),
}

/// The abstract effect of one action on a set of keys.
pub open spec fn apply_action(s: Set<u32>, a: Action) -> Set<u32> {
    match a {
        Action::Add(k) => s.insert(k),
        Action::Remove(k) => s.remove(k),
        Action::Get(_) => s,
    }
}

/// The action may be replayed against `s` without touching an absent key.
pub open spec fn action_wf(s: Set<u32>, a: Action) -> bool {
    match a {
        Action::Add(_) => true,
        Action::Remove(k) => s.contains(k),
        Action::Get(k) => s.contains(k),
    }
}

/// A Get action observes its key present in `s`.
pub open spec fn get_ok(s: Set<u32>, a: Action) -> bool {
    match a {
        Action::Get(k) => s.contains(k),
        _ => true,
    }
}

/// The set left after replaying `actions` in order, starting from `s`.
pub open spec fn replay_from(s: Set<u32>, actions: Seq<Action>) -> Set<u32>
    decreases actions.len(),
{
    if actions.len() == 0 {
        s
    } else {
        replay_from(apply_action(s, actions[0]), actions.drop_first())
    }
}

/// Every Remove and Get of `actions`, replayed from `s`, targets a key that
/// is present at that point.
pub open spec fn wf_from(s: Set<u32>, actions: Seq<Action>) -> bool
    decreases actions.len(),
{
    actions.len() == 0 || (action_wf(s, actions[0]) && wf_from(
        apply_action(s, actions[0]),
        actions.drop_first(),
    ))
}

/// Every Get of `actions`, replayed from `s`, observes its key present.
pub open spec fn gets_present_from(s: Set<u32>, actions: Seq<Action>) -> bool
    decreases actions.len(),
{
    actions.len() == 0 || (get_ok(s, actions[0]) && gets_present_from(
        apply_action(s, actions[0]),
        actions.drop_first(),
    ))
}

/// A consistent workload: replaying from the empty set never touches an
/// absent key, and the set ends empty after the last action.
pub open spec fn replay_ok(actions: Seq<Action>) -> bool {
    &&& wf_from(Set::<u32>::empty(), actions)
    &&& replay_from(Set::<u32>::empty(), actions) == Set::<u32>::empty()
}

/// The keys carried by the Add actions, in order.
pub open spec fn add_keys(actions: Seq<Action>) -> Seq<u32>
    decreases actions.len(),
{
    if actions.len() == 0 {
        Seq::empty()
    } else {
        (match actions[0] {
            Action::Add(k) => seq![k],
            _ => Seq::<u32>::empty(),
        }) + add_keys(actions.drop_first())
    }
}

/// The Add keys of a sequence of increasing fresh keys: the i-th Add
/// carries key i.
pub open spec fn fresh_add_keys(actions: Seq<Action>) -> bool {
    add_keys(actions) =~= Seq::new(add_keys(actions).len(), |i: int| i as u32)
}

/// Appending one action appends its key to the Add keys if it is an Add,
/// and nothing otherwise.
pub proof fn lemma_add_keys_snoc(actions: Seq<Action>, a: Action)
    ensures
        add_keys(actions.push(a)) == add_keys(actions) + (match a {
            Action::Add(k) => seq![k],
            _ => Seq::<u32>::empty(),
        }),
    decreases actions.len(),
{
    let tail = (match a {
        Action::Add(k) => seq![k],
        _ => Seq::<u32>::empty(),
    });
    if actions.len() == 0 {
        reveal_with_fuel(add_keys, 2);
        assert(actions.push(a)[0] == a);
        assert(actions.push(a).drop_first() =~= Seq::<Action>::empty());
        assert(add_keys(actions.push(a)) =~= add_keys(actions) + tail);
    } else {
        assert(actions.push(a)[0] == actions[0]);
        assert(actions.push(a).drop_first() =~= actions.drop_first().push(a));
        lemma_add_keys_snoc(actions.drop_first(), a);
        assert(add_keys(actions.push(a)) =~= add_keys(actions) + tail);
    }
}

/// Appending one action replays as one more abstract step, and the
/// well-formedness and Get-observation predicates extend accordingly.
pub proof fn lemma_step_snoc(s: Set<u32>, actions: Seq<Action>, a: Action)
    ensures
        replay_from(s, actions.push(a)) == apply_action(replay_from(s, actions), a),
        wf_from(s, actions.push(a)) == (wf_from(s, actions) && action_wf(
            replay_from(s, actions),
            a,
        )),
        gets_present_from(s, actions.push(a)) == (gets_present_from(s, actions) && get_ok(
            replay_from(s, actions),
            a,
        )),
    decreases actions.len(),
{
    if actions.len() == 0 {
        let t = actions.push(a);
        assert(t[0] == a);
        assert(t.drop_first() =~= Seq::<Action>::empty());
        assert(replay_from(apply_action(s, a), Seq::<Action>::empty()) == apply_action(s, a));
        assert(wf_from(apply_action(s, a), Seq::<Action>::empty()));
        assert(gets_present_from(apply_action(s, a), Seq::<Action>::empty()));
        assert(replay_from(s, t) == apply_action(s, a));
        assert(wf_from(s, t) == action_wf(s, a));
        assert(gets_present_from(s, t) == get_ok(s, a));
    } else {
        assert(actions.push(a)[0] == actions[0]);
        assert(actions.push(a).drop_first() =~= actions.drop_first().push(a));
        lemma_step_snoc(apply_action(s, actions[0]), actions.drop_first(), a);
    }
}

/// A well-formed replay observes every Get present: the Get clause of
/// `wf_from` is exactly the observation `gets_present_from` asks for.
pub proof fn lemma_wf_gets_present(s: Set<u32>, actions: Seq<Action>)
    requires
        wf_from(s, actions),
    ensures
        gets_present_from(s, actions),
    decreases actions.len(),
{
    if actions.len() > 0 {
        lemma_wf_gets_present(apply_action(s, actions[0]), actions.drop_first());
    }
}

/// Pushing a key adds it to the set of elements.
proof fn lemma_to_set_push(s: Seq<u32>, x: u32)
    ensures
        s.push(x).to_set() =~= s.to_set().insert(x),
{
    let t = s.push(x);
    assert forall|a: u32| t.to_set().contains(a) implies s.to_set().insert(x).contains(a) by {
        let i = choose|i: int| 0 <= i < t.len() && t[i] == a;
        if i < s.len() {
            assert(s[i] == a);
        }
    };
    assert forall|a: u32| s.to_set().insert(x).contains(a) implies t.to_set().contains(a) by {
        if a == x {
            assert(t[s.len() as int] == a);
        } else {
            let i = choose|i: int| 0 <= i < s.len() && s[i] == a;
            assert(t[i] == a);
        }
    };
}

/// Swap-with-last removal of a duplicate-free sequence removes exactly the
/// element at the given index from the set of elements.
proof fn lemma_to_set_swap_remove(s: Seq<u32>, i: int)
    requires
        0 <= i < s.len(),
        s.no_duplicates(),
    ensures
        s.update(i, s.last()).drop_last().to_set() =~= s.to_set().remove(s[i]),
        s.update(i, s.last()).drop_last().no_duplicates(),
{
    let t = s.update(i, s.last()).drop_last();
    assert forall|a: u32| t.to_set().contains(a) implies s.to_set().remove(s[i]).contains(a) by {
        let j = choose|j: int| 0 <= j < t.len() && t[j] == a;
        if j == i {
            assert(s[s.len() - 1] == a);
        } else {
            assert(s[j] == a);
        }
    };
    assert forall|a: u32| s.to_set().remove(s[i]).contains(a) implies t.to_set().contains(a) by {
        let j = choose|j: int| 0 <= j < s.len() && s[j] == a;
        if j == s.len() - 1 {
            assert(t[i] == a);
        } else {
            assert(t[j] == a);
        }
    };
    assert forall|j: int, k: int|
        0 <= j < t.len() && 0 <= k < t.len() && j != k implies t[j] != t[k] by {
        assert(t[j] == if j == i { s[s.len() - 1] } else { s[j] });
        assert(t[k] == if k == i { s[s.len() - 1] } else { s[k] });
    };
}

/// Generates a consistent workload of exactly `num_actions` actions.
///
/// Forced moves keep the sequence consistent: an Add when the live set is
/// empty, a Remove when every remaining action is needed to drain the live
/// set. Otherwise the choice is uniform over {Add, Remove, Get, Get, Get,
/// Get}, except that an Add (or a Remove) falls back to a Get when it would
/// make draining the set by the final action impossible. Added keys come
/// from a strictly increasing counter and are never reused.
///
/// A single action can only be an Add, which no sequence of length one can
/// drain, so the drain guarantee excludes `num_actions == 1`.
pub fn build_actions(num_actions: usize) -> (actions: Vec<Action>)
    requires
        num_actions <= 0xFFFF_FFFF,
    ensures
        actions@.len() == num_actions,
        wf_from(Set::<u32>::empty(), actions@),
        fresh_add_keys(actions@),
        num_actions != 1 ==> replay_ok(actions@),
        num_actions == 1 ==> actions@ == seq![Action::Add(0u32)],
{
    let mut actions: Vec<Action> = Vec::new();
    if num_actions == 1 {
        actions.push(Action::Add(0));
        proof {
            lemma_step_snoc(Set::<u32>::empty(), Seq::<Action>::empty(), Action::Add(0));
            lemma_add_keys_snoc(Seq::<Action>::empty(), Action::Add(0));
            assert(actions@ =~= seq![Action::Add(0u32)]);
            assert(add_keys(actions@) =~= Seq::new(1, |i: int| i as u32));
        }
        return actions;
    }

    let mut live: Vec<u32> = Vec::new();
    let mut counter: u32 = 0;
    let mut i: usize = 0;
    proof {
        assert(add_keys(actions@) =~= Seq::new(0, |i: int| i as u32));
    }
    while i < num_actions
        invariant
            i <= num_actions <= 0xFFFF_FFFF,
            num_actions != 1,
            actions@.len() == i,
            live@.len() <= num_actions - i,
            live@.len() >= 1 || num_actions - i != 1,
            live@.no_duplicates(),
            forall|j: int| 0 <= j < live@.len() ==> #[trigger] live@[j] < counter,
            counter <= i,
            add_keys(actions@) == Seq::new(counter as nat, |i: int| i as u32),
            wf_from(Set::<u32>::empty(), actions@),
            replay_from(Set::<u32>::empty(), actions@) == live@.to_set(),
        decreases num_actions - i,
    {
        let num_remaining = num_actions - i;
        let live_len = live.len();

        // 0 = Add, 1 = Remove, 2 = Get
        let kind: usize = if live_len == 0 {
            0
        } else if live_len == num_remaining {
            1
        } else {
            let c = rand_below(6);
            if c == 0 {
                // an Add must leave room to drain the set afterwards
                if live_len <= num_remaining - 2 {
                    0
                } else {
                    2
                }
            } else if c == 1 {
                // a Remove must not strand an empty set with one action left
                if live_len == 1 && num_remaining == 2 {
                    2
                } else {
                    1
                }
            } else {
                2
            }
        };

        if kind == 0 {
            let val = counter;
            counter = counter + 1;
            proof {
                assert(!live@.contains(val)) by {
                    if live@.contains(val) {
                        let j = choose|j: int| 0 <= j < live@.len() && live@[j] == val;
                        assert(live@[j] < val);
                    }
                }
                lemma_to_set_push(live@, val);
                lemma_step_snoc(Set::<u32>::empty(), actions@, Action::Add(val));
                lemma_add_keys_snoc(actions@, Action::Add(val));
                assert(add_keys(actions@) + seq![val] =~= Seq::new(val as nat + 1, |i: int| i as u32));
            }
            live.push(val);
            actions.push(Action::Add(val));
            proof {
                assert forall|j: int, k: int|
                    0 <= j < live@.len() && 0 <= k < live@.len() && j != k implies live@[j]
                    != live@[k] by {}
            }
        } else if kind == 1 {
            let idx = rand_below(live.len());
            proof {
                assert(live@.contains(live@[idx as int]));
                lemma_to_set_swap_remove(live@, idx as int);
                lemma_step_snoc(Set::<u32>::empty(), actions@, Action::Remove(live@[idx as int]));
                lemma_add_keys_snoc(actions@, Action::Remove(live@[idx as int]));
                assert(add_keys(actions@) + Seq::<u32>::empty() =~= add_keys(actions@));
            }
            let ghost old_live = live@;
            let val = live.swap_remove(idx);
            actions.push(Action::Remove(val));
            proof {
                assert forall|j: int| 0 <= j < live@.len() implies #[trigger] live@[j]
                    < counter by {
                    assert(live@[j] == if j == idx as int {
                        old_live[old_live.len() - 1]
                    } else {
                        old_live[j]
                    });
                }
            }
        } else {
            let idx = rand_below(live.len());
            let val = live[idx];
            proof {
                assert(live@.contains(val));
                lemma_step_snoc(Set::<u32>::empty(), actions@, Action::Get(val));
                lemma_add_keys_snoc(actions@, Action::Get(val));
                assert(add_keys(actions@) + Seq::<u32>::empty() =~= add_keys(actions@));
            }
            actions.push(Action::Get(val));
        }
        i = i + 1;
    }
    proof {
        assert(live@.to_set() =~= Set::<u32>::empty()) by {
            assert(forall|a: u32| !live@.contains(a));
        }
    }
    actions
}

} // verus!
