//! The check that two preference stores fit each other: each side ranks
//! exactly the participants of the other, each of them once.

use vstd::prelude::*;
use vstd::hash_set::StringHashSet;
use crate::models::{Rankings, entry_lists, entry_names};
use crate::preferences::{Name, Prefs};

verus! {

/// Which store breaks which condition, and the participant whose list does.
#[derive(Debug, PartialEq, Eq)]
pub enum SymmetryError {
    /// A list of the first store does not hold exactly the participants of
    /// the second.
    FirstMembers(String),
    /// A list of the second store does not hold exactly the participants of
    /// the first.
    SecondMembers(String),
    /// A list of the first store is not as long as the second store has
    /// participants.
    FirstLength(String),
    /// A list of the second store is not as long as the first store has
    /// participants.
    SecondLength(String),
}

impl SymmetryError {
    /// The words for the condition that fails.
    pub open spec fn text(&self) -> Seq<char> {
        match *self {
            SymmetryError::FirstMembers(_) =>
                "Data input error: Preferences in ranking1 are not the same as the entities in ranking2"@,
            SymmetryError::SecondMembers(_) =>
                "Data input error: Preferences in ranking2 are not the same as the entities in ranking1"@,
            SymmetryError::FirstLength(_) =>
                "Data input error: Number of preferences does not equal number of entities listed in ranking1"@,
            SymmetryError::SecondLength(_) =>
                "Data input error: Number of preferences does not equal number of entities listed in ranking2"@,
        }
    }

    /// Which condition fails, in words.
    pub fn message(&self) -> (text: &'static str)
        ensures
            text@ == self.text(),
    {
        match self {
            SymmetryError::FirstMembers(_) =>
                "Data input error: Preferences in ranking1 are not the same as the entities in ranking2",
            SymmetryError::SecondMembers(_) =>
                "Data input error: Preferences in ranking2 are not the same as the entities in ranking1",
            SymmetryError::FirstLength(_) =>
                "Data input error: Number of preferences does not equal number of entities listed in ranking1",
            SymmetryError::SecondLength(_) =>
                "Data input error: Number of preferences does not equal number of entities listed in ranking2",
        }
    }

    /// The participant whose list fails the condition.
    pub fn participant(&self) -> (name: &String)
        ensures
            name == match *self {
                SymmetryError::FirstMembers(n) => n,
                SymmetryError::SecondMembers(n) => n,
                SymmetryError::FirstLength(n) => n,
                SymmetryError::SecondLength(n) => n,
            },
    {
        match self {
            SymmetryError::FirstMembers(n) => n,
            SymmetryError::SecondMembers(n) => n,
            SymmetryError::FirstLength(n) => n,
            SymmetryError::SecondLength(n) => n,
        }
    }
}

/// `list` and `keys` hold the same names, whatever their order and number.
pub open spec fn same_members(list: Seq<Name>, keys: Seq<Name>) -> bool {
    forall|n: Name| list.contains(n) <==> keys.contains(n)
}

/// Every list of `a` holds exactly the participants of `b`.
pub open spec fn members_hold(a: Prefs, b: Prefs) -> bool {
    forall|i: int| 0 <= i < a.lists.len() ==> same_members(#[trigger] a.lists[i], b.names)
}

/// Every list of `a` is as long as `b` has participants.
pub open spec fn lengths_hold(a: Prefs, b: Prefs) -> bool {
    forall|i: int| 0 <= i < a.lists.len() ==> (#[trigger] a.lists[i]).len() == b.names.len()
}

/// The list at `i` is the first of `a` that does not hold exactly the
/// participants of `b`.
pub open spec fn members_fail_at(a: Prefs, b: Prefs, i: int) -> bool {
    &&& 0 <= i < a.lists.len()
    &&& !same_members(a.lists[i], b.names)
    &&& forall|k: int| 0 <= k < i ==> same_members(#[trigger] a.lists[k], b.names)
}

/// The list at `i` is the first of `a` whose length is not the number of
/// participants of `b`.
pub open spec fn lengths_fail_at(a: Prefs, b: Prefs, i: int) -> bool {
    &&& 0 <= i < a.lists.len()
    &&& a.lists[i].len() != b.names.len()
    &&& forall|k: int| 0 <= k < i ==> (#[trigger] a.lists[k]).len() == b.names.len()
}

/// The two sides fit each other: every list of either side names each
/// participant of the other side exactly once and nobody else.
pub open spec fn symmetric(a: Prefs, b: Prefs) -> bool {
    &&& members_hold(a, b)
    &&& members_hold(b, a)
    &&& lengths_hold(a, b)
    &&& lengths_hold(b, a)
}

/// What the check answers for the sides `a` and `b`: `Ok` exactly if they fit
/// each other, and otherwise the first condition that fails, in the order
/// members of `a`, members of `b`, lengths of `a`, lengths of `b`, with the
/// first participant of that side whose list fails it.
pub open spec fn verdict_fits(verdict: Result<(), SymmetryError>, a: Prefs, b: Prefs) -> bool {
    match verdict {
        Ok(()) => symmetric(a, b),
        Err(SymmetryError::FirstMembers(name)) => exists|i: int|
            members_fail_at(a, b, i) && name@ == #[trigger] a.names[i],
        Err(SymmetryError::SecondMembers(name)) => {
            &&& members_hold(a, b)
            &&& exists|i: int| members_fail_at(b, a, i) && name@ == #[trigger] b.names[i]
        },
        Err(SymmetryError::FirstLength(name)) => {
            &&& members_hold(a, b)
            &&& members_hold(b, a)
            &&& exists|i: int| lengths_fail_at(a, b, i) && name@ == #[trigger] a.names[i]
        },
        Err(SymmetryError::SecondLength(name)) => {
            &&& members_hold(a, b)
            &&& members_hold(b, a)
            &&& lengths_hold(a, b)
            &&& exists|i: int| lengths_fail_at(b, a, i) && name@ == #[trigger] b.names[i]
        },
    }
}

/// The set of the names in `names`.
fn name_set(names: &Vec<String>) -> (set: StringHashSet)
    ensures
        forall|n: Name| set@.contains(n) <==> names.deep_view().contains(n),
{
    let mut set = StringHashSet::new();
    let mut i: usize = 0;
    while i < names.len()
        invariant
            i <= names@.len(),
            forall|n: Name|
                set@.contains(n) <==> exists|j: int|
                    0 <= j < i && #[trigger] names.deep_view()[j] == n,
        decreases names@.len() - i,
    {
        let ghost before = set@;
        set.insert(names[i].clone());
        proof {
            assert forall|n: Name| set@.contains(n) implies exists|j: int|
                0 <= j < i + 1 && #[trigger] names.deep_view()[j] == n by {
                if n == names@[i as int]@ {
                    assert(names.deep_view()[i as int] == n);
                } else {
                    assert(before.contains(n));
                    let j = choose|j: int| 0 <= j < i && #[trigger] names.deep_view()[j] == n;
                    assert(names.deep_view()[j] == n);
                }
            }
            assert forall|n: Name|
                (exists|j: int|
                    0 <= j < i + 1 && #[trigger] names.deep_view()[j] == n) implies set@.contains(
                n,
            ) by {
                let j = choose|j: int| 0 <= j < i + 1 && #[trigger] names.deep_view()[j] == n;
                if j < i {
                    assert(before.contains(n));
                }
            }
        }
        i += 1;
    }
    set
}

/// Whether every name of `inner` is in the set `outer`.
fn all_within(inner: &Vec<String>, outer: &StringHashSet) -> (within: bool)
    ensures
        within == forall|n: Name| inner.deep_view().contains(n) ==> outer@.contains(n),
{
    let mut i: usize = 0;
    while i < inner.len()
        invariant
            i <= inner@.len(),
            forall|j: int| 0 <= j < i ==> outer@.contains(#[trigger] inner.deep_view()[j]),
        decreases inner@.len() - i,
    {
        if !outer.contains(inner[i].as_str()) {
            assert(inner.deep_view().contains(inner.deep_view()[i as int]));
            return false;
        }
        i += 1;
    }
    true
}

/// Whether `list` holds the same names as `keys`, whose set is `key_set`.
fn members_match(list: &Vec<String>, keys: &Vec<String>, key_set: &StringHashSet) -> (same: bool)
    requires
        forall|n: Name| key_set@.contains(n) <==> keys.deep_view().contains(n),
    ensures
        same == same_members(list.deep_view(), keys.deep_view()),
{
    if !all_within(list, key_set) {
        return false;
    }
    let listed = name_set(list);
    all_within(keys, &listed)
}

/// The first entry whose list does not hold exactly the names of `keys`.
fn first_members_failure(entries: &Vec<(String, Vec<String>)>, keys: &Vec<String>) -> (found:
    Option<usize>)
    ensures
        match found {
            Some(i) => members_fail_at(
                Prefs { names: entry_names(entries@), lists: entry_lists(entries@) },
                Prefs { names: keys.deep_view(), lists: Seq::empty() },
                i as int,
            ),
            None => members_hold(
                Prefs { names: entry_names(entries@), lists: entry_lists(entries@) },
                Prefs { names: keys.deep_view(), lists: Seq::empty() },
            ),
        },
{
    let key_set = name_set(keys);
    let mut i: usize = 0;
    while i < entries.len()
        invariant
            i <= entries@.len(),
            forall|n: Name| key_set@.contains(n) <==> keys.deep_view().contains(n),
            forall|k: int|
                0 <= k < i ==> same_members(#[trigger] entry_lists(entries@)[k], keys.deep_view()),
        decreases entries@.len() - i,
    {
        if !members_match(&entries[i].1, keys, &key_set) {
            return Some(i);
        }
        i += 1;
    }
    None
}

/// The first entry whose list is not as long as `keys`.
fn first_length_failure(entries: &Vec<(String, Vec<String>)>, keys: &Vec<String>) -> (found:
    Option<usize>)
    ensures
        match found {
            Some(i) => lengths_fail_at(
                Prefs { names: entry_names(entries@), lists: entry_lists(entries@) },
                Prefs { names: keys.deep_view(), lists: Seq::empty() },
                i as int,
            ),
            None => lengths_hold(
                Prefs { names: entry_names(entries@), lists: entry_lists(entries@) },
                Prefs { names: keys.deep_view(), lists: Seq::empty() },
            ),
        },
{
    let mut i: usize = 0;
    while i < entries.len()
        invariant
            i <= entries@.len(),
            forall|k: int|
                0 <= k < i ==> (#[trigger] entry_lists(entries@)[k]).len() == keys@.len(),
        decreases entries@.len() - i,
    {
        if entries[i].1.len() != keys.len() {
            return Some(i);
        }
        i += 1;
    }
    None
}

/// Checks that the two stores fit each other, and names the first condition
/// that fails: the members of the first store's lists, then those of the
/// second, then the lengths of the first store's lists, then those of the
/// second; within one condition the first participant in the store's order.
pub fn check_ranking_symmetry(rankings1: &Rankings, rankings2: &Rankings) -> (verdict: Result<
    (),
    SymmetryError,
>)
    ensures
        verdict_fits(verdict, rankings1@, rankings2@),
{
    let keys1 = rankings1.get_keys();
    let keys2 = rankings2.get_keys();
    let entries1 = rankings1.get_map();
    let entries2 = rankings2.get_map();
    let ghost side1 = Prefs { names: entry_names(entries1@), lists: entry_lists(entries1@) };
    let ghost side2 = Prefs { names: entry_names(entries2@), lists: entry_lists(entries2@) };
    let ghost keys_of1 = Prefs { names: keys1.deep_view(), lists: Seq::empty() };
    let ghost keys_of2 = Prefs { names: keys2.deep_view(), lists: Seq::empty() };
    match first_members_failure(entries1, &keys2) {
        Some(i) => {
            let name = entries1[i].0.clone();
            proof {
                assert(members_fail_at(side1, keys_of2, i as int));
                assert(members_fail_at(rankings1@, rankings2@, i as int));
                assert(name@ == rankings1@.names[i as int]);
            }
            return Err(SymmetryError::FirstMembers(name));
        },
        None => {
            proof {
                assert(members_hold(side1, keys_of2));
                assert(members_hold(rankings1@, rankings2@));
            }
        },
    }
    match first_members_failure(entries2, &keys1) {
        Some(i) => {
            let name = entries2[i].0.clone();
            proof {
                assert(members_fail_at(side2, keys_of1, i as int));
                assert(members_fail_at(rankings2@, rankings1@, i as int));
                assert(name@ == rankings2@.names[i as int]);
            }
            return Err(SymmetryError::SecondMembers(name));
        },
        None => {
            proof {
                assert(members_hold(side2, keys_of1));
                assert(members_hold(rankings2@, rankings1@));
            }
        },
    }
    match first_length_failure(entries1, &keys2) {
        Some(i) => {
            let name = entries1[i].0.clone();
            proof {
                assert(lengths_fail_at(side1, keys_of2, i as int));
                assert(lengths_fail_at(rankings1@, rankings2@, i as int));
                assert(name@ == rankings1@.names[i as int]);
            }
            return Err(SymmetryError::FirstLength(name));
        },
        None => {
            proof {
                assert(lengths_hold(side1, keys_of2));
                assert(lengths_hold(rankings1@, rankings2@));
            }
        },
    }
    match first_length_failure(entries2, &keys1) {
        Some(i) => {
            let name = entries2[i].0.clone();
            proof {
                assert(lengths_fail_at(side2, keys_of1, i as int));
                assert(lengths_fail_at(rankings2@, rankings1@, i as int));
                assert(name@ == rankings2@.names[i as int]);
            }
            return Err(SymmetryError::SecondLength(name));
        },
        None => {
            proof {
                assert(lengths_hold(side2, keys_of1));
                assert(lengths_hold(rankings2@, rankings1@));
            }
        },
    }
    Ok(())
}

} // verus!
