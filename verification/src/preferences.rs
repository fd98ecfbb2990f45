//! The mathematical model of participants, preference lists and pairings.

use vstd::prelude::*;

verus! {

/// A participant's identifier, as the sequence of its characters.
pub type Name = Seq<char>;

/// `r` is the first position at which `target` stands in `list`.
pub open spec fn ranked_at(list: Seq<Name>, target: Name, r: int) -> bool {
    &&& 0 <= r < list.len()
    &&& list[r] == target
    &&& forall|j: int| 0 <= j < r ==> list[j] != target
}

/// The rank of `target` in `list`: its first position, counted from zero.
pub open spec fn rank_in(list: Seq<Name>, target: Name) -> Option<nat> {
    if exists|r: int| ranked_at(list, target, r) {
        Some((choose|r: int| ranked_at(list, target, r)) as nat)
    } else {
        None
    }
}

/// A first position is the only one: whoever stands first at `r` has rank `r`.
pub proof fn lemma_rank_is_first(list: Seq<Name>, target: Name, r: int)
    requires
        ranked_at(list, target, r),
    ensures
        rank_in(list, target) == Some(r as nat),
{
    let c = choose|c: int| ranked_at(list, target, c);
    if c < r {
        assert(list[c] != target);
    } else if r < c {
        assert(list[r] != target);
    }
}

/// What a rank says: the target stands at that position and nowhere before
/// it; and a target without a rank stands nowhere in the list.
pub proof fn lemma_rank_facts(list: Seq<Name>, target: Name)
    ensures
        match rank_in(list, target) {
            Some(r) => ranked_at(list, target, r as int),
            None => forall|j: int| 0 <= j < list.len() ==> list[j] != target,
        },
{
    if rank_in(list, target).is_none() {
        assert forall|j: int| 0 <= j < list.len() implies list[j] != target by {
            if list[j] == target {
                lemma_has_first(list, target, j);
            }
        }
    }
}

/// A target that stands at `j` has a first position at or before `j`.
pub proof fn lemma_has_first(list: Seq<Name>, target: Name, j: int)
    requires
        0 <= j < list.len(),
        list[j] == target,
    ensures
        exists|r: int| ranked_at(list, target, r) && r <= j,
    decreases j,
{
    if exists|i: int| 0 <= i < j && list[i] == target {
        let i = choose|i: int| 0 <= i < j && list[i] == target;
        lemma_has_first(list, target, i);
    } else {
        assert(ranked_at(list, target, j));
    }
}

/// The name at `j` already stands at an earlier position.
pub open spec fn repeats_at(names: Seq<Name>, j: int) -> bool {
    0 <= j < names.len() && exists|i: int| 0 <= i < j && names[i] == names[j]
}

/// `j` is the first position whose name already stands before it.
pub open spec fn first_repeat_at(names: Seq<Name>, j: int) -> bool {
    repeats_at(names, j) && forall|k: int| 0 <= k < j ==> !repeats_at(names, k)
}

/// One side of the matching problem: its participants in a fixed order, and
/// for each of them the list of those it would accept, most preferred first.
pub struct Prefs {
    pub names: Seq<Name>,
    pub lists: Seq<Seq<Name>>,
}

impl Prefs {
    /// Each participant has one list, and no participant is named twice.
    pub open spec fn wf(self) -> bool {
        &&& self.names.len() == self.lists.len()
        &&& self.names.no_duplicates()
    }

    /// Whether `name` is a participant of this side.
    pub open spec fn has(self, name: Name) -> bool {
        self.names.contains(name)
    }

    /// The preference list of `name`; empty for a stranger.
    pub open spec fn list_of(self, name: Name) -> Seq<Name> {
        if self.has(name) {
            self.lists[self.names.index_of(name)]
        } else {
            Seq::empty()
        }
    }

    /// The rank that `participant` gives to `target`, if it lists it.
    pub open spec fn rank(self, participant: Name, target: Name) -> Option<nat> {
        rank_in(self.list_of(participant), target)
    }

    /// Whether `participant` lists both and ranks `first` strictly before
    /// `second`.
    pub open spec fn prefers(self, participant: Name, first: Name, second: Name) -> bool {
        match (self.rank(participant, first), self.rank(participant, second)) {
            (Some(a), Some(b)) => a < b,
            _ => false,
        }
    }
}

/// How far each participant of one side has gone through its list: `taken[i]`
/// entries of the list of `prefs.names[i]` are used up.
pub struct Cursors {
    pub prefs: Prefs,
    pub taken: Seq<nat>,
}

impl Cursors {
    /// One count per participant, none beyond the end of its list.
    pub open spec fn wf(self) -> bool {
        &&& self.prefs.wf()
        &&& self.taken.len() == self.prefs.names.len()
        &&& forall|i: int|
            0 <= i < self.taken.len() ==> #[trigger] self.taken[i] <= self.prefs.lists[i].len()
    }

    /// The cursors over `prefs` before anything was taken.
    pub open spec fn fresh(prefs: Prefs) -> Cursors {
        Cursors { prefs, taken: Seq::new(prefs.names.len(), |i: int| 0nat) }
    }

    /// The entry that `participant` would take next: none for a stranger, and
    /// none once its list is used up.
    pub open spec fn peek(self, participant: Name) -> Option<Name> {
        if self.prefs.has(participant) {
            let i = self.prefs.names.index_of(participant);
            if self.taken[i] < self.prefs.lists[i].len() {
                Some(self.prefs.lists[i][self.taken[i] as int])
            } else {
                None
            }
        } else {
            None
        }
    }

    /// The cursors after `participant` took its next entry; unchanged where
    /// it has none.
    pub open spec fn advance(self, participant: Name) -> Cursors {
        if self.peek(participant).is_some() {
            let i = self.prefs.names.index_of(participant);
            Cursors { prefs: self.prefs, taken: self.taken.update(i, self.taken[i] + 1) }
        } else {
            self
        }
    }
}

/// A pairing is a bimap: whoever is paired with someone is that one's partner
/// in turn.
pub open spec fn is_bimap(m: Map<Name, Name>) -> bool {
    forall|k: Name| #[trigger] m.contains_key(k) ==> m.contains_key(m[k]) && m[m[k]] == k
}

/// The pairing `m` with `x` and `y` paired to each other.
pub open spec fn paired(m: Map<Name, Name>, x: Name, y: Name) -> Map<Name, Name> {
    m.insert(x, y).insert(y, x)
}

/// The pairing `m` without `x` and without `y`.
pub open spec fn unpaired(m: Map<Name, Name>, x: Name, y: Name) -> Map<Name, Name> {
    m.remove(x).remove(y)
}

/// Whether `x` and `y` are recorded in `m` as each other's partner.
pub open spec fn holds_pair(m: Map<Name, Name>, x: Name, y: Name) -> bool {
    m.contains_key(x) && m[x] == y && m.contains_key(y) && m[y] == x
}

/// The pairing `m` seen from the participants `keys`: each of them that has a
/// partner, with that partner, in the order of `keys`.
pub open spec fn projected(m: Map<Name, Name>, keys: Seq<Name>) -> Seq<(Name, Name)>
    decreases keys.len(),
{
    if keys.len() == 0 {
        Seq::empty()
    } else {
        let before = projected(m, keys.drop_last());
        if m.contains_key(keys.last()) {
            before.push((keys.last(), m[keys.last()]))
        } else {
            before
        }
    }
}

} // verus!
