//! The executable data: preference stores, cursors over them, and the store
//! of current pairings.
//!
//! Names are looked up in hash maps. The order of a side's participants is
//! kept beside the map, because a run serves them in that order.

use vstd::prelude::*;
use vstd::hash_map::StringHashMap;
use vstd::string::StringExecFns;
use crate::preferences::{
    Cursors, Name, Prefs, first_repeat_at, holds_pair, is_bimap, lemma_rank_is_first, paired,
    projected, rank_in, ranked_at, repeats_at, unpaired,
};

verus! {

/// A fault inside a matching run: something that cannot happen while the two
/// sides are disjoint and, where the run demands it, complete.
#[derive(Debug, Clone, Copy, PartialEq, Eq)]
pub enum Fault {
    /// Two targets were given the same rank by one participant.
    EqualRank,
    /// A proposer was asked for its next target and had none left.
    ExhaustedList,
    /// An acceptor was asked to compare two proposers and does not rank one
    /// of them.
    Unranked,
    /// An acceptor refused a proposal and yet has no partner.
    MissingIncumbent,
    /// A proposer won an acceptor while it still had a partner itself.
    Occupied,
}

impl Fault {
    /// The words for this fault.
    pub open spec fn text(&self) -> Seq<char> {
        match *self {
            Fault::EqualRank => "Internal fault: Equal ranks should not be possible"@,
            Fault::ExhaustedList => "Internal fault: A proposer has no preference left"@,
            Fault::Unranked => "Internal fault: An acceptor does not rank a party it compares"@,
            Fault::MissingIncumbent => "Internal fault: A refusing acceptor has no partner"@,
            Fault::Occupied => "Internal fault: A winning proposer already has a partner"@,
        }
    }

    /// What went wrong, in words.
    pub fn message(&self) -> (text: &'static str)
        ensures
            text@ == self.text(),
    {
        match self {
            Fault::EqualRank => "Internal fault: Equal ranks should not be possible",
            Fault::ExhaustedList => "Internal fault: A proposer has no preference left",
            Fault::Unranked => "Internal fault: An acceptor does not rank a party it compares",
            Fault::MissingIncumbent => "Internal fault: A refusing acceptor has no partner",
            Fault::Occupied => "Internal fault: A winning proposer already has a partner",
        }
    }
}

/// The position of the first entry of `list` that equals `target`.
pub fn position(list: &Vec<String>, target: &String) -> (found: Option<usize>)
    ensures
        match found {
            Some(r) => rank_in(list.deep_view(), target@) == Some(r as nat),
            None => rank_in(list.deep_view(), target@).is_none(),
        },
{
    let mut i: usize = 0;
    while i < list.len()
        invariant
            i <= list@.len(),
            forall|j: int| 0 <= j < i ==> list.deep_view()[j] != target@,
        decreases list@.len() - i,
    {
        if list[i] == *target {
            proof {
                assert(ranked_at(list.deep_view(), target@, i as int));
                lemma_rank_is_first(list.deep_view(), target@, i as int);
            }
            return Some(i);
        }
        i += 1;
    }
    proof {
        if rank_in(list.deep_view(), target@).is_some() {
            let r = choose|r: int| ranked_at(list.deep_view(), target@, r);
            assert(list.deep_view()[r] == target@);
        }
    }
    None
}

/// A copy of `list`, name for name.
pub fn copy_names(list: &Vec<String>) -> (copy: Vec<String>)
    ensures
        copy.deep_view() == list.deep_view(),
{
    let mut copy: Vec<String> = Vec::new();
    let mut i: usize = 0;
    while i < list.len()
        invariant
            i <= list@.len(),
            copy@.len() == i,
            forall|j: int| 0 <= j < i ==> copy@[j]@ == list@[j]@,
        decreases list@.len() - i,
    {
        copy.push(list[i].clone());
        i += 1;
    }
    assert(copy.deep_view() =~= list.deep_view());
    copy
}

/// Why a preference store could not be built from its input.
#[derive(Debug, PartialEq, Eq)]
pub enum RankingError {
    /// A line is not a name, a comma and at least one preference. Holds the
    /// line.
    MalformedLine(String),
    /// A participant is named by two entries. Holds the name.
    DuplicateKey(String),
    /// The line pattern itself was refused by the pattern matcher.
    Pattern,
}

impl RankingError {
    /// What is wrong with the input, in words, with the line or the name
    /// that the error holds.
    pub fn message(&self) -> (text: String)
        ensures
            text@ == match *self {
                RankingError::MalformedLine(line) => "Data input error: Malformed line: "@ + line@,
                RankingError::DuplicateKey(name) => "Data input error: Duplicate key: "@ + name@,
                RankingError::Pattern => "Data input error: Line pattern refused"@,
            },
    {
        match self {
            RankingError::MalformedLine(line) => {
                let mut text = "Data input error: Malformed line: ".to_owned();
                text.append(line.as_str());
                text
            },
            RankingError::DuplicateKey(name) => {
                let mut text = "Data input error: Duplicate key: ".to_owned();
                text.append(name.as_str());
                text
            },
            RankingError::Pattern => "Data input error: Line pattern refused".to_owned(),
        }
    }
}

/// The preferences of one side: each participant with the list of those it
/// would accept, most preferred first. Participants keep the order in which
/// they were given; a hash map from each name to its place finds them.
pub struct Rankings {
    entries: Vec<(String, Vec<String>)>,
    index: StringHashMap<usize>,
}

/// `index` finds exactly the names of `names`, each at a place where it
/// stands.
pub open spec fn finds(index: Map<Name, usize>, names: Seq<Name>) -> bool {
    &&& forall|k: Name| #[trigger]
        index.contains_key(k) ==> index[k] < names.len() && names[index[k] as int] == k
    &&& forall|i: int| 0 <= i < names.len() ==> index.contains_key(#[trigger] names[i])
}

/// The names of `entries`, in their order.
pub open spec fn entry_names(entries: Seq<(String, Vec<String>)>) -> Seq<Name> {
    Seq::new(entries.len(), |i: int| entries[i].0@)
}

/// The preference lists of `entries`, in their order.
pub open spec fn entry_lists(entries: Seq<(String, Vec<String>)>) -> Seq<Seq<Name>> {
    Seq::new(entries.len(), |i: int| entries[i].1.deep_view())
}

impl View for Rankings {
    type V = Prefs;

    closed spec fn view(&self) -> Prefs {
        Prefs { names: entry_names(self.entries@), lists: entry_lists(self.entries@) }
    }
}

impl Rankings {
    /// The store's invariant: no participant is named twice, and the hash map
    /// finds every participant.
    pub open spec fn wf(&self) -> bool {
        self@.wf() && self.indexed()
    }

    /// The hash map finds exactly the store's participants.
    pub closed spec fn indexed(&self) -> bool {
        finds(self.index@, entry_names(self.entries@))
    }

    /// A store of the given entries, in their order. Refused where two entries
    /// name the same participant; the error holds the first name that repeats
    /// an earlier one.
    pub fn from_entries(entries: Vec<(String, Vec<String>)>) -> (made: Result<
        Rankings,
        RankingError,
    >)
        ensures
            match made {
                Ok(rankings) => {
                    &&& entry_names(entries@).no_duplicates()
                    &&& rankings.wf()
                    &&& rankings@.names == entry_names(entries@)
                    &&& rankings@.lists == entry_lists(entries@)
                },
                Err(RankingError::DuplicateKey(name)) => exists|j: int|
                    first_repeat_at(entry_names(entries@), j) && name@ == #[trigger] entry_names(
                        entries@,
                    )[j],
                Err(_) => false,
            },
    {
        let ghost names = entry_names(entries@);
        let mut index: StringHashMap<usize> = StringHashMap::new();
        let mut j: usize = 0;
        while j < entries.len()
            invariant
                j <= entries@.len(),
                names == entry_names(entries@),
                forall|k: int| 0 <= k < j ==> !repeats_at(names, k),
                finds(index@, names.subrange(0, j as int)),
            decreases entries@.len() - j,
        {
            let ghost seen = names.subrange(0, j as int);
            if index.contains_key(entries[j].0.as_str()) {
                proof {
                    let at = index@[names[j as int]] as int;
                    assert(seen[at] == names[j as int]);
                    assert(names[at] == names[j as int]);
                    assert(first_repeat_at(names, j as int));
                }
                return Err(RankingError::DuplicateKey(entries[j].0.clone()));
            }
            proof {
                if repeats_at(names, j as int) {
                    let at = choose|at: int| 0 <= at < j && names[at] == names[j as int];
                    assert(seen[at] == names[at]);
                }
            }
            let ghost before = index@;
            index.insert(entries[j].0.clone(), j);
            proof {
                let grown = names.subrange(0, j as int + 1);
                assert forall|k: Name| #[trigger] index@.contains_key(k) implies index@[k]
                    < grown.len() && grown[index@[k] as int] == k by {
                    if k != names[j as int] {
                        assert(before.contains_key(k));
                        assert(seen[before[k] as int] == k);
                    }
                }
                assert forall|i: int| 0 <= i < grown.len() implies index@.contains_key(
                    #[trigger] grown[i],
                ) by {
                    if i < j {
                        assert(seen[i] == grown[i]);
                    }
                }
            }
            j += 1;
        }
        proof {
            assert(names.subrange(0, j as int) =~= names);
            assert forall|a: int, b: int|
                0 <= a < names.len() && 0 <= b < names.len() && a != b implies names[a]
                != names[b] by {
                if names[a] == names[b] {
                    if a < b {
                        assert(repeats_at(names, b));
                    } else {
                        assert(repeats_at(names, a));
                    }
                }
            }
        }
        Ok(Rankings { entries, index })
    }

    /// A store is the side whose names and lists it holds.
    pub proof fn lemma_view(&self, side: Prefs)
        requires
            self@.names == side.names,
            self@.lists == side.lists,
        ensures
            self@ == side,
    {
    }

    /// The position of `participant` among the entries.
    fn slot(&self, participant: &String) -> (found: Option<usize>)
        requires
            self.wf(),
        ensures
            match found {
                Some(i) => i < self@.names.len() && self@.names[i as int] == participant@
                    && self@.has(participant@) && self@.names.index_of(participant@) == i,
                None => !self@.has(participant@),
            },
    {
        match self.index.get(participant.as_str()) {
            Some(place) => {
                proof {
                    assert(self@.names[*place as int] == participant@);
                    let c = self@.names.index_of(participant@);
                    assert(self@.names[c] == participant@);
                }
                Some(*place)
            },
            None => {
                proof {
                    if self@.has(participant@) {
                        let c = self@.names.index_of(participant@);
                        assert(self.index@.contains_key(self@.names[c]));
                    }
                }
                None
            },
        }
    }

    /// The rank that `participant` gives to `target`: the position of `target`
    /// in its list, counted from zero. `None` for a stranger and for a target
    /// that it does not list.
    pub fn get_rank(&self, participant: &String, target: &String) -> (rank: Option<usize>)
        requires
            self.wf(),
        ensures
            match rank {
                Some(r) => self@.rank(participant@, target@) == Some(r as nat),
                None => self@.rank(participant@, target@).is_none(),
            },
    {
        match self.slot(participant) {
            Some(i) => position(&self.entries[i].1, target),
            None => {
                proof {
                    if rank_in(Seq::<Name>::empty(), target@).is_some() {
                        let r = choose|r: int| ranked_at(Seq::<Name>::empty(), target@, r);
                        assert(ranked_at(Seq::<Name>::empty(), target@, r));
                    }
                }
                None
            },
        }
    }

    /// Whether `participant` ranks `first` before `second`. `None` where it
    /// does not rank both. Two targets at one rank are a fault, never an
    /// answer.
    pub fn prefers_first(&self, participant: &String, first: &String, second: &String) -> (answer:
        Result<Option<bool>, Fault>)
        requires
            self.wf(),
        ensures
            answer == match (
                self@.rank(participant@, first@),
                self@.rank(participant@, second@),
            ) {
                (Some(a), Some(b)) => if a == b {
                    Err::<Option<bool>, Fault>(Fault::EqualRank)
                } else {
                    Ok::<Option<bool>, Fault>(Some(a < b))
                },
                _ => Ok::<Option<bool>, Fault>(None),
            },
    {
        let first_rank = match self.get_rank(participant, first) {
            Some(r) => r,
            None => {
                return Ok(None);
            },
        };
        let second_rank = match self.get_rank(participant, second) {
            Some(r) => r,
            None => {
                return Ok(None);
            },
        };
        if first_rank < second_rank {
            Ok(Some(true))
        } else if second_rank < first_rank {
            Ok(Some(false))
        } else {
            Err(Fault::EqualRank)
        }
    }

    /// Fresh cursors over a copy of this store: every participant starts at
    /// the head of its list.
    pub fn to_iterator_map(&self) -> (cursors: RankingIterMap)
        requires
            self.wf(),
        ensures
            cursors.wf(),
            cursors@ == Cursors::fresh(self@),
    {
        let mut names: Vec<String> = Vec::new();
        let mut lists: Vec<Vec<String>> = Vec::new();
        let mut taken: Vec<usize> = Vec::new();
        let mut index: StringHashMap<usize> = StringHashMap::new();
        let mut i: usize = 0;
        assert(self@.names.subrange(0, 0) =~= Seq::<Name>::empty());
        while i < self.entries.len()
            invariant
                self.wf(),
                finds(index@, self@.names.subrange(0, i as int)),
                i <= self.entries@.len(),
                names@.len() == i,
                lists@.len() == i,
                taken@.len() == i,
                forall|j: int| 0 <= j < i ==> names@[j]@ == self.entries@[j].0@,
                forall|j: int|
                    0 <= j < i ==> (#[trigger] lists@[j]).deep_view()
                        == self.entries@[j].1.deep_view(),
                forall|j: int| 0 <= j < i ==> taken@[j] == 0,
            decreases self.entries@.len() - i,
        {
            let ghost seen = self@.names.subrange(0, i as int);
            let ghost before = index@;
            names.push(self.entries[i].0.clone());
            lists.push(copy_names(&self.entries[i].1));
            taken.push(0);
            index.insert(self.entries[i].0.clone(), i);
            proof {
                let grown = self@.names.subrange(0, i as int + 1);
                assert forall|k: Name| #[trigger] index@.contains_key(k) implies index@[k]
                    < grown.len() && grown[index@[k] as int] == k by {
                    if k != self@.names[i as int] {
                        assert(before.contains_key(k));
                        assert(seen[before[k] as int] == k);
                    }
                }
                assert forall|j: int| 0 <= j < grown.len() implies index@.contains_key(
                    #[trigger] grown[j],
                ) by {
                    if j < i {
                        assert(seen[j] == grown[j]);
                    }
                }
            }
            i += 1;
        }
        assert(self@.names.subrange(0, i as int) =~= self@.names);
        let cursors = RankingIterMap { names, lists, taken, index };
        proof {
            assert(cursors@.prefs.names =~= self@.names);
            assert(cursors@.prefs.lists =~= self@.lists);
            assert(cursors@.taken =~= Cursors::fresh(self@).taken);
        }
        cursors
    }

    /// The participants, in the store's order.
    pub fn get_keys(&self) -> (keys: Vec<String>)
        ensures
            keys.deep_view() == self@.names,
    {
        let mut keys: Vec<String> = Vec::new();
        let mut i: usize = 0;
        while i < self.entries.len()
            invariant
                i <= self.entries@.len(),
                keys@.len() == i,
                forall|j: int| 0 <= j < i ==> keys@[j]@ == self.entries@[j].0@,
            decreases self.entries@.len() - i,
        {
            keys.push(self.entries[i].0.clone());
            i += 1;
        }
        assert(keys.deep_view() =~= self@.names);
        keys
    }

    /// The entries themselves: each participant with its list, in the
    /// store's order.
    pub fn get_map(&self) -> (entries: &Vec<(String, Vec<String>)>)
        ensures
            entry_names(entries@) == self@.names,
            entry_lists(entries@) == self@.lists,
    {
        &self.entries
    }
}

/// One cursor per participant over its preference list. A cursor only moves
/// forward: an entry once handed out is never handed out again.
pub struct RankingIterMap {
    names: Vec<String>,
    lists: Vec<Vec<String>>,
    taken: Vec<usize>,
    index: StringHashMap<usize>,
}

impl View for RankingIterMap {
    type V = Cursors;

    closed spec fn view(&self) -> Cursors {
        Cursors {
            prefs: Prefs {
                names: self.names.deep_view(),
                lists: Seq::new(self.lists@.len(), |i: int| self.lists@[i].deep_view()),
            },
            taken: Seq::new(self.taken@.len(), |i: int| self.taken@[i] as nat),
        }
    }
}

impl RankingIterMap {
    /// The cursors' invariant: one count per participant, none beyond the end
    /// of its list, and the hash map finds every participant.
    pub open spec fn wf(&self) -> bool {
        self@.wf() && self.indexed()
    }

    /// The hash map finds exactly the participants.
    pub closed spec fn indexed(&self) -> bool {
        finds(self.index@, self.names.deep_view())
    }

    /// Hands out the next entry of `participant`'s list and moves its cursor
    /// past it. `None` for a stranger, and for good once the list is used up.
    pub fn next(&mut self, participant: &String) -> (target: Option<String>)
        requires
            old(self).wf(),
        ensures
            final(self).wf(),
            final(self)@ == old(self)@.advance(participant@),
            match target {
                Some(name) => old(self)@.peek(participant@) == Some(name@),
                None => old(self)@.peek(participant@).is_none(),
            },
    {
        let place = match self.index.get(participant.as_str()) {
            Some(place) => *place,
            None => {
                proof {
                    if self@.prefs.has(participant@) {
                        let c = self@.prefs.names.index_of(participant@);
                        assert(self.index@.contains_key(self@.prefs.names[c]));
                    }
                }
                return None;
            },
        };
        proof {
            assert(self@.prefs.names[place as int] == participant@);
            let c = self@.prefs.names.index_of(participant@);
            assert(self@.prefs.names[c] == participant@);
            assert(self@.taken[place as int] <= self@.prefs.lists[place as int].len());
        }
        let at = self.taken[place];
        if at < self.lists[place].len() {
            let name = self.lists[place][at].clone();
            self.taken.set(place, at + 1);
            proof {
                assert(final(self)@.taken =~= old(self)@.advance(participant@).taken);
                assert(self@.prefs.lists =~= old(self)@.prefs.lists);
            }
            return Some(name);
        }
        None
    }
}

/// Why a change to a [`Matches`] store was refused.
#[derive(Debug, Clone, Copy, PartialEq, Eq)]
pub enum MatchesError {
    /// One of the two participants already has a partner.
    KeyPresent,
    /// The two participants are not recorded as each other's partner.
    PairAbsent,
}

impl MatchesError {
    /// The message that belongs to this refusal.
    pub fn message(&self) -> (text: &'static str)
        ensures
            text@ == match *self {
                MatchesError::KeyPresent => "Key already present in Matches"@,
                MatchesError::PairAbsent => "Match not present in Matches. Cannot remove."@,
            },
    {
        match self {
            MatchesError::KeyPresent => "Key already present in Matches",
            MatchesError::PairAbsent => "Match not present in Matches. Cannot remove.",
        }
    }
}

/// The store of current pairings, readable from either partner.
///
/// Each pair is entered twice, once under either partner; the pairing that
/// the store stands for, [`Matches::view`], maps each partner to the other.
pub struct Matches {
    map: StringHashMap<String>,
}

impl View for Matches {
    type V = Map<Name, Name>;

    closed spec fn view(&self) -> Map<Name, Name> {
        Map::new(|k: Name| self.map@.contains_key(k), |k: Name| self.map@[k]@)
    }
}

impl Matches {
    /// The store's invariant: the pairing is a bimap.
    pub closed spec fn wf(&self) -> bool {
        is_bimap(self@)
    }

    /// An empty store.
    pub fn new() -> (matches: Matches)
        ensures
            matches.wf(),
            matches@ == Map::<Name, Name>::empty(),
    {
        let matches = Matches { map: StringHashMap::new() };
        assert(matches@ =~= Map::<Name, Name>::empty());
        matches
    }

    /// A well-formed store is a bimap: whoever has a partner is its partner's
    /// partner.
    pub proof fn lemma_bimap(&self)
        requires
            self.wf(),
        ensures
            is_bimap(self@),
    {
    }

    /// A recorded pair is read from both sides: where `x` has the partner
    /// `y`, `y` has the partner `x`.
    pub proof fn lemma_both_ways(&self, x: Name, y: Name)
        requires
            self.wf(),
            self@.contains_key(x),
            self@[x] == y,
        ensures
            self@.contains_key(y),
            self@[y] == x,
            holds_pair(self@, x, y),
    {
    }

    /// The partner recorded for `key`, if it has one.
    pub fn get(&self, key: &String) -> (partner: Option<String>)
        requires
            self.wf(),
        ensures
            match partner {
                Some(other) => self@.contains_key(key@) && other@ == self@[key@],
                None => !self@.contains_key(key@),
            },
    {
        match self.map.get(key.as_str()) {
            Some(other) => Some(other.clone()),
            None => None,
        }
    }

    /// Records `x` and `y` as each other's partner, unless one of them already
    /// has a partner; then nothing changes.
    pub fn insert(&mut self, x: &String, y: &String) -> (outcome: Result<(), MatchesError>)
        requires
            old(self).wf(),
        ensures
            final(self).wf(),
            old(self)@.contains_key(x@) || old(self)@.contains_key(y@) ==> {
                &&& outcome == Err::<(), MatchesError>(MatchesError::KeyPresent)
                &&& final(self)@ == old(self)@
            },
            !old(self)@.contains_key(x@) && !old(self)@.contains_key(y@) ==> {
                &&& outcome == Ok::<(), MatchesError>(())
                &&& final(self)@ == paired(old(self)@, x@, y@)
            },
    {
        if self.map.contains_key(x.as_str()) || self.map.contains_key(y.as_str()) {
            return Err(MatchesError::KeyPresent);
        }
        let ghost before = self@;
        self.map.insert(x.clone(), y.clone());
        self.map.insert(y.clone(), x.clone());
        proof {
            assert(self@ =~= paired(before, x@, y@));
            assert forall|k: Name| #[trigger] self@.contains_key(k) implies self@.contains_key(
                self@[k],
            ) && self@[self@[k]] == k by {
                if k != x@ && k != y@ {
                    assert(before.contains_key(k));
                    assert(before.contains_key(before[k]));
                }
            }
        }
        Ok(())
    }

    /// Deletes the pair of `x` and `y`, if they are recorded as each other's
    /// partner; otherwise nothing changes.
    pub fn remove(&mut self, x: &String, y: &String) -> (outcome: Result<(), MatchesError>)
        requires
            old(self).wf(),
        ensures
            final(self).wf(),
            holds_pair(old(self)@, x@, y@) ==> {
                &&& outcome == Ok::<(), MatchesError>(())
                &&& final(self)@ == unpaired(old(self)@, x@, y@)
                &&& !final(self)@.contains_key(x@)
                &&& !final(self)@.contains_key(y@)
            },
            !holds_pair(old(self)@, x@, y@) ==> {
                &&& outcome == Err::<(), MatchesError>(MatchesError::PairAbsent)
                &&& final(self)@ == old(self)@
            },
    {
        let recorded = match self.map.get(x.as_str()) {
            Some(other) => *other == *y,
            None => false,
        };
        let ghost before = self@;
        proof {
            if recorded {
                assert(before.contains_key(x@) && before[x@] == y@);
                assert(before.contains_key(before[x@]));
            }
        }
        if !recorded {
            return Err(MatchesError::PairAbsent);
        }
        self.map.remove(x.as_str());
        self.map.remove(y.as_str());
        proof {
            assert(self@ =~= unpaired(before, x@, y@));
            assert forall|k: Name| #[trigger] self@.contains_key(k) implies self@.contains_key(
                self@[k],
            ) && self@[self@[k]] == k by {
                assert(before.contains_key(k));
                assert(before.contains_key(before[k]));
                assert(before[before[k]] == k);
            }
        }
        Ok(())
    }

    /// The pairs seen from one side: each participant of that side that has
    /// a partner, with its partner, in the order of the side's store.
    /// `select_type` names the side, `"proposers"` or `"acceptors"`; any
    /// other word selects nobody.
    pub fn unique_matches(
        &self,
        proposers: &Rankings,
        acceptors: &Rankings,
        select_type: &str,
    ) -> (pairs: Vec<(String, String)>)
        requires
            self.wf(),
        ensures
            pairs.deep_view() == projected(
                self@,
                if select_type@ == "proposers"@ {
                    proposers@.names
                } else if select_type@ == "acceptors"@ {
                    acceptors@.names
                } else {
                    Seq::empty()
                },
            ),
    {
        let wanted = select_type.to_owned();
        let keys = if wanted == "proposers".to_owned() {
            proposers.get_keys()
        } else if wanted == "acceptors".to_owned() {
            acceptors.get_keys()
        } else {
            Vec::new()
        };
        let mut pairs: Vec<(String, String)> = Vec::new();
        let mut i: usize = 0;
        assert(keys.deep_view().subrange(0, 0) =~= Seq::<Name>::empty());
        while i < keys.len()
            invariant
                self.wf(),
                i <= keys@.len(),
                pairs.deep_view() == projected(self@, keys.deep_view().subrange(0, i as int)),
            decreases keys@.len() - i,
        {
            let ghost before = pairs.deep_view();
            proof {
                let upto = keys.deep_view().subrange(0, i as int + 1);
                assert(upto.drop_last() =~= keys.deep_view().subrange(0, i as int));
                assert(upto.last() == keys@[i as int]@);
            }
            match self.get(&keys[i]) {
                Some(partner) => {
                    pairs.push((keys[i].clone(), partner));
                    assert(pairs.deep_view() =~= before.push(
                        (keys@[i as int]@, self@[keys@[i as int]@]),
                    ));
                },
                None => {},
            }
            i += 1;
        }
        assert(keys.deep_view().subrange(0, i as int) =~= keys.deep_view());
        pairs
    }
}

} // verus!
