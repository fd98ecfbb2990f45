//! The pairing in which a run ends is the best that the proposers can have:
//! in no stable pairing does a proposer have a partner that it ranks before
//! the one the run gives it.

use vstd::prelude::*;
use crate::preferences::{Name, Prefs, is_bimap, lemma_rank_facts};
use crate::rounds::{Round, lemma_run_unfolds, lemma_step_lowers_budget};
use crate::stability::{
    blocking, couple, fair, lemma_head, lemma_list_at, lemma_listed_is_ranked, lemma_opening_sound,
    lemma_position, lemma_run_sound, lemma_same_rank_same_name, lemma_step_sound, sound, stable,
    theorem_stable,
};

verus! {

/// `p` is a proposer, `a` an acceptor, and they rank each other.
pub open spec fn mutual(proposers: Prefs, acceptors: Prefs, p: Name, a: Name) -> bool {
    couple(proposers, acceptors, p, a) && proposers.rank(p, a).is_some()
}

/// `m` is a pairing of proposers with acceptors that rank each other.
pub open spec fn matching(proposers: Prefs, acceptors: Prefs, m: Map<Name, Name>) -> bool {
    &&& is_bimap(m)
    &&& forall|k: Name| #[trigger]
        m.contains_key(k) ==> mutual(proposers, acceptors, k, m[k]) || mutual(
            proposers,
            acceptors,
            m[k],
            k,
        )
}

/// In the pairing `other` the proposer at `i` has the entry at `j` of its
/// list for its partner.
pub open spec fn gives(proposers: Prefs, other: Map<Name, Name>, i: int, j: int) -> bool {
    other.contains_key(proposers.names[i]) && other[proposers.names[i]] == proposers.lists[i][j]
}

/// No proposer has lost a chance: an entry that it took from its list and
/// does not have for its partner is its partner in no stable pairing.
pub open spec fn no_chance_lost(proposers: Prefs, acceptors: Prefs, round: Round) -> bool {
    forall|other: Map<Name, Name>, i: int, j: int|
        matching(proposers, acceptors, other) && stable(proposers, acceptors, other) && 0 <= i
            < proposers.names.len() && 0 <= j < round.cursors.taken[i] && #[trigger] gives(
            proposers,
            other,
            i,
            j,
        ) ==> gives(proposers, round.matched, i, j)
}

/// Where an acceptor ranks the proposer `winner` before its partner in
/// `other`, and `winner` has in `other` none of the entries of its list
/// before that acceptor, the two of them block `other`.
pub proof fn lemma_rival_blocks(
    proposers: Prefs,
    acceptors: Prefs,
    other: Map<Name, Name>,
    loser: Name,
    w: int,
    k: int,
)
    requires
        proposers.wf(),
        acceptors.wf(),
        forall|n: Name| !(proposers.has(n) && acceptors.has(n)),
        matching(proposers, acceptors, other),
        0 <= w < proposers.names.len(),
        0 <= k < proposers.lists[w].len(),
        other.contains_key(loser),
        other[loser] == proposers.lists[w][k],
        proposers.names[w] != loser,
        acceptors.prefers(proposers.lists[w][k], proposers.names[w], loser),
        forall|r: int| 0 <= r < k ==> !gives(proposers, other, w, r),
    ensures
        blocking(proposers, acceptors, other, proposers.names[w], proposers.lists[w][k]),
{
    let winner = proposers.names[w];
    let a = proposers.lists[w][k];
    let list = proposers.lists[w];
    lemma_list_at(proposers, w);
    lemma_listed_is_ranked(list, k);
    assert(other.contains_key(a) && other[a] == loser);
    if other.contains_key(winner) {
        let b = other[winner];
        assert(other.contains_key(b) && other[b] == winner);
        assert(b != a);
        if mutual(proposers, acceptors, b, winner) {
            assert(acceptors.has(winner));
            assert(false);
        }
        assert(mutual(proposers, acceptors, winner, b));
        lemma_rank_facts(list, b);
        let r = proposers.rank(winner, b).unwrap() as int;
        assert(list[r] == b);
        if r < k {
            assert(gives(proposers, other, w, r));
        }
        assert(r != k);
        assert(proposers.prefers(winner, a, b));
    }
}

/// A round loses no proposer a chance.
pub proof fn lemma_step_keeps_chances(
    proposers: Prefs,
    acceptors: Prefs,
    strict: bool,
    round: Round,
)
    requires
        fair(proposers, acceptors, strict),
        sound(proposers, acceptors, strict, round),
        no_chance_lost(proposers, acceptors, round),
        !round.done(),
        round.step(acceptors, strict).fault.is_none(),
    ensures
        no_chance_lost(proposers, acceptors, round.step(acceptors, strict)),
{
    let p = round.pool[0];
    let m = round.matched;
    let at = proposers.names.index_of(p);
    let next = round.step(acceptors, strict);
    lemma_head(proposers, acceptors, strict, round);
    lemma_step_sound(proposers, acceptors, strict, round);
    lemma_list_at(proposers, at);
    if round.cursors.peek(p).is_some() {
        let a = round.cursors.peek(p).unwrap();
        let t0 = round.cursors.taken[at] as int;
        assert(proposers.lists[at][t0] == a);
        assert forall|other: Map<Name, Name>, i: int, j: int|
            matching(proposers, acceptors, other) && stable(proposers, acceptors, other) && 0 <= i
                < proposers.names.len() && 0 <= j < next.cursors.taken[i] && #[trigger] gives(
                proposers,
                other,
                i,
                j,
            ) implies gives(proposers, next.matched, i, j) by {
            if i == at && j == t0 {
                assert(other.contains_key(p) && other[p] == a);
                assert(mutual(proposers, acceptors, p, a)) by {
                    if mutual(proposers, acceptors, a, p) {
                        assert(acceptors.has(p));
                    }
                }
                if m.contains_key(a) && acceptors.prefers(a, m[a], p) {
                    let q = m[a];
                    assert(m.contains_key(q) && m[q] == a);
                    assert(couple(proposers, acceptors, q, a));
                    lemma_position(proposers, q);
                    let w = proposers.names.index_of(q);
                    let k = round.cursors.taken[w] - 1;
                    assert(m.contains_key(proposers.names[w]));
                    assert(round.cursors.taken[w] <= proposers.lists[w].len());
                    assert(proposers.lists[w][k] == a);
                    assert(other.contains_key(a) && other[a] == p);
                    assert forall|r: int| 0 <= r < k implies !gives(proposers, other, w, r) by {
                        if gives(proposers, other, w, r) {
                            assert(gives(proposers, m, w, r));
                            assert(other.contains_key(other[q]) && other[other[q]] == q);
                        }
                    }
                    lemma_rival_blocks(proposers, acceptors, other, p, w, k);
                    assert(false);
                }
            } else {
                assert(j < round.cursors.taken[i]);
                assert(gives(proposers, m, i, j));
                let x = proposers.names[i];
                assert(proposers.has(x));
                assert(x != p);
                if m.contains_key(a) && acceptors.prefers(a, p, m[a]) && x == m[a] {
                    assert(proposers.lists[i][j] == a);
                    assert(other.contains_key(x) && other[x] == a);
                    assert forall|r: int| 0 <= r < t0 implies !gives(proposers, other, at, r) by {
                        if gives(proposers, other, at, r) {
                            assert(gives(proposers, m, at, r));
                        }
                    }
                    lemma_rival_blocks(proposers, acceptors, other, x, at, t0);
                    assert(false);
                }
            }
        }
    }
}

/// A run loses no proposer a chance.
pub proof fn lemma_run_keeps_chances(
    proposers: Prefs,
    acceptors: Prefs,
    strict: bool,
    round: Round,
)
    requires
        fair(proposers, acceptors, strict),
        sound(proposers, acceptors, strict, round),
        no_chance_lost(proposers, acceptors, round),
        round.run(acceptors, strict).fault.is_none(),
    ensures
        no_chance_lost(proposers, acceptors, round.run(acceptors, strict)),
    decreases round.budget(),
{
    lemma_run_unfolds(round, acceptors, strict);
    if !round.done() {
        let next = round.step(acceptors, strict);
        lemma_step_lowers_budget(round, acceptors, strict);
        lemma_step_sound(proposers, acceptors, strict, round);
        lemma_run_unfolds(next, acceptors, strict);
        lemma_step_keeps_chances(proposers, acceptors, strict, round);
        lemma_run_keeps_chances(proposers, acceptors, strict, next);
    }
}

/// The pairing in which a run on fair sides ends is the best for the
/// proposers among the stable pairings: whoever has a partner in a stable
/// pairing has one at the end of the run, and does not rank the other
/// pairing's partner before the run's.
pub proof fn theorem_best_for_proposers(
    proposers: Prefs,
    acceptors: Prefs,
    strict: bool,
    other: Map<Name, Name>,
    p: Name,
)
    requires
        fair(proposers, acceptors, strict),
        Round::opening(proposers).run(acceptors, strict).fault.is_none(),
        matching(proposers, acceptors, other),
        stable(proposers, acceptors, other),
        proposers.has(p),
        other.contains_key(p),
    ensures
        Round::opening(proposers).run(acceptors, strict).matched.contains_key(p),
        !proposers.prefers(
            p,
            other[p],
            Round::opening(proposers).run(acceptors, strict).matched[p],
        ),
{
    let start = Round::opening(proposers);
    let end = start.run(acceptors, strict);
    let m = end.matched;
    lemma_opening_sound(proposers, acceptors, strict);
    lemma_run_sound(proposers, acceptors, strict, start);
    lemma_run_keeps_chances(proposers, acceptors, strict, start);
    lemma_position(proposers, p);
    let i = proposers.names.index_of(p);
    let list = proposers.lists[i];
    let b = other[p];
    assert(mutual(proposers, acceptors, p, b)) by {
        if mutual(proposers, acceptors, b, p) {
            assert(acceptors.has(p));
        }
    }
    lemma_rank_facts(list, b);
    let r = proposers.rank(p, b).unwrap() as int;
    assert(list[r] == b);
    assert(end.cursors.taken[i] <= list.len());
    if !m.contains_key(p) {
        assert(!end.pool.contains(proposers.names[i]));
        assert(gives(proposers, other, i, r));
        assert(gives(proposers, m, i, r));
    } else if proposers.prefers(p, b, m[p]) {
        assert(m.contains_key(proposers.names[i]));
        lemma_listed_is_ranked(list, end.cursors.taken[i] - 1);
        assert(r < end.cursors.taken[i]);
        assert(gives(proposers, other, i, r));
        assert(gives(proposers, m, i, r));
    }
}

/// Best for the proposers: in no stable pairing of proposers and acceptors
/// that rank each other does a proposer have a partner that it ranks before
/// its partner in `m`, or a partner at all where it has none in `m`.
pub open spec fn best_for_proposers(proposers: Prefs, acceptors: Prefs, m: Map<Name, Name>) -> bool {
    forall|other: Map<Name, Name>, p: Name|
        matching(proposers, acceptors, other) && stable(proposers, acceptors, other)
            && proposers.has(p) && #[trigger] other.contains_key(p) ==> m.contains_key(p)
            && !proposers.prefers(p, other[p], m[p])
}

/// The pairing in which a run on fair sides ends is itself a stable pairing
/// of proposers and acceptors that rank each other, the best of them for the
/// proposers and the worst for the acceptors. There is one such pairing
/// only, so the order in which the pool is served does not show in it.
pub proof fn theorem_optimal(proposers: Prefs, acceptors: Prefs, strict: bool)
    requires
        fair(proposers, acceptors, strict),
        Round::opening(proposers).run(acceptors, strict).fault.is_none(),
    ensures
        matching(proposers, acceptors, Round::opening(proposers).run(acceptors, strict).matched),
        stable(proposers, acceptors, Round::opening(proposers).run(acceptors, strict).matched),
        best_for_proposers(
            proposers,
            acceptors,
            Round::opening(proposers).run(acceptors, strict).matched,
        ),
        worst_for_acceptors(
            proposers,
            acceptors,
            Round::opening(proposers).run(acceptors, strict).matched,
        ),
{
    let start = Round::opening(proposers);
    let end = start.run(acceptors, strict);
    let m = end.matched;
    lemma_opening_sound(proposers, acceptors, strict);
    lemma_run_sound(proposers, acceptors, strict, start);
    theorem_stable(proposers, acceptors, strict);
    assert forall|k: Name| #[trigger] m.contains_key(k) implies mutual(
        proposers,
        acceptors,
        k,
        m[k],
    ) || mutual(proposers, acceptors, m[k], k) by {
        let p = if couple(proposers, acceptors, k, m[k]) {
            k
        } else {
            m[k]
        };
        assert(m.contains_key(m[k]) && m[m[k]] == k);
        lemma_position(proposers, p);
        let i = proposers.names.index_of(p);
        assert(m.contains_key(proposers.names[i]));
        assert(end.cursors.taken[i] <= proposers.lists[i].len());
        lemma_listed_is_ranked(proposers.lists[i], end.cursors.taken[i] - 1);
    }
    assert forall|other: Map<Name, Name>, p: Name|
        matching(proposers, acceptors, other) && stable(proposers, acceptors, other)
            && proposers.has(p) && #[trigger] other.contains_key(p) implies m.contains_key(p)
        && !proposers.prefers(p, other[p], m[p]) by {
        theorem_best_for_proposers(proposers, acceptors, strict, other, p);
    }
    theorem_worst_for_acceptors(proposers, acceptors, m);
}

/// Worst for the acceptors: an acceptor that has a partner in `m` has one in
/// every stable pairing of proposers and acceptors that rank each other, and
/// does not rank its partner in `m` before that one.
pub open spec fn worst_for_acceptors(proposers: Prefs, acceptors: Prefs, m: Map<Name, Name>) -> bool {
    forall|other: Map<Name, Name>, a: Name|
        matching(proposers, acceptors, other) && stable(proposers, acceptors, other)
            && acceptors.has(a) && #[trigger] m.contains_key(a) ==> #[trigger] other.contains_key(
            a,
        ) && !acceptors.prefers(a, m[a], other[a])
}

/// What is best for the proposers is worst for the acceptors.
pub proof fn theorem_worst_for_acceptors(proposers: Prefs, acceptors: Prefs, m: Map<Name, Name>)
    requires
        proposers.wf(),
        acceptors.wf(),
        forall|n: Name| !(proposers.has(n) && acceptors.has(n)),
        matching(proposers, acceptors, m),
        best_for_proposers(proposers, acceptors, m),
    ensures
        worst_for_acceptors(proposers, acceptors, m),
{
    assert forall|other: Map<Name, Name>, a: Name|
        matching(proposers, acceptors, other) && stable(proposers, acceptors, other)
            && acceptors.has(a) && #[trigger] m.contains_key(a) implies #[trigger] other.contains_key(
        a,
    ) && !acceptors.prefers(a, m[a], other[a]) by {
        let p = m[a];
        assert(m.contains_key(p) && m[p] == a);
        assert(mutual(proposers, acceptors, p, a)) by {
            if mutual(proposers, acceptors, a, p) {
                assert(proposers.has(a));
            }
        }
        if !other.contains_key(a) || acceptors.prefers(a, p, other[a]) {
            if other.contains_key(p) {
                let b = other[p];
                assert(other.contains_key(b) && other[b] == p);
                assert(b != a);
                assert(mutual(proposers, acceptors, p, b)) by {
                    if mutual(proposers, acceptors, b, p) {
                        assert(acceptors.has(p));
                    }
                }
                if proposers.rank(p, a) == proposers.rank(p, b) {
                    lemma_same_rank_same_name(proposers.list_of(p), a, b);
                }
                assert(proposers.prefers(p, a, b));
            }
            assert(blocking(proposers, acceptors, other, p, a));
        }
    }
}

/// Two stable pairings that are both best for the proposers give every
/// proposer the same partner.
pub proof fn theorem_best_is_unique(
    proposers: Prefs,
    acceptors: Prefs,
    first: Map<Name, Name>,
    second: Map<Name, Name>,
    p: Name,
)
    requires
        proposers.wf(),
        acceptors.wf(),
        forall|n: Name| !(proposers.has(n) && acceptors.has(n)),
        matching(proposers, acceptors, first),
        stable(proposers, acceptors, first),
        best_for_proposers(proposers, acceptors, first),
        matching(proposers, acceptors, second),
        stable(proposers, acceptors, second),
        best_for_proposers(proposers, acceptors, second),
        proposers.has(p),
    ensures
        first.contains_key(p) == second.contains_key(p),
        first.contains_key(p) ==> first[p] == second[p],
{
    if first.contains_key(p) {
        assert(second.contains_key(p));
        assert(mutual(proposers, acceptors, p, first[p])) by {
            if mutual(proposers, acceptors, first[p], p) {
                assert(acceptors.has(p));
            }
        }
        assert(mutual(proposers, acceptors, p, second[p])) by {
            if mutual(proposers, acceptors, second[p], p) {
                assert(acceptors.has(p));
            }
        }
        if proposers.rank(p, first[p]) == proposers.rank(p, second[p]) {
            lemma_same_rank_same_name(proposers.list_of(p), first[p], second[p]);
        }
    }
    if second.contains_key(p) {
        assert(first.contains_key(p));
    }
}

} // verus!
