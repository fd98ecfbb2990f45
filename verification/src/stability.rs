//! What holds of a run whose two sides are disjoint: it ends without a fault,
//! the pairing it ends in is stable, and whoever is left out has been refused
//! by everyone it listed.

use vstd::prelude::*;
use vstd::relations::injective_on;
use vstd::set_lib::{lemma_len_subset, lemma_map_size, lemma_subset_equality};
use crate::checks::{same_members, symmetric};
use crate::models::Fault;
use crate::preferences::{
    Name, Prefs, is_bimap, lemma_has_first, lemma_rank_facts, lemma_rank_is_first, paired, rank_in,
    ranked_at, unpaired,
};
use crate::rounds::{Round, lemma_run_unfolds, lemma_step_lowers_budget};

verus! {

/// No participant stands on both sides.
pub open spec fn disjoint(proposers: Prefs, acceptors: Prefs) -> bool {
    forall|n: Name| !(proposers.has(n) && acceptors.has(n))
}

/// `p` is a proposer, `a` an acceptor, and `a` ranks `p`.
pub open spec fn couple(proposers: Prefs, acceptors: Prefs, p: Name, a: Name) -> bool {
    proposers.has(p) && acceptors.has(a) && acceptors.rank(a, p).is_some()
}

/// Every pair of `m` is a proposer and an acceptor that ranks it.
pub open spec fn couples_only(proposers: Prefs, acceptors: Prefs, m: Map<Name, Name>) -> bool {
    forall|k: Name| #[trigger]
        m.contains_key(k) ==> couple(proposers, acceptors, k, m[k]) || couple(
            proposers,
            acceptors,
            m[k],
            k,
        )
}

/// The acceptor `a` has a partner, and it is `p` or someone that `a` ranks
/// before `p`.
pub open spec fn settled_for(acceptors: Prefs, m: Map<Name, Name>, p: Name, a: Name) -> bool {
    m.contains_key(a) && (m[a] == p || acceptors.prefers(a, m[a], p))
}

/// The proposer `p` and the acceptor `a` rank each other, are not paired with
/// each other, and each of them is free or ranks the other before its
/// partner.
pub open spec fn blocking(
    proposers: Prefs,
    acceptors: Prefs,
    m: Map<Name, Name>,
    p: Name,
    a: Name,
) -> bool {
    &&& proposers.rank(p, a).is_some()
    &&& acceptors.rank(a, p).is_some()
    &&& !(m.contains_key(p) && m[p] == a)
    &&& m.contains_key(p) ==> proposers.prefers(p, a, m[p])
    &&& m.contains_key(a) ==> acceptors.prefers(a, p, m[a])
}

/// No proposer and acceptor would both rather have each other.
pub open spec fn stable(proposers: Prefs, acceptors: Prefs, m: Map<Name, Name>) -> bool {
    forall|p: Name, a: Name| !blocking(proposers, acceptors, m, p, a)
}

/// Whoever is ranked by a participant of a side is ranked by a participant
/// that the side knows.
pub proof fn lemma_ranking_side_has(side: Prefs, participant: Name, target: Name)
    requires
        side.rank(participant, target).is_some(),
    ensures
        side.has(participant),
{
    lemma_rank_facts(side.list_of(participant), target);
}

/// The list of the participant at position `i`.
pub proof fn lemma_list_at(side: Prefs, i: int)
    requires
        side.wf(),
        0 <= i < side.names.len(),
    ensures
        side.has(side.names[i]),
        side.names.index_of(side.names[i]) == i,
        side.list_of(side.names[i]) == side.lists[i],
{
    let c = side.names.index_of(side.names[i]);
    assert(side.names[c] == side.names[i]);
}

/// A participant has its position among the names of its side.
pub proof fn lemma_position(side: Prefs, name: Name)
    requires
        side.wf(),
        side.has(name),
    ensures
        0 <= side.names.index_of(name) < side.names.len(),
        side.names[side.names.index_of(name)] == name,
        side.list_of(name) == side.lists[side.names.index_of(name)],
{
}

/// A name that stands in a list has a rank in it, at or before where it
/// stands.
pub proof fn lemma_listed_is_ranked(list: Seq<Name>, j: int)
    requires
        0 <= j < list.len(),
    ensures
        rank_in(list, list[j]).is_some(),
        rank_in(list, list[j]).unwrap() <= j,
{
    lemma_has_first(list, list[j], j);
    let r = choose|r: int| ranked_at(list, list[j], r) && r <= j;
    lemma_rank_is_first(list, list[j], r);
}

/// Two names with the same rank in one list are the same name.
pub proof fn lemma_same_rank_same_name(list: Seq<Name>, x: Name, y: Name)
    requires
        rank_in(list, x).is_some(),
        rank_in(list, x) == rank_in(list, y),
    ensures
        x == y,
{
    lemma_rank_facts(list, x);
    lemma_rank_facts(list, y);
}

/// On sides that fit each other, whoever a proposer lists is an acceptor that
/// ranks it.
pub proof fn lemma_fit_makes_couples(proposers: Prefs, acceptors: Prefs, i: int, j: int)
    requires
        proposers.wf(),
        acceptors.wf(),
        symmetric(proposers, acceptors),
        0 <= i < proposers.names.len(),
        0 <= j < proposers.lists[i].len(),
    ensures
        couple(proposers, acceptors, proposers.names[i], proposers.lists[i][j]),
{
    let p = proposers.names[i];
    let a = proposers.lists[i][j];
    lemma_list_at(proposers, i);
    assert(same_members(proposers.lists[i], acceptors.names));
    assert(proposers.lists[i].contains(a));
    assert(acceptors.names.contains(a));
    lemma_position(acceptors, a);
    let k = acceptors.names.index_of(a);
    assert(same_members(acceptors.lists[k], proposers.names));
    assert(proposers.names.contains(p));
    assert(acceptors.lists[k].contains(p));
    let at = choose|at: int| 0 <= at < acceptors.lists[k].len() && acceptors.lists[k][at] == p;
    lemma_listed_is_ranked(acceptors.lists[k], at);
}

/// What a run asks of its two sides: no participant on both, and for a
/// strict run that the sides fit each other.
pub open spec fn fair(proposers: Prefs, acceptors: Prefs, strict: bool) -> bool {
    &&& proposers.wf()
    &&& acceptors.wf()
    &&& disjoint(proposers, acceptors)
    &&& strict ==> symmetric(proposers, acceptors)
}

/// Whoever waits in the pool is a proposer without a partner, and waits
/// there once.
pub open spec fn pool_waits(proposers: Prefs, round: Round) -> bool {
    &&& round.pool.no_duplicates()
    &&& forall|k: int|
        0 <= k < round.pool.len() ==> proposers.has(#[trigger] round.pool[k])
            && !round.matched.contains_key(round.pool[k])
}

/// Every proposer waits in the pool or has a partner or, in a relaxed run,
/// has used up its list.
pub open spec fn placed(proposers: Prefs, strict: bool, round: Round) -> bool {
    forall|i: int|
        0 <= i < proposers.names.len() ==> {
            ||| round.pool.contains(#[trigger] proposers.names[i])
            ||| round.matched.contains_key(proposers.names[i])
            ||| !strict && round.cursors.taken[i] == proposers.lists[i].len()
        }
}

/// A proposer's partner is the entry of its list that it took last.
pub open spec fn holds_last(proposers: Prefs, round: Round) -> bool {
    forall|i: int|
        0 <= i < proposers.names.len() && round.matched.contains_key(
            #[trigger] proposers.names[i],
        ) ==> round.cursors.taken[i] >= 1 && round.matched[proposers.names[i]]
            == proposers.lists[i][round.cursors.taken[i] - 1]
}

/// Every acceptor that a proposer has taken from its list and that ranks
/// the proposer is settled for it.
pub open spec fn answered(proposers: Prefs, acceptors: Prefs, round: Round) -> bool {
    forall|i: int, j: int|
        0 <= i < proposers.names.len() && 0 <= j < round.cursors.taken[i] && acceptors.rank(
            #[trigger] proposers.lists[i][j],
            proposers.names[i],
        ).is_some() ==> settled_for(
            acceptors,
            round.matched,
            proposers.names[i],
            proposers.lists[i][j],
        )
}

/// Whoever left the pool for good is a proposer, has no partner and does not
/// wait in the pool.
pub open spec fn gone_for_good(proposers: Prefs, round: Round) -> bool {
    forall|p: Name| #[trigger]
        round.left.contains(p) ==> proposers.has(p) && !round.matched.contains_key(p)
            && !round.pool.contains(p)
}

/// What holds between any two rounds of a run on fair sides.
pub open spec fn sound(proposers: Prefs, acceptors: Prefs, strict: bool, round: Round) -> bool {
    &&& round.cursors.wf()
    &&& round.cursors.prefs == proposers
    &&& round.fault.is_none()
    &&& is_bimap(round.matched)
    &&& couples_only(proposers, acceptors, round.matched)
    &&& pool_waits(proposers, round)
    &&& placed(proposers, strict, round)
    &&& holds_last(proposers, round)
    &&& answered(proposers, acceptors, round)
    &&& gone_for_good(proposers, round)
}

/// The opening state is sound.
pub proof fn lemma_opening_sound(proposers: Prefs, acceptors: Prefs, strict: bool)
    requires
        fair(proposers, acceptors, strict),
    ensures
        sound(proposers, acceptors, strict, Round::opening(proposers)),
{
    let round = Round::opening(proposers);
    assert forall|i: int| 0 <= i < proposers.names.len() implies round.pool.contains(
        #[trigger] proposers.names[i],
    ) by {
        assert(round.pool[i] == proposers.names[i]);
    }
}

/// The proposer at the head of the pool, and those that wait behind it.
pub proof fn lemma_head(proposers: Prefs, acceptors: Prefs, strict: bool, round: Round)
    requires
        fair(proposers, acceptors, strict),
        sound(proposers, acceptors, strict, round),
        !round.done(),
    ensures
        proposers.has(round.pool[0]),
        !round.matched.contains_key(round.pool[0]),
        0 <= proposers.names.index_of(round.pool[0]) < proposers.names.len(),
        proposers.names[proposers.names.index_of(round.pool[0])] == round.pool[0],
        round.pool.drop_first().no_duplicates(),
        !round.pool.drop_first().contains(round.pool[0]),
        forall|k: int|
            0 <= k < round.pool.drop_first().len() ==> proposers.has(
                #[trigger] round.pool.drop_first()[k],
            ) && !round.matched.contains_key(round.pool.drop_first()[k]),
        forall|q: Name|
            round.pool.contains(q) && q != round.pool[0] ==> round.pool.drop_first().contains(q),
{
    let pool = round.pool;
    let rest = pool.drop_first();
    assert(proposers.has(pool[0]));
    lemma_position(proposers, pool[0]);
    assert forall|k: int| 0 <= k < rest.len() implies proposers.has(#[trigger] rest[k])
        && !round.matched.contains_key(rest[k]) && rest[k] != pool[0] by {
        assert(rest[k] == pool[k + 1]);
    }
    assert forall|a: int, b: int| 0 <= a < rest.len() && 0 <= b < rest.len() && a != b implies rest[a]
        != rest[b] by {
        assert(rest[a] == pool[a + 1]);
        assert(rest[b] == pool[b + 1]);
    }
    assert forall|q: Name| pool.contains(q) && q != pool[0] implies rest.contains(q) by {
        let k = choose|k: int| 0 <= k < pool.len() && pool[k] == q;
        assert(rest[k - 1] == q);
    }
}

/// A sound state stays sound when the head of the pool takes its next entry
/// and returns to the pool, because that acceptor does not rank it or is
/// settled with someone it ranks before it.
pub proof fn lemma_returns(proposers: Prefs, acceptors: Prefs, strict: bool, round: Round)
    requires
        fair(proposers, acceptors, strict),
        sound(proposers, acceptors, strict, round),
        !round.done(),
        round.cursors.peek(round.pool[0]).is_some(),
        acceptors.rank(round.cursors.peek(round.pool[0]).unwrap(), round.pool[0]).is_none()
            || settled_for(
            acceptors,
            round.matched,
            round.pool[0],
            round.cursors.peek(round.pool[0]).unwrap(),
        ),
    ensures
        sound(
            proposers,
            acceptors,
            strict,
            Round {
                pool: round.pool.drop_first().push(round.pool[0]),
                cursors: round.cursors.advance(round.pool[0]),
                ..round
            },
        ),
{
    let p = round.pool[0];
    let rest = round.pool.drop_first();
    let a = round.cursors.peek(p).unwrap();
    let at = proposers.names.index_of(p);
    let next = Round { pool: rest.push(p), cursors: round.cursors.advance(p), ..round };
    lemma_head(proposers, acceptors, strict, round);
    assert(next.cursors.wf());
    assert(pool_waits(proposers, next)) by {
        assert forall|k: int| 0 <= k < next.pool.len() implies proposers.has(
            #[trigger] next.pool[k],
        ) && !next.matched.contains_key(next.pool[k]) by {
            if k < rest.len() {
                assert(next.pool[k] == rest[k]);
            }
        }
        assert forall|x: int, y: int|
            0 <= x < next.pool.len() && 0 <= y < next.pool.len() && x != y implies next.pool[x]
            != next.pool[y] by {
            if x < rest.len() {
                assert(next.pool[x] == rest[x]);
            }
            if y < rest.len() {
                assert(next.pool[y] == rest[y]);
            }
        }
    }
    assert(placed(proposers, strict, next)) by {
        assert forall|i: int| 0 <= i < proposers.names.len() implies {
            ||| next.pool.contains(#[trigger] proposers.names[i])
            ||| next.matched.contains_key(proposers.names[i])
            ||| !strict && next.cursors.taken[i] == proposers.lists[i].len()
        } by {
            let q = proposers.names[i];
            if q == p {
                assert(next.pool[rest.len() as int] == p);
            } else if round.pool.contains(q) {
                let k = choose|k: int| 0 <= k < rest.len() && rest[k] == q;
                assert(next.pool[k] == q);
            }
        }
    }
    assert(holds_last(proposers, next));
    assert(answered(proposers, acceptors, next)) by {
        assert forall|i: int, j: int|
            0 <= i < proposers.names.len() && 0 <= j < next.cursors.taken[i] && acceptors.rank(
                #[trigger] proposers.lists[i][j],
                proposers.names[i],
            ).is_some() implies settled_for(
            acceptors,
            next.matched,
            proposers.names[i],
            proposers.lists[i][j],
        ) by {
            if i == at && j == round.cursors.taken[at] {
            } else {
                assert(j < round.cursors.taken[i]);
            }
        }
    }
}

/// A sound state of a relaxed run stays sound when the head of the pool has
/// used up its list and leaves.
pub proof fn lemma_leaves(proposers: Prefs, acceptors: Prefs, round: Round)
    requires
        fair(proposers, acceptors, false),
        sound(proposers, acceptors, false, round),
        !round.done(),
        round.cursors.peek(round.pool[0]).is_none(),
    ensures
        sound(
            proposers,
            acceptors,
            false,
            Round { pool: round.pool.drop_first(), left: round.left.insert(round.pool[0]), ..round },
        ),
{
    let p = round.pool[0];
    let next = Round { pool: round.pool.drop_first(), left: round.left.insert(p), ..round };
    lemma_head(proposers, acceptors, false, round);
    assert(placed(proposers, false, next)) by {
        assert forall|i: int| 0 <= i < proposers.names.len() implies {
            ||| next.pool.contains(#[trigger] proposers.names[i])
            ||| next.matched.contains_key(proposers.names[i])
            ||| next.cursors.taken[i] == proposers.lists[i].len()
        } by {
            let q = proposers.names[i];
            if q == p {
                lemma_list_at(proposers, i);
                assert(round.cursors.taken[i] <= proposers.lists[i].len());
            }
        }
    }
}

/// A sound state stays sound when the head of the pool takes its next entry
/// and that acceptor, being free, is paired with it.
pub proof fn lemma_accepted(proposers: Prefs, acceptors: Prefs, strict: bool, round: Round)
    requires
        fair(proposers, acceptors, strict),
        sound(proposers, acceptors, strict, round),
        !round.done(),
        round.cursors.peek(round.pool[0]).is_some(),
        couple(proposers, acceptors, round.pool[0], round.cursors.peek(round.pool[0]).unwrap()),
        !round.matched.contains_key(round.cursors.peek(round.pool[0]).unwrap()),
    ensures
        sound(
            proposers,
            acceptors,
            strict,
            Round {
                pool: round.pool.drop_first(),
                cursors: round.cursors.advance(round.pool[0]),
                matched: paired(
                    round.matched,
                    round.pool[0],
                    round.cursors.peek(round.pool[0]).unwrap(),
                ),
                ..round
            },
        ),
{
    let p = round.pool[0];
    let rest = round.pool.drop_first();
    let a = round.cursors.peek(p).unwrap();
    let at = proposers.names.index_of(p);
    let m = round.matched;
    let next = Round {
        pool: rest,
        cursors: round.cursors.advance(p),
        matched: paired(m, p, a),
        ..round
    };
    lemma_head(proposers, acceptors, strict, round);
    assert(p != a);
    assert(is_bimap(next.matched)) by {
        assert forall|k: Name| #[trigger] next.matched.contains_key(k) implies
            next.matched.contains_key(next.matched[k]) && next.matched[next.matched[k]] == k by {
            if k != p && k != a {
                assert(m.contains_key(k));
                assert(m.contains_key(m[k]));
            }
        }
    }
    assert(couples_only(proposers, acceptors, next.matched)) by {
        assert forall|k: Name| #[trigger] next.matched.contains_key(k) implies couple(
            proposers,
            acceptors,
            k,
            next.matched[k],
        ) || couple(proposers, acceptors, next.matched[k], k) by {
            if k != p && k != a {
                assert(m.contains_key(k));
            }
        }
    }
    assert(pool_waits(proposers, next));
    assert(placed(proposers, strict, next));
    assert(holds_last(proposers, next)) by {
        assert forall|i: int|
            0 <= i < proposers.names.len() && next.matched.contains_key(
                #[trigger] proposers.names[i],
            ) implies next.cursors.taken[i] >= 1 && next.matched[proposers.names[i]]
            == proposers.lists[i][next.cursors.taken[i] - 1] by {
            let q = proposers.names[i];
            if q == p {
                lemma_list_at(proposers, i);
            } else {
                assert(proposers.has(q));
                assert(q != a);
                assert(m.contains_key(q));
            }
        }
    }
    assert(answered(proposers, acceptors, next)) by {
        assert forall|i: int, j: int|
            0 <= i < proposers.names.len() && 0 <= j < next.cursors.taken[i] && acceptors.rank(
                #[trigger] proposers.lists[i][j],
                proposers.names[i],
            ).is_some() implies settled_for(
            acceptors,
            next.matched,
            proposers.names[i],
            proposers.lists[i][j],
        ) by {
            if i == at && j == round.cursors.taken[at] {
            } else {
                assert(j < round.cursors.taken[i]);
                let b = proposers.lists[i][j];
                assert(settled_for(acceptors, m, proposers.names[i], b));
                assert(b != a);
                assert(b != p);
            }
        }
    }
}

/// Ranking before is transitive.
pub proof fn lemma_prefers_chain(side: Prefs, participant: Name, x: Name, y: Name, z: Name)
    requires
        side.prefers(participant, x, y),
        side.prefers(participant, y, z),
    ensures
        side.prefers(participant, x, z),
{
}

/// A sound state stays sound when the head of the pool takes its next entry
/// and that acceptor leaves its partner for it, the partner returning to the
/// pool.
pub proof fn lemma_replaced(proposers: Prefs, acceptors: Prefs, strict: bool, round: Round)
    requires
        fair(proposers, acceptors, strict),
        sound(proposers, acceptors, strict, round),
        !round.done(),
        round.cursors.peek(round.pool[0]).is_some(),
        couple(proposers, acceptors, round.pool[0], round.cursors.peek(round.pool[0]).unwrap()),
        round.matched.contains_key(round.cursors.peek(round.pool[0]).unwrap()),
        acceptors.prefers(
            round.cursors.peek(round.pool[0]).unwrap(),
            round.pool[0],
            round.matched[round.cursors.peek(round.pool[0]).unwrap()],
        ),
    ensures
        sound(
            proposers,
            acceptors,
            strict,
            Round {
                pool: round.pool.drop_first().push(
                    round.matched[round.cursors.peek(round.pool[0]).unwrap()],
                ),
                cursors: round.cursors.advance(round.pool[0]),
                matched: paired(
                    unpaired(
                        round.matched,
                        round.matched[round.cursors.peek(round.pool[0]).unwrap()],
                        round.cursors.peek(round.pool[0]).unwrap(),
                    ),
                    round.pool[0],
                    round.cursors.peek(round.pool[0]).unwrap(),
                ),
                ..round
            },
        ),
{
    let p = round.pool[0];
    let rest = round.pool.drop_first();
    let a = round.cursors.peek(p).unwrap();
    let at = proposers.names.index_of(p);
    let m = round.matched;
    let former = m[a];
    let next = Round {
        pool: rest.push(former),
        cursors: round.cursors.advance(p),
        matched: paired(unpaired(m, former, a), p, a),
        ..round
    };
    lemma_head(proposers, acceptors, strict, round);
    assert(p != a);
    assert(m.contains_key(former) && m[former] == a);
    assert(couple(proposers, acceptors, former, a));
    assert(former != a);
    assert(former != p);
    assert(is_bimap(next.matched)) by {
        assert forall|k: Name| #[trigger] next.matched.contains_key(k) implies
            next.matched.contains_key(next.matched[k]) && next.matched[next.matched[k]] == k by {
            if k != p && k != a {
                assert(m.contains_key(k));
                assert(m.contains_key(m[k]));
                assert(m[m[k]] == k);
            }
        }
    }
    assert(couples_only(proposers, acceptors, next.matched)) by {
        assert forall|k: Name| #[trigger] next.matched.contains_key(k) implies couple(
            proposers,
            acceptors,
            k,
            next.matched[k],
        ) || couple(proposers, acceptors, next.matched[k], k) by {
            if k != p && k != a {
                assert(m.contains_key(k));
            }
        }
    }
    assert(pool_waits(proposers, next)) by {
        assert forall|k: int| 0 <= k < next.pool.len() implies proposers.has(
            #[trigger] next.pool[k],
        ) && !next.matched.contains_key(next.pool[k]) by {
            if k < rest.len() {
                assert(next.pool[k] == rest[k]);
            }
        }
        assert forall|x: int, y: int|
            0 <= x < next.pool.len() && 0 <= y < next.pool.len() && x != y implies next.pool[x]
            != next.pool[y] by {
            if x < rest.len() {
                assert(next.pool[x] == rest[x]);
            }
            if y < rest.len() {
                assert(next.pool[y] == rest[y]);
            }
        }
    }
    assert(placed(proposers, strict, next)) by {
        assert forall|i: int| 0 <= i < proposers.names.len() implies {
            ||| next.pool.contains(#[trigger] proposers.names[i])
            ||| next.matched.contains_key(proposers.names[i])
            ||| !strict && next.cursors.taken[i] == proposers.lists[i].len()
        } by {
            let q = proposers.names[i];
            assert(proposers.has(q));
            if q == former {
                assert(next.pool[rest.len() as int] == former);
            } else if q == p {
            } else if round.pool.contains(q) {
                let k = choose|k: int| 0 <= k < rest.len() && rest[k] == q;
                assert(next.pool[k] == q);
            } else if m.contains_key(q) {
                assert(q != a);
            }
        }
    }
    assert(holds_last(proposers, next)) by {
        assert forall|i: int|
            0 <= i < proposers.names.len() && next.matched.contains_key(
                #[trigger] proposers.names[i],
            ) implies next.cursors.taken[i] >= 1 && next.matched[proposers.names[i]]
            == proposers.lists[i][next.cursors.taken[i] - 1] by {
            let q = proposers.names[i];
            if q == p {
                lemma_list_at(proposers, i);
            } else {
                assert(proposers.has(q));
                assert(q != a);
                assert(m.contains_key(q));
            }
        }
    }
    assert(answered(proposers, acceptors, next)) by {
        assert forall|i: int, j: int|
            0 <= i < proposers.names.len() && 0 <= j < next.cursors.taken[i] && acceptors.rank(
                #[trigger] proposers.lists[i][j],
                proposers.names[i],
            ).is_some() implies settled_for(
            acceptors,
            next.matched,
            proposers.names[i],
            proposers.lists[i][j],
        ) by {
            let q = proposers.names[i];
            let b = proposers.lists[i][j];
            if i == at && j == round.cursors.taken[at] {
            } else {
                assert(j < round.cursors.taken[i]);
                assert(settled_for(acceptors, m, q, b));
                lemma_ranking_side_has(acceptors, b, q);
                assert(b != p);
                assert(b != former);
                if b == a {
                    if former != q {
                        lemma_prefers_chain(acceptors, a, p, former, q);
                    }
                }
            }
        }
    }
}

/// In a strict run on fair sides with no more proposers than acceptors the
/// head of the pool always has a next entry: had it used up its list, every
/// acceptor would be paired with another proposer, and there are not enough
/// of those.
pub proof fn lemma_strict_has_next(proposers: Prefs, acceptors: Prefs, round: Round)
    requires
        fair(proposers, acceptors, true),
        proposers.names.len() <= acceptors.names.len(),
        sound(proposers, acceptors, true, round),
        !round.done(),
    ensures
        round.cursors.peek(round.pool[0]).is_some(),
{
    let p = round.pool[0];
    let m = round.matched;
    let at = proposers.names.index_of(p);
    lemma_head(proposers, acceptors, true, round);
    if round.cursors.peek(p).is_none() {
        lemma_list_at(proposers, at);
        assert(round.cursors.taken[at] <= proposers.lists[at].len());
        assert(proposers.lists[at].len() == acceptors.names.len());
        let partner = |b: Name| m[b];
        let all = acceptors.names.to_set();
        let others = proposers.names.to_set().remove(p);
        assert forall|b: Name| all.contains(b) implies m.contains_key(b) && others.contains(
            #[trigger] partner(b),
        ) by {
            assert(acceptors.has(b));
            assert(same_members(proposers.lists[at], acceptors.names));
            assert(proposers.lists[at].contains(b));
            let j = choose|j: int| 0 <= j < proposers.lists[at].len() && proposers.lists[at][j] == b;
            lemma_fit_makes_couples(proposers, acceptors, at, j);
            assert(settled_for(acceptors, m, p, proposers.lists[at][j]));
            assert(m.contains_key(m[b]));
            assert(couple(proposers, acceptors, m[b], b));
        }
        assert(injective_on(partner, all)) by {
            assert forall|x: Name, y: Name|
                all.contains(x) && all.contains(y) && #[trigger] partner(x) == #[trigger] partner(
                    y,
                ) implies x == y by {
                assert(m.contains_key(x));
                assert(m.contains_key(y));
                assert(m[m[x]] == x);
                assert(m[m[y]] == y);
            }
        }
        acceptors.names.unique_seq_to_set();
        proposers.names.unique_seq_to_set();
        let image = all.map(partner);
        lemma_map_size(all, image, partner);
        assert(image.subset_of(others)) by {
            assert forall|q: Name| image.contains(q) implies others.contains(q) by {
                let b = choose|b: Name| all.contains(b) && q == partner(b);
                assert(others.contains(partner(b)));
            }
        }
        lemma_len_subset(image, others);
        assert(proposers.names.to_set().contains(p));
        assert(false);
    }
}

/// The fault of a strict run on fair sides with more proposers than
/// acceptors: a proposer has used up its list.
pub open spec fn short_of_acceptors(
    proposers: Prefs,
    acceptors: Prefs,
    strict: bool,
    round: Round,
) -> bool {
    &&& strict
    &&& round.fault == Some(Fault::ExhaustedList)
    &&& proposers.names.len() > acceptors.names.len()
}

/// On fair sides a round leads from a sound state to a sound state, or, in a
/// strict run with more proposers than acceptors, to the fault of a used-up
/// list.
pub proof fn lemma_step_sound(proposers: Prefs, acceptors: Prefs, strict: bool, round: Round)
    requires
        fair(proposers, acceptors, strict),
        sound(proposers, acceptors, strict, round),
        !round.done(),
    ensures
        round.step(acceptors, strict).fault.is_none() ==> sound(
            proposers,
            acceptors,
            strict,
            round.step(acceptors, strict),
        ),
        round.step(acceptors, strict).fault.is_some() ==> short_of_acceptors(
            proposers,
            acceptors,
            strict,
            round.step(acceptors, strict),
        ),
{
    let p = round.pool[0];
    let m = round.matched;
    let at = proposers.names.index_of(p);
    lemma_head(proposers, acceptors, strict, round);
    if round.cursors.peek(p).is_none() {
        if strict {
            if proposers.names.len() <= acceptors.names.len() {
                lemma_strict_has_next(proposers, acceptors, round);
            }
        } else {
            lemma_leaves(proposers, acceptors, round);
        }
    } else {
        let a = round.cursors.peek(p).unwrap();
        lemma_list_at(proposers, at);
        if !strict && acceptors.rank(a, p).is_none() {
            lemma_returns(proposers, acceptors, strict, round);
        } else {
            if strict {
                lemma_fit_makes_couples(proposers, acceptors, at, round.cursors.taken[at] as int);
            } else {
                lemma_ranking_side_has(acceptors, a, p);
            }
            assert(couple(proposers, acceptors, p, a));
            if !m.contains_key(a) {
                lemma_accepted(proposers, acceptors, strict, round);
            } else {
                let former = m[a];
                assert(m.contains_key(former) && m[former] == a);
                assert(couple(proposers, acceptors, former, a));
                assert(former != p);
                if acceptors.rank(a, former) == acceptors.rank(a, p) {
                    lemma_same_rank_same_name(acceptors.list_of(a), former, p);
                }
                if acceptors.prefers(a, former, p) {
                    lemma_returns(proposers, acceptors, strict, round);
                } else {
                    assert(acceptors.prefers(a, p, former));
                    assert(!unpaired(m, former, a).contains_key(p));
                    lemma_replaced(proposers, acceptors, strict, round);
                }
            }
        }
    }
}

/// On fair sides a run from a sound state ends in a sound state with an
/// empty pool, or, if it is strict and has more proposers than acceptors, in
/// the fault of a used-up list.
pub proof fn lemma_run_sound(proposers: Prefs, acceptors: Prefs, strict: bool, round: Round)
    requires
        fair(proposers, acceptors, strict),
        sound(proposers, acceptors, strict, round),
    ensures
        round.run(acceptors, strict).fault.is_none() ==> sound(
            proposers,
            acceptors,
            strict,
            round.run(acceptors, strict),
        ) && round.run(acceptors, strict).pool.len() == 0,
        round.run(acceptors, strict).fault.is_some() ==> short_of_acceptors(
            proposers,
            acceptors,
            strict,
            round.run(acceptors, strict),
        ),
    decreases round.budget(),
{
    lemma_run_unfolds(round, acceptors, strict);
    if !round.done() {
        let next = round.step(acceptors, strict);
        lemma_step_lowers_budget(round, acceptors, strict);
        lemma_step_sound(proposers, acceptors, strict, round);
        if next.fault.is_none() {
            lemma_run_sound(proposers, acceptors, strict, next);
        } else {
            lemma_run_unfolds(next, acceptors, strict);
        }
    }
}

/// A sound state with an empty pool is stable.
pub proof fn lemma_settled_is_stable(
    proposers: Prefs,
    acceptors: Prefs,
    strict: bool,
    round: Round,
)
    requires
        fair(proposers, acceptors, strict),
        sound(proposers, acceptors, strict, round),
        round.pool.len() == 0,
    ensures
        stable(proposers, acceptors, round.matched),
{
    let m = round.matched;
    assert forall|p: Name, a: Name| !blocking(proposers, acceptors, m, p, a) by {
        if blocking(proposers, acceptors, m, p, a) {
            lemma_ranking_side_has(proposers, p, a);
            lemma_position(proposers, p);
            let i = proposers.names.index_of(p);
            let list = proposers.lists[i];
            lemma_rank_facts(list, a);
            let r = proposers.rank(p, a).unwrap() as int;
            assert(list[r] == a);
            assert(round.cursors.taken[i] <= list.len());
            if m.contains_key(p) {
                assert(m.contains_key(proposers.names[i]));
                lemma_listed_is_ranked(list, round.cursors.taken[i] - 1);
                assert(r < round.cursors.taken[i]);
            } else {
                assert(!round.pool.contains(proposers.names[i]));
                assert(r < round.cursors.taken[i]);
            }
            assert(settled_for(acceptors, m, proposers.names[i], proposers.lists[i][r]));
            if m[a] == p {
                assert(m.contains_key(m[a]));
            }
        }
    }
}

/// A sound state of a strict run with an empty pool pairs every proposer
/// with an acceptor of its own, so there are no more proposers than
/// acceptors.
pub proof fn lemma_all_seated(proposers: Prefs, acceptors: Prefs, round: Round)
    requires
        fair(proposers, acceptors, true),
        sound(proposers, acceptors, true, round),
        round.pool.len() == 0,
    ensures
        forall|p: Name| proposers.has(p) ==> round.matched.contains_key(p),
        proposers.names.len() <= acceptors.names.len(),
        proposers.names.len() == acceptors.names.len() ==> forall|a: Name|
            acceptors.has(a) ==> round.matched.contains_key(a),
{
    let m = round.matched;
    let partner = |p: Name| m[p];
    let all = proposers.names.to_set();
    let targets = acceptors.names.to_set();
    assert forall|p: Name| proposers.has(p) implies m.contains_key(p) && targets.contains(
        #[trigger] partner(p),
    ) by {
        lemma_position(proposers, p);
        let i = proposers.names.index_of(p);
        assert(!round.pool.contains(proposers.names[i]));
        assert(couple(proposers, acceptors, p, m[p]));
    }
    assert(injective_on(partner, all)) by {
        assert forall|x: Name, y: Name|
            all.contains(x) && all.contains(y) && #[trigger] partner(x) == #[trigger] partner(
                y,
            ) implies x == y by {
            assert(proposers.has(x) && proposers.has(y));
            assert(m[m[x]] == x);
            assert(m[m[y]] == y);
        }
    }
    acceptors.names.unique_seq_to_set();
    proposers.names.unique_seq_to_set();
    let image = all.map(partner);
    lemma_map_size(all, image, partner);
    assert(image.subset_of(targets)) by {
        assert forall|a: Name| image.contains(a) implies targets.contains(a) by {
            let p = choose|p: Name| all.contains(p) && a == partner(p);
            assert(proposers.has(p));
            assert(targets.contains(partner(p)));
        }
    }
    lemma_len_subset(image, targets);
    if proposers.names.len() == acceptors.names.len() {
        lemma_subset_equality(image, targets);
        assert forall|a: Name| acceptors.has(a) implies m.contains_key(a) by {
            assert(targets.contains(a));
            assert(image.contains(a));
            let p = choose|p: Name| all.contains(p) && a == partner(p);
            assert(proposers.has(p));
            assert(m.contains_key(m[p]));
        }
    }
}

/// When a run ends without a fault. A relaxed run on disjoint sides always
/// does. A strict run on disjoint sides that fit each other does exactly if
/// there are no more proposers than acceptors; otherwise a proposer uses up
/// its list.
pub proof fn theorem_fault(proposers: Prefs, acceptors: Prefs, strict: bool)
    requires
        fair(proposers, acceptors, strict),
    ensures
        Round::opening(proposers).run(acceptors, strict).fault == if strict
            && proposers.names.len() > acceptors.names.len() {
            Some(Fault::ExhaustedList)
        } else {
            None
        },
        Round::opening(proposers).run(acceptors, strict).fault.is_none() ==> Round::opening(
            proposers,
        ).run(acceptors, strict).pool.len() == 0,
{
    let end = Round::opening(proposers).run(acceptors, strict);
    lemma_opening_sound(proposers, acceptors, strict);
    lemma_run_sound(proposers, acceptors, strict, Round::opening(proposers));
    if strict && end.fault.is_none() {
        lemma_all_seated(proposers, acceptors, end);
    }
}

/// The pairing in which a run on fair sides ends, where it ends without a
/// fault, is a stable bimap of proposers and acceptors that rank them: no
/// proposer and acceptor that rank each other would both rather be paired
/// with each other, whether they have partners or not.
pub proof fn theorem_stable(proposers: Prefs, acceptors: Prefs, strict: bool)
    requires
        fair(proposers, acceptors, strict),
        Round::opening(proposers).run(acceptors, strict).fault.is_none(),
    ensures
        stable(proposers, acceptors, Round::opening(proposers).run(acceptors, strict).matched),
        is_bimap(Round::opening(proposers).run(acceptors, strict).matched),
        couples_only(
            proposers,
            acceptors,
            Round::opening(proposers).run(acceptors, strict).matched,
        ),
{
    lemma_opening_sound(proposers, acceptors, strict);
    lemma_run_sound(proposers, acceptors, strict, Round::opening(proposers));
    lemma_settled_is_stable(
        proposers,
        acceptors,
        strict,
        Round::opening(proposers).run(acceptors, strict),
    );
}

/// Stability of the strict run, pair against pair: where `p` is paired with
/// `a` and another proposer `q` with `b`, it is not so that `q` ranks `a`
/// before `b` while `a` ranks `q` before `p`.
pub proof fn theorem_no_blocking_pair(
    proposers: Prefs,
    acceptors: Prefs,
    p: Name,
    a: Name,
    q: Name,
    b: Name,
)
    requires
        fair(proposers, acceptors, true),
        Round::opening(proposers).run(acceptors, true).fault.is_none(),
        proposers.has(p),
        proposers.has(q),
        p != q,
        Round::opening(proposers).run(acceptors, true).matched.contains_key(p),
        Round::opening(proposers).run(acceptors, true).matched[p] == a,
        Round::opening(proposers).run(acceptors, true).matched.contains_key(q),
        Round::opening(proposers).run(acceptors, true).matched[q] == b,
    ensures
        !(proposers.prefers(q, a, b) && acceptors.prefers(a, q, p)),
{
    let m = Round::opening(proposers).run(acceptors, true).matched;
    theorem_stable(proposers, acceptors, true);
    assert(!blocking(proposers, acceptors, m, q, a));
    assert(m.contains_key(m[p]) && m[m[p]] == p);
    assert(m.contains_key(m[q]) && m[m[q]] == q);
}

/// Completeness of the strict run: where it ends without a fault every
/// proposer has a partner, and where the two sides are equally many every
/// acceptor has one too. The partners of proposers are acceptors and the
/// other way round, and nobody else is in the pairing.
pub proof fn theorem_complete(proposers: Prefs, acceptors: Prefs)
    requires
        fair(proposers, acceptors, true),
        Round::opening(proposers).run(acceptors, true).fault.is_none(),
    ensures
        forall|p: Name|
            proposers.has(p) ==> Round::opening(proposers).run(
                acceptors,
                true,
            ).matched.contains_key(p),
        proposers.names.len() == acceptors.names.len() ==> forall|a: Name|
            acceptors.has(a) ==> Round::opening(proposers).run(
                acceptors,
                true,
            ).matched.contains_key(a),
        forall|k: Name|
            Round::opening(proposers).run(acceptors, true).matched.contains_key(k)
                ==> proposers.has(k) || acceptors.has(k),
{
    let end = Round::opening(proposers).run(acceptors, true);
    lemma_opening_sound(proposers, acceptors, true);
    lemma_run_sound(proposers, acceptors, true, Round::opening(proposers));
    lemma_all_seated(proposers, acceptors, end);
    assert forall|k: Name| end.matched.contains_key(k) implies proposers.has(k) || acceptors.has(
        k,
    ) by {
        assert(couple(proposers, acceptors, k, end.matched[k]) || couple(
            proposers,
            acceptors,
            end.matched[k],
            k,
        ));
    }
}

/// Who is left out of a relaxed run on disjoint sides. A proposer that left
/// the pool because its list was used up is not in the pairing the run ends
/// in. And a proposer without a partner at the end has used up its list, and
/// every acceptor on it that ranks the proposer has a partner that it ranks
/// before the proposer.
pub proof fn theorem_left_out(proposers: Prefs, acceptors: Prefs)
    requires
        fair(proposers, acceptors, false),
    ensures
        forall|p: Name|
            Round::opening(proposers).run(acceptors, false).left.contains(p)
                ==> !Round::opening(proposers).run(acceptors, false).matched.contains_key(p),
        forall|i: int|
            0 <= i < proposers.names.len() && !Round::opening(proposers).run(
                acceptors,
                false,
            ).matched.contains_key(#[trigger] proposers.names[i]) ==> Round::opening(
                proposers,
            ).run(acceptors, false).cursors.taken[i] == proposers.lists[i].len(),
        forall|i: int, j: int|
            0 <= i < proposers.names.len() && 0 <= j < proposers.lists[i].len()
                && !Round::opening(proposers).run(acceptors, false).matched.contains_key(
                proposers.names[i],
            ) && acceptors.rank(#[trigger] proposers.lists[i][j], proposers.names[i]).is_some()
                ==> Round::opening(proposers).run(acceptors, false).matched.contains_key(
                proposers.lists[i][j],
            ) && acceptors.prefers(
                proposers.lists[i][j],
                Round::opening(proposers).run(acceptors, false).matched[proposers.lists[i][j]],
                proposers.names[i],
            ),
{
    let end = Round::opening(proposers).run(acceptors, false);
    let m = end.matched;
    lemma_opening_sound(proposers, acceptors, false);
    lemma_run_sound(proposers, acceptors, false, Round::opening(proposers));
    assert forall|i: int|
        0 <= i < proposers.names.len() && !m.contains_key(
            #[trigger] proposers.names[i],
        ) implies end.cursors.taken[i] == proposers.lists[i].len() by {
        assert(!end.pool.contains(proposers.names[i]));
    }
    assert forall|i: int, j: int|
        0 <= i < proposers.names.len() && 0 <= j < proposers.lists[i].len() && !m.contains_key(
            proposers.names[i],
        ) && acceptors.rank(
            #[trigger] proposers.lists[i][j],
            proposers.names[i],
        ).is_some() implies m.contains_key(proposers.lists[i][j]) && acceptors.prefers(
        proposers.lists[i][j],
        m[proposers.lists[i][j]],
        proposers.names[i],
    ) by {
        let p = proposers.names[i];
        let a = proposers.lists[i][j];
        assert(!end.pool.contains(p));
        assert(end.cursors.taken[i] == proposers.lists[i].len());
        assert(settled_for(acceptors, m, p, a));
        if m[a] == p {
            assert(m.contains_key(m[a]));
        }
    }
}

} // verus!
