//! The two matching runs: the strict one, for sides that fit each other, and
//! the relaxed one, for any two sides.

use vstd::prelude::*;
use crate::checks::{SymmetryError, check_ranking_symmetry, symmetric, verdict_fits};
use crate::models::{Fault, Matches, Rankings};
use crate::preferences::{Cursors, Name};
use crate::rounds::{Round, Verdict, lemma_run_unfolds, lemma_step_lowers_budget, settle};
use crate::optimality::{best_for_proposers, matching, theorem_optimal, worst_for_acceptors};
use crate::stability::{disjoint, stable, theorem_complete, theorem_fault};

verus! {

/// Why a matching run gave no pairing.
#[derive(Debug, PartialEq, Eq)]
pub enum MatchingError {
    /// The two sides do not fit each other.
    Input(SymmetryError),
    /// The run was stopped by a fault.
    Internal(Fault),
}

impl MatchingError {
    /// Why the run gave no pairing, in words.
    pub fn message(&self) -> (text: &'static str)
        ensures
            text@ == match *self {
                MatchingError::Input(error) => error.text(),
                MatchingError::Internal(fault) => fault.text(),
            },
    {
        match self {
            MatchingError::Input(error) => error.message(),
            MatchingError::Internal(fault) => fault.message(),
        }
    }
}

/// Settles the proposal of `proposer` to `acceptor` in `matches`, and names
/// whoever has to return to the pool. Where the proposal cannot be settled,
/// the store is left as it was.
pub fn settle_proposal(
    matches: &mut Matches,
    acceptors: &Rankings,
    proposer: &String,
    acceptor: &String,
) -> (outcome: Result<Option<String>, Fault>)
    requires
        old(matches).wf(),
        acceptors.wf(),
    ensures
        final(matches).wf(),
        match settle(acceptors@, old(matches)@, proposer@, acceptor@) {
            Verdict::Accepted(m) => outcome == Ok::<Option<String>, Fault>(None) && final(matches)@
                == m,
            Verdict::Rejected => {
                &&& outcome matches Ok(Some(back))
                &&& back@ == proposer@
                &&& final(matches)@ == old(matches)@
            },
            Verdict::Replaced(m, incumbent) => {
                &&& outcome matches Ok(Some(back))
                &&& back@ == incumbent
                &&& final(matches)@ == m
            },
            Verdict::Broken(fault) => {
                &&& outcome == Err::<Option<String>, Fault>(fault)
                &&& final(matches)@ == old(matches)@
            },
        },
{
    if matches.insert(proposer, acceptor).is_ok() {
        return Ok(None);
    }
    let incumbent = match matches.get(acceptor) {
        Some(name) => name,
        None => {
            return Err(Fault::MissingIncumbent);
        },
    };
    proof {
        matches.lemma_bimap();
    }
    match acceptors.prefers_first(acceptor, &incumbent, proposer) {
        Err(fault) => Err(fault),
        Ok(None) => Err(Fault::Unranked),
        Ok(Some(true)) => Ok(Some(proposer.clone())),
        Ok(Some(false)) => {
            if *proposer != *acceptor && matches.get(proposer).is_some() {
                return Err(Fault::Occupied);
            }
            let removed = matches.remove(&incumbent, acceptor);
            let placed = matches.insert(proposer, acceptor);
            assert(removed.is_ok() && placed.is_ok());
            Ok(Some(incumbent))
        },
    }
}

/// The state of a run whose pool, cursors and pairing are the given ones.
pub open spec fn round_of(
    pool: Seq<Name>,
    cursors: Cursors,
    matched: Map<Name, Name>,
    left: Set<Name>,
) -> Round {
    Round { pool, cursors, matched, left, fault: None }
}

/// Plays rounds from the opening state until the pool is empty or a fault
/// stops the run. The pool is served first in, first out, seeded in the
/// order of the proposers' store.
pub fn play_rounds(proposers: &Rankings, acceptors: &Rankings, strict: bool) -> (outcome: Result<
    Matches,
    Fault,
>)
    requires
        proposers.wf(),
        acceptors.wf(),
    ensures
        match outcome {
            Ok(matches) => {
                &&& matches.wf()
                &&& Round::opening(proposers@).run(acceptors@, strict).fault.is_none()
                &&& matches@ == Round::opening(proposers@).run(acceptors@, strict).matched
            },
            Err(fault) => Round::opening(proposers@).run(acceptors@, strict).fault == Some(fault),
        },
{
    let mut matches = Matches::new();
    let mut pool = proposers.get_keys();
    let mut cursors = proposers.to_iterator_map();
    let ghost mut left = Set::<Name>::empty();
    let ghost end = Round::opening(proposers@).run(acceptors@, strict);
    assert(round_of(pool.deep_view(), cursors@, matches@, left) == Round::opening(proposers@));
    while pool.len() > 0
        invariant
            acceptors.wf(),
            matches.wf(),
            cursors.wf(),
            end == Round::opening(proposers@).run(acceptors@, strict),
            round_of(pool.deep_view(), cursors@, matches@, left).run(acceptors@, strict) == end,
        decreases round_of(pool.deep_view(), cursors@, matches@, left).budget(),
    {
        let ghost before = round_of(pool.deep_view(), cursors@, matches@, left);
        let ghost after = before.step(acceptors@, strict);
        proof {
            lemma_run_unfolds(before, acceptors@, strict);
            lemma_step_lowers_budget(before, acceptors@, strict);
            lemma_run_unfolds(after, acceptors@, strict);
        }
        let proposer = pool.remove(0);
        assert(pool.deep_view() =~= before.pool.drop_first());
        assert(proposer@ == before.pool[0]);
        let acceptor = match cursors.next(&proposer) {
            Some(name) => name,
            None => {
                if strict {
                    return Err(Fault::ExhaustedList);
                }
                proof {
                    left = left.insert(proposer@);
                }
                continue ;
            },
        };
        if !strict && acceptors.get_rank(&acceptor, &proposer).is_none() {
            pool.push(proposer);
            assert(pool.deep_view() =~= after.pool);
            continue ;
        }
        match settle_proposal(&mut matches, acceptors, &proposer, &acceptor) {
            Ok(None) => {},
            Ok(Some(back)) => {
                pool.push(back);
                assert(pool.deep_view() =~= after.pool);
            },
            Err(fault) => {
                return Err(fault);
            },
        }
    }
    proof {
        lemma_run_unfolds(round_of(pool.deep_view(), cursors@, matches@, left), acceptors@, strict);
    }
    Ok(matches)
}

/// The strict run, for two sides that fit each other: every list of either
/// side names each participant of the other side exactly once.
///
/// Sides that do not fit are refused with the condition that fails. Sides
/// that fit are played round by round; the answer is the pairing in which the
/// run ends, or the fault that stopped it.
pub fn run_gale_shapley(proposers: &Rankings, acceptors: &Rankings) -> (outcome: Result<
    Matches,
    MatchingError,
>)
    requires
        proposers.wf(),
        acceptors.wf(),
    ensures
        match outcome {
            Ok(matches) => {
                &&& symmetric(proposers@, acceptors@)
                &&& matches.wf()
                &&& Round::opening(proposers@).run(acceptors@, true).fault.is_none()
                &&& matches@ == Round::opening(proposers@).run(acceptors@, true).matched
            },
            Err(MatchingError::Input(error)) => {
                &&& !symmetric(proposers@, acceptors@)
                &&& verdict_fits(Err(error), proposers@, acceptors@)
            },
            Err(MatchingError::Internal(fault)) => {
                &&& symmetric(proposers@, acceptors@)
                &&& Round::opening(proposers@).run(acceptors@, true).fault == Some(fault)
            },
        },
        symmetric(proposers@, acceptors@) && disjoint(proposers@, acceptors@) ==> match outcome {
            Ok(matches) => {
                &&& proposers@.names.len() <= acceptors@.names.len()
                &&& matching(proposers@, acceptors@, matches@)
                &&& stable(proposers@, acceptors@, matches@)
                &&& best_for_proposers(proposers@, acceptors@, matches@)
                &&& worst_for_acceptors(proposers@, acceptors@, matches@)
                &&& forall|p: Name| proposers@.has(p) ==> matches@.contains_key(p)
                &&& proposers@.names.len() == acceptors@.names.len() ==> forall|a: Name|
                    acceptors@.has(a) ==> matches@.contains_key(a)
            },
            Err(MatchingError::Internal(fault)) => {
                &&& proposers@.names.len() > acceptors@.names.len()
                &&& fault == Fault::ExhaustedList
            },
            Err(MatchingError::Input(_)) => false,
        },
{
    match check_ranking_symmetry(proposers, acceptors) {
        Ok(()) => {},
        Err(error) => {
            return Err(MatchingError::Input(error));
        },
    }
    proof {
        if disjoint(proposers@, acceptors@) {
            theorem_fault(proposers@, acceptors@, true);
            if proposers@.names.len() <= acceptors@.names.len() {
                theorem_optimal(proposers@, acceptors@, true);
                theorem_complete(proposers@, acceptors@);
            }
        }
    }
    match play_rounds(proposers, acceptors, true) {
        Ok(matches) => Ok(matches),
        Err(fault) => Err(MatchingError::Internal(fault)),
    }
}

/// The relaxed run, for any two sides: lists may be partial, and an acceptor
/// need not rank whoever ranks it.
///
/// The answer is the pairing in which the run ends, or the fault that stopped
/// it.
pub fn run_deferred_acceptance(proposers: &Rankings, acceptors: &Rankings) -> (outcome: Result<
    Matches,
    MatchingError,
>)
    requires
        proposers.wf(),
        acceptors.wf(),
    ensures
        match outcome {
            Ok(matches) => {
                &&& matches.wf()
                &&& Round::opening(proposers@).run(acceptors@, false).fault.is_none()
                &&& matches@ == Round::opening(proposers@).run(acceptors@, false).matched
            },
            Err(MatchingError::Internal(fault)) => Round::opening(proposers@).run(
                acceptors@,
                false,
            ).fault == Some(fault),
            Err(MatchingError::Input(_)) => false,
        },
        disjoint(proposers@, acceptors@) ==> {
            &&& outcome matches Ok(matches)
            &&& matching(proposers@, acceptors@, matches@)
            &&& stable(proposers@, acceptors@, matches@)
            &&& best_for_proposers(proposers@, acceptors@, matches@)
            &&& worst_for_acceptors(proposers@, acceptors@, matches@)
        },
{
    proof {
        if disjoint(proposers@, acceptors@) {
            theorem_fault(proposers@, acceptors@, false);
            theorem_optimal(proposers@, acceptors@, false);
        }
    }
    match play_rounds(proposers, acceptors, false) {
        Ok(matches) => Ok(matches),
        Err(fault) => Err(MatchingError::Internal(fault)),
    }
}

} // verus!
