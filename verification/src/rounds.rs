//! A matching run as a sequence of rounds.
//!
//! A round takes the proposer at the head of the pool, lets it propose to the
//! next entry of its list, and settles the proposal. The run is what the
//! rounds lead to from the opening state; it is a function of the two sides
//! alone.

use vstd::prelude::*;
use crate::models::Fault;
use crate::preferences::{Cursors, Name, Prefs, paired, unpaired};

verus! {

/// What becomes of one proposal.
pub enum Verdict {
    /// Proposer and acceptor were both free: they are paired now.
    Accepted(Map<Name, Name>),
    /// The acceptor keeps its partner; the proposer goes back to the pool.
    Rejected,
    /// The acceptor left its partner for the proposer; the former partner
    /// goes back to the pool.
    Replaced(Map<Name, Name>, Name),
    /// The proposal could not be settled.
    Broken(Fault),
}

/// Settles the proposal of `p` to `a` against the pairing `m`, where `a`
/// judges by the lists of `acceptors`.
///
/// Free parties are paired. Otherwise the acceptor's partner is the
/// incumbent, and the acceptor keeps whom it ranks first of the two.
pub open spec fn settle(acceptors: Prefs, m: Map<Name, Name>, p: Name, a: Name) -> Verdict {
    if !m.contains_key(p) && !m.contains_key(a) {
        Verdict::Accepted(paired(m, p, a))
    } else if !m.contains_key(a) {
        Verdict::Broken(Fault::MissingIncumbent)
    } else {
        let incumbent = m[a];
        match (acceptors.rank(a, incumbent), acceptors.rank(a, p)) {
            (Some(held), Some(offered)) => {
                if held == offered {
                    Verdict::Broken(Fault::EqualRank)
                } else if held < offered {
                    Verdict::Rejected
                } else if unpaired(m, incumbent, a).contains_key(p) {
                    Verdict::Broken(Fault::Occupied)
                } else {
                    Verdict::Replaced(paired(unpaired(m, incumbent, a), p, a), incumbent)
                }
            },
            _ => Verdict::Broken(Fault::Unranked),
        }
    }
}

/// The state of a run between two rounds.
pub struct Round {
    /// The proposers that wait for their turn, the next one first.
    pub pool: Seq<Name>,
    /// How far each proposer has gone through its list.
    pub cursors: Cursors,
    /// The current pairing.
    pub matched: Map<Name, Name>,
    /// The proposers that left the pool for good, their lists used up.
    pub left: Set<Name>,
    /// The fault that stopped the run, if one did.
    pub fault: Option<Fault>,
}

impl Round {
    /// The state before the first round: every proposer waits, in the order
    /// of its side, and nobody is paired.
    pub open spec fn opening(proposers: Prefs) -> Round {
        Round {
            pool: proposers.names,
            cursors: Cursors::fresh(proposers),
            matched: Map::empty(),
            left: Set::empty(),
            fault: None,
        }
    }

    /// No round follows: the pool is empty, or a fault stopped the run.
    pub open spec fn done(self) -> bool {
        self.fault.is_some() || self.pool.len() == 0
    }

    /// The state after the next round.
    ///
    /// In a strict run a proposer without a next entry is a fault. In a
    /// relaxed run it leaves the pool for good, and a proposer that its
    /// target does not rank returns to the pool without a proposal being
    /// settled.
    pub open spec fn step(self, acceptors: Prefs, strict: bool) -> Round {
        let p = self.pool[0];
        let rest = self.pool.drop_first();
        match self.cursors.peek(p) {
            None => if strict {
                Round { pool: rest, fault: Some(Fault::ExhaustedList), ..self }
            } else {
                Round { pool: rest, left: self.left.insert(p), ..self }
            },
            Some(a) => {
                let cursors = self.cursors.advance(p);
                if !strict && acceptors.rank(a, p).is_none() {
                    Round { pool: rest.push(p), cursors, ..self }
                } else {
                    match settle(acceptors, self.matched, p, a) {
                        Verdict::Accepted(m) => Round { pool: rest, cursors, matched: m, ..self },
                        Verdict::Rejected => Round { pool: rest.push(p), cursors, ..self },
                        Verdict::Replaced(m, incumbent) => Round {
                            pool: rest.push(incumbent),
                            cursors,
                            matched: m,
                            ..self
                        },
                        Verdict::Broken(f) => Round { pool: rest, cursors, fault: Some(f), ..self },
                    }
                }
            },
        }
    }

    /// The number of proposals made so far: the list entries that the
    /// proposers have taken.
    pub open spec fn proposals(self) -> int {
        taken_by(self.cursors, self.cursors.taken.len() as int)
    }

    /// An upper bound on the rounds that can still follow: the list entries
    /// not yet taken, and the proposers that wait.
    pub open spec fn budget(self) -> int {
        untaken(self.cursors, self.cursors.taken.len() as int) + self.pool.len()
    }

    /// The state in which the run ends.
    pub open spec fn run(self, acceptors: Prefs, strict: bool) -> Round
        decreases self.budget(),
    {
        if self.done() {
            self
        } else {
            let next = self.step(acceptors, strict);
            if 0 <= next.budget() < self.budget() {
                next.run(acceptors, strict)
            } else {
                self
            }
        }
    }
}

/// The number of list entries that the first `n` participants have not taken
/// yet.
pub open spec fn untaken(cursors: Cursors, n: int) -> int
    decreases n,
{
    if n <= 0 {
        0
    } else {
        untaken(cursors, n - 1) + cursors.prefs.lists[n - 1].len() - cursors.taken[n - 1]
    }
}

/// The number of list entries that the first `n` participants have taken.
pub open spec fn taken_by(cursors: Cursors, n: int) -> int
    decreases n,
{
    if n <= 0 {
        0
    } else {
        taken_by(cursors, n - 1) + cursors.taken[n - 1]
    }
}

/// Well-formed cursors leave no negative number of entries.
pub proof fn lemma_untaken_nonnegative(cursors: Cursors, n: int)
    requires
        cursors.wf(),
        n <= cursors.taken.len(),
    ensures
        0 <= untaken(cursors, n),
    decreases n,
{
    if n > 0 {
        lemma_untaken_nonnegative(cursors, n - 1);
        assert(cursors.taken[n - 1] <= cursors.prefs.lists[n - 1].len());
    }
}

/// Taking one entry leaves one entry less, and one more taken.
pub proof fn lemma_advance_counts(cursors: Cursors, p: Name, n: int)
    requires
        cursors.wf(),
        cursors.peek(p).is_some(),
        0 <= n <= cursors.taken.len(),
    ensures
        cursors.advance(p).wf(),
        untaken(cursors.advance(p), n) == untaken(cursors, n) - if cursors.prefs.names.index_of(p)
            < n {
            1int
        } else {
            0int
        },
        taken_by(cursors.advance(p), n) == taken_by(cursors, n) + if cursors.prefs.names.index_of(
            p,
        ) < n {
            1int
        } else {
            0int
        },
    decreases n,
{
    if n > 0 {
        lemma_advance_counts(cursors, p, n - 1);
    }
}

/// Every round that is played lowers the budget.
pub proof fn lemma_step_lowers_budget(round: Round, acceptors: Prefs, strict: bool)
    requires
        round.cursors.wf(),
        !round.done(),
    ensures
        round.step(acceptors, strict).cursors.wf(),
        0 <= round.step(acceptors, strict).budget() < round.budget(),
{
    let p = round.pool[0];
    let n = round.cursors.taken.len() as int;
    lemma_untaken_nonnegative(round.cursors, n);
    if round.cursors.peek(p).is_some() {
        lemma_advance_counts(round.cursors, p, n);
        lemma_untaken_nonnegative(round.cursors.advance(p), n);
    }
}

/// A run goes on from the state after its next round.
pub proof fn lemma_run_unfolds(round: Round, acceptors: Prefs, strict: bool)
    requires
        round.cursors.wf(),
    ensures
        round.run(acceptors, strict) == if round.done() {
            round
        } else {
            round.step(acceptors, strict).run(acceptors, strict)
        },
{
    if !round.done() {
        lemma_step_lowers_budget(round, acceptors, strict);
    }
}

/// A run keeps its cursors well-formed and over the same lists.
pub proof fn lemma_run_keeps_cursors(round: Round, acceptors: Prefs, strict: bool)
    requires
        round.cursors.wf(),
    ensures
        round.run(acceptors, strict).cursors.wf(),
        round.run(acceptors, strict).cursors.prefs == round.cursors.prefs,
    decreases round.budget(),
{
    lemma_run_unfolds(round, acceptors, strict);
    if !round.done() {
        lemma_step_lowers_budget(round, acceptors, strict);
        lemma_run_keeps_cursors(round.step(acceptors, strict), acceptors, strict);
    }
}

/// Where no list is longer than `bound`, the first `n` participants have
/// taken at most `n` times `bound` entries.
pub proof fn lemma_taken_bounded(cursors: Cursors, n: int, bound: int)
    requires
        cursors.wf(),
        0 <= n <= cursors.taken.len(),
        forall|i: int| 0 <= i < cursors.prefs.lists.len() ==> cursors.prefs.lists[i].len() <= bound,
    ensures
        0 <= taken_by(cursors, n) <= n * bound,
    decreases n,
{
    if n > 0 {
        lemma_taken_bounded(cursors, n - 1, bound);
        assert(cursors.taken[n - 1] <= cursors.prefs.lists[n - 1].len());
        assert((n - 1) * bound + bound == n * bound) by (nonlinear_arith);
    }
}

/// The bound on the proposals of a run, strict or relaxed: where no
/// proposer's list is longer than there are acceptors, as on sides that fit
/// each other and on partial lists without repeats, a run never makes more
/// proposals than there are proposers times acceptors.
pub proof fn theorem_proposal_bound(proposers: Prefs, acceptors: Prefs, strict: bool)
    requires
        proposers.wf(),
        forall|i: int|
            0 <= i < proposers.lists.len() ==> proposers.lists[i].len() <= acceptors.names.len(),
    ensures
        Round::opening(proposers).run(acceptors, strict).proposals() <= proposers.names.len()
            * acceptors.names.len(),
{
    let start = Round::opening(proposers);
    lemma_run_keeps_cursors(start, acceptors, strict);
    let end = start.run(acceptors, strict);
    lemma_taken_bounded(end.cursors, end.cursors.taken.len() as int, acceptors.names.len() as int);
}

/// The number of entries in the lists of the first `n` participants.
pub open spec fn listed(prefs: Prefs, n: int) -> int
    decreases n,
{
    if n <= 0 {
        0
    } else {
        listed(prefs, n - 1) + prefs.lists[n - 1].len()
    }
}

/// What is taken and what is not make up what is listed.
pub proof fn lemma_taken_and_untaken(cursors: Cursors, n: int)
    requires
        0 <= n <= cursors.taken.len(),
    ensures
        taken_by(cursors, n) + untaken(cursors, n) == listed(cursors.prefs, n),
    decreases n,
{
    if n > 0 {
        lemma_taken_and_untaken(cursors, n - 1);
    }
}

/// The bound on the proposals of any run: never more than the proposers'
/// lists have entries.
pub proof fn theorem_proposals_within_lists(proposers: Prefs, acceptors: Prefs, strict: bool)
    requires
        proposers.wf(),
    ensures
        Round::opening(proposers).run(acceptors, strict).proposals() <= listed(
            proposers,
            proposers.names.len() as int,
        ),
{
    let start = Round::opening(proposers);
    lemma_run_keeps_cursors(start, acceptors, strict);
    let end = start.run(acceptors, strict);
    lemma_taken_and_untaken(end.cursors, end.cursors.taken.len() as int);
    lemma_untaken_nonnegative(end.cursors, end.cursors.taken.len() as int);
}

/// The proposals made never become fewer: a round makes one or none.
pub proof fn lemma_step_proposes_once(round: Round, acceptors: Prefs, strict: bool)
    requires
        round.cursors.wf(),
        !round.done(),
    ensures
        round.step(acceptors, strict).proposals() == round.proposals() + if round.cursors.peek(
            round.pool[0],
        ).is_some() {
            1int
        } else {
            0int
        },
{
    let p = round.pool[0];
    if round.cursors.peek(p).is_some() {
        lemma_advance_counts(round.cursors, p, round.cursors.taken.len() as int);
    }
}

} // verus!
