use stable_matching::algorithms::{
    run_deferred_acceptance, run_gale_shapley, settle_proposal, MatchingError,
};
use stable_matching::checks::{check_ranking_symmetry, SymmetryError};
use stable_matching::models::{Fault, Matches, Rankings};

const SIDE_A: &str = "alice,team1,team2,team3\nbob,team1,team3,team2\ncharlie,team2,team1,team3\n";
const SIDE_B: &str = "team1,alice,bob,charlie\nteam2,charlie,alice,bob\nteam3,bob,alice,charlie\n";

fn name(text: &str) -> String {
    text.to_string()
}

fn side(text: &str) -> Rankings {
    Rankings::from_str(text).expect("Failed to initialize Rankings")
}

fn partner(matches: &Matches, key: &str) -> Option<String> {
    matches.get(&key.to_string())
}

#[test]
fn test_gale_shapley() {
    let proposers = side(SIDE_A);

    let acceptors = side(SIDE_B);

    let matches = run_gale_shapley(&proposers, &acceptors).unwrap();

    // Check if the matches are stable
    assert_eq!(matches.get(&"alice".to_string()), Some("team1".to_string()));
    assert_eq!(
        matches.get(&"team2".to_string()),
        Some("charlie".to_string())
    );
    assert_eq!(matches.get(&"bob".to_string()), Some("team3".to_string()));
}

#[test]
fn strict_run_pairs_everybody_of_the_toy_case() {
    let proposers = side(SIDE_A);
    let acceptors = side(SIDE_B);
    let matches = run_gale_shapley(&proposers, &acceptors).unwrap();
    assert_eq!(
        matches.unique_matches(&proposers, &acceptors, "proposers"),
        vec![
            (name("alice"), name("team1")),
            (name("bob"), name("team3")),
            (name("charlie"), name("team2")),
        ]
    );
    assert_eq!(
        matches.unique_matches(&proposers, &acceptors, "acceptors"),
        vec![
            (name("team1"), name("alice")),
            (name("team2"), name("charlie")),
            (name("team3"), name("bob")),
        ]
    );
}

#[test]
fn strict_run_is_stable_on_a_contested_case() {
    // Every proposer wants x first; x decides.
    let proposers = side("a,x,y,z\nb,x,y,z\nc,x,z,y");
    let acceptors = side("x,c,b,a\ny,a,b,c\nz,a,b,c");
    let matches = run_gale_shapley(&proposers, &acceptors).unwrap();
    assert_eq!(partner(&matches, "c"), Some(name("x")));
    assert_eq!(partner(&matches, "a"), Some(name("y")));
    assert_eq!(partner(&matches, "b"), Some(name("z")));
    // No proposer and acceptor prefer each other to their partners.
    for p in ["a", "b", "c"] {
        for a in ["x", "y", "z"] {
            let mine = partner(&matches, p).unwrap();
            let theirs = partner(&matches, a).unwrap();
            if mine == a {
                continue;
            }
            let p_wants = proposers.prefers_first(&name(p), &name(a), &mine) == Ok(Some(true));
            let a_wants = acceptors.prefers_first(&name(a), &name(p), &theirs) == Ok(Some(true));
            assert!(!(p_wants && a_wants));
        }
    }
}

#[test]
fn strict_run_refuses_sides_that_do_not_fit() {
    let proposers = side("alice,team1,team2\nbob,team1,team2");
    let acceptors = side("team1,alice,bob\nteam2,alice");
    assert_eq!(
        run_gale_shapley(&proposers, &acceptors).err(),
        Some(MatchingError::Input(SymmetryError::SecondMembers(name(
            "team2"
        ))))
    );
}

#[test]
fn strict_run_with_more_proposers_than_acceptors_ends_in_a_fault() {
    let proposers = side("a,x,y\nb,x,y\nc,x,y");
    let acceptors = side("x,a,b,c\ny,a,b,c");
    assert_eq!(check_ranking_symmetry(&proposers, &acceptors), Ok(()));
    assert_eq!(
        run_gale_shapley(&proposers, &acceptors).err(),
        Some(MatchingError::Internal(Fault::ExhaustedList))
    );
}

#[test]
fn strict_run_with_fewer_proposers_leaves_acceptors_free() {
    let proposers = side("a,x,y\n");
    let acceptors = side("x,a\ny,a");
    let matches = run_gale_shapley(&proposers, &acceptors).unwrap();
    assert_eq!(partner(&matches, "a"), Some(name("x")));
    assert_eq!(partner(&matches, "y"), None);
}

#[test]
fn strict_run_of_empty_sides_is_empty() {
    let proposers = side("");
    let acceptors = side("");
    let matches = run_gale_shapley(&proposers, &acceptors).unwrap();
    assert_eq!(
        matches.unique_matches(&proposers, &acceptors, "proposers"),
        Vec::<(String, String)>::new()
    );
}

#[test]
fn relaxed_run_agrees_with_the_strict_one_on_sides_that_fit() {
    let proposers = side(SIDE_A);
    let acceptors = side(SIDE_B);
    let matches = run_deferred_acceptance(&proposers, &acceptors).unwrap();
    assert_eq!(partner(&matches, "alice"), Some(name("team1")));
    assert_eq!(partner(&matches, "bob"), Some(name("team3")));
    assert_eq!(partner(&matches, "charlie"), Some(name("team2")));
}

#[test]
fn relaxed_run_skips_an_acceptor_that_does_not_rank_the_proposer() {
    // team1 does not rank alice: she goes on to team2.
    let proposers = side("alice,team1,team2\nbob,team1");
    let acceptors = side("team1,bob\nteam2,alice");
    let matches = run_deferred_acceptance(&proposers, &acceptors).unwrap();
    assert_eq!(partner(&matches, "alice"), Some(name("team2")));
    assert_eq!(partner(&matches, "bob"), Some(name("team1")));
    assert_eq!(partner(&matches, "team1"), Some(name("bob")));
}

#[test]
fn relaxed_run_leaves_out_who_runs_out_of_preferences() {
    // Both want only team1; team1 prefers bob.
    let proposers = side("alice,team1\nbob,team1");
    let acceptors = side("team1,bob,alice");
    let matches = run_deferred_acceptance(&proposers, &acceptors).unwrap();
    assert_eq!(partner(&matches, "bob"), Some(name("team1")));
    assert_eq!(partner(&matches, "alice"), None);
    assert_eq!(
        matches.unique_matches(&proposers, &acceptors, "proposers"),
        vec![(name("bob"), name("team1"))]
    );
}

#[test]
fn relaxed_run_ignores_targets_that_are_on_no_side() {
    let proposers = side("alice,nowhere,team1");
    let acceptors = side("team1,alice");
    let matches = run_deferred_acceptance(&proposers, &acceptors).unwrap();
    assert_eq!(partner(&matches, "alice"), Some(name("team1")));
    assert_eq!(partner(&matches, "nowhere"), None);
}

#[test]
fn sides_that_share_names_can_end_in_a_fault() {
    // x proposes to y and is accepted; then y proposes to x, whose partner
    // it already is.
    let proposers = side("x,y\ny,x");
    let acceptors = side("x,y\ny,x");
    assert_eq!(
        run_deferred_acceptance(&proposers, &acceptors).err(),
        Some(MatchingError::Internal(Fault::EqualRank))
    );
}

#[test]
fn a_free_pair_is_accepted() {
    let acceptors = side("x,a,b");
    let mut matches = Matches::new();
    assert_eq!(
        settle_proposal(&mut matches, &acceptors, &name("a"), &name("x")),
        Ok(None)
    );
    assert_eq!(partner(&matches, "a"), Some(name("x")));
    assert_eq!(partner(&matches, "x"), Some(name("a")));
}

#[test]
fn a_better_ranked_incumbent_stays() {
    let acceptors = side("x,a,b");
    let mut matches = Matches::new();
    matches.insert(&name("a"), &name("x")).unwrap();
    assert_eq!(
        settle_proposal(&mut matches, &acceptors, &name("b"), &name("x")),
        Ok(Some(name("b")))
    );
    assert_eq!(partner(&matches, "x"), Some(name("a")));
    assert_eq!(partner(&matches, "b"), None);
}

#[test]
fn a_worse_ranked_incumbent_is_replaced() {
    let acceptors = side("x,a,b");
    let mut matches = Matches::new();
    matches.insert(&name("b"), &name("x")).unwrap();
    assert_eq!(
        settle_proposal(&mut matches, &acceptors, &name("a"), &name("x")),
        Ok(Some(name("b")))
    );
    assert_eq!(partner(&matches, "x"), Some(name("a")));
    assert_eq!(partner(&matches, "a"), Some(name("x")));
    assert_eq!(partner(&matches, "b"), None);
}

#[test]
fn an_unranked_party_is_a_fault() {
    let acceptors = side("x,a");
    let mut matches = Matches::new();
    matches.insert(&name("a"), &name("x")).unwrap();
    assert_eq!(
        settle_proposal(&mut matches, &acceptors, &name("b"), &name("x")),
        Err(Fault::Unranked)
    );
}

#[test]
fn a_paired_proposer_before_a_free_acceptor_is_a_fault() {
    let acceptors = side("x,a");
    let mut matches = Matches::new();
    matches.insert(&name("a"), &name("y")).unwrap();
    assert_eq!(
        settle_proposal(&mut matches, &acceptors, &name("a"), &name("x")),
        Err(Fault::MissingIncumbent)
    );
}

#[test]
fn a_paired_proposer_that_wins_is_a_fault() {
    let acceptors = side("x,a,b");
    let mut matches = Matches::new();
    matches.insert(&name("b"), &name("x")).unwrap();
    matches.insert(&name("a"), &name("y")).unwrap();
    assert_eq!(
        settle_proposal(&mut matches, &acceptors, &name("a"), &name("x")),
        Err(Fault::Occupied)
    );
    // The store is as it was.
    assert_eq!(partner(&matches, "x"), Some(name("b")));
    assert_eq!(partner(&matches, "b"), Some(name("x")));
    assert_eq!(partner(&matches, "a"), Some(name("y")));
    assert_eq!(partner(&matches, "y"), Some(name("a")));
}

#[test]
fn a_fault_leaves_the_store_as_it_was() {
    let acceptors = side("x,a");
    let mut matches = Matches::new();
    matches.insert(&name("a"), &name("x")).unwrap();
    assert_eq!(
        settle_proposal(&mut matches, &acceptors, &name("b"), &name("x")),
        Err(Fault::Unranked)
    );
    assert_eq!(partner(&matches, "x"), Some(name("a")));
    assert_eq!(partner(&matches, "b"), None);
    assert_eq!(
        settle_proposal(&mut matches, &acceptors, &name("a"), &name("x")),
        Err(Fault::EqualRank)
    );
    assert_eq!(partner(&matches, "x"), Some(name("a")));
    assert_eq!(partner(&matches, "a"), Some(name("x")));
}

#[test]
fn sides_that_fit_pass_the_check() {
    assert_eq!(check_ranking_symmetry(&side(SIDE_A), &side(SIDE_B)), Ok(()));
    assert_eq!(check_ranking_symmetry(&side(""), &side("")), Ok(()));
}

#[test]
fn the_check_names_the_first_list_with_wrong_members() {
    let first = side("alice,team1,team2\nbob,team1,team9\ncarol,team8,team9");
    let second = side("team1,alice,bob,carol\nteam2,alice,bob,carol");
    assert_eq!(
        check_ranking_symmetry(&first, &second),
        Err(SymmetryError::FirstMembers(name("bob")))
    );
    assert_eq!(
        check_ranking_symmetry(&second, &first),
        Err(SymmetryError::SecondMembers(name("bob")))
    );
}

#[test]
fn the_check_names_the_first_list_of_wrong_length() {
    let first = side("alice,team1,team2\nbob,team1,team2,team1");
    let second = side("team1,alice,bob\nteam2,bob,alice");
    assert_eq!(
        check_ranking_symmetry(&first, &second),
        Err(SymmetryError::FirstLength(name("bob")))
    );
    assert_eq!(
        check_ranking_symmetry(&second, &first),
        Err(SymmetryError::SecondLength(name("bob")))
    );
}

#[test]
fn wrong_members_are_named_before_wrong_lengths() {
    let first = side("alice,team1,team1,team2\nbob,team1,team2");
    let second = side("team1,alice\nteam2,alice,bob");
    assert_eq!(
        check_ranking_symmetry(&first, &second),
        Err(SymmetryError::SecondMembers(name("team1")))
    );
}

/// Replays a strict run by hand and counts the proposals.
fn count_proposals(proposers: &Rankings, acceptors: &Rankings) -> (usize, Matches) {
    let mut matches = Matches::new();
    let mut pool = proposers.get_keys();
    let mut cursors = proposers.to_iterator_map();
    let mut proposals = 0;
    while !pool.is_empty() {
        let proposer = pool.remove(0);
        let acceptor = cursors.next(&proposer).expect("a list was used up");
        proposals += 1;
        match settle_proposal(&mut matches, acceptors, &proposer, &acceptor) {
            Ok(None) => {}
            Ok(Some(back)) => pool.push(back),
            Err(fault) => panic!("{}", fault.message()),
        }
    }
    (proposals, matches)
}

#[test]
fn proposals_stay_within_proposers_times_acceptors() {
    let proposers = side(SIDE_A);
    let acceptors = side(SIDE_B);
    let (proposals, by_hand) = count_proposals(&proposers, &acceptors);
    assert_eq!(proposals, 4);
    assert!(proposals <= 3 * 3);
    let matches = run_gale_shapley(&proposers, &acceptors).unwrap();
    for key in ["alice", "bob", "charlie", "team1", "team2", "team3"] {
        assert_eq!(partner(&by_hand, key), partner(&matches, key));
    }

    // The worst case for three against three: everybody wants the same.
    let proposers = side("a,x,y,z\nb,x,y,z\nc,x,y,z");
    let acceptors = side("x,c,b,a\ny,c,b,a\nz,c,b,a");
    let (proposals, _) = count_proposals(&proposers, &acceptors);
    assert_eq!(proposals, 6);
    assert!(proposals <= 3 * 3);
}

#[test]
fn play_rounds_is_what_both_runs_play() {
    let proposers = side(SIDE_A);
    let acceptors = side(SIDE_B);
    let strict = stable_matching::algorithms::play_rounds(&proposers, &acceptors, true).unwrap();
    let relaxed = stable_matching::algorithms::play_rounds(&proposers, &acceptors, false).unwrap();
    for key in ["alice", "bob", "charlie", "team1", "team2", "team3"] {
        assert_eq!(partner(&strict, key), partner(&relaxed, key));
    }
    assert_eq!(partner(&strict, "team3"), Some(name("bob")));
}

#[test]
fn every_participant_of_equal_sides_is_paired_once() {
    let proposers = side("a,x,y,z\nb,y,x,z\nc,y,z,x");
    let acceptors = side("x,b,a,c\ny,a,c,b\nz,a,b,c");
    let matches = run_gale_shapley(&proposers, &acceptors).unwrap();
    let seen_by_proposers = matches.unique_matches(&proposers, &acceptors, "proposers");
    let seen_by_acceptors = matches.unique_matches(&proposers, &acceptors, "acceptors");
    assert_eq!(seen_by_proposers.len(), 3);
    assert_eq!(seen_by_acceptors.len(), 3);
    for (p, a) in &seen_by_proposers {
        assert_eq!(matches.get(a), Some(p.clone()));
        assert!(seen_by_acceptors.contains(&(a.clone(), p.clone())));
    }
    // b takes y, loses it to c, and wins x from a; a wins y from c; c ends
    // with z.
    assert_eq!(partner(&matches, "a"), Some(name("y")));
    assert_eq!(partner(&matches, "b"), Some(name("x")));
    assert_eq!(partner(&matches, "c"), Some(name("z")));
}

#[test]
fn relaxed_run_is_stable_among_those_that_rank_each_other() {
    let proposers = side("a,x,y\nb,x\nc,y,x");
    let acceptors = side("x,b,c,a\ny,a");
    let matches = run_deferred_acceptance(&proposers, &acceptors).unwrap();
    assert_eq!(partner(&matches, "b"), Some(name("x")));
    assert_eq!(partner(&matches, "a"), Some(name("y")));
    assert_eq!(partner(&matches, "c"), None);
    // c is left out: y does not rank it, x ranks b before it.
    assert_eq!(acceptors.get_rank(&name("y"), &name("c")), None);
    assert_eq!(
        acceptors.prefers_first(&name("x"), &name("b"), &name("c")),
        Ok(Some(true))
    );
}

#[test]
fn errors_say_what_failed() {
    assert_eq!(
        Fault::EqualRank.message(),
        "Internal fault: Equal ranks should not be possible"
    );
    assert_eq!(
        MatchingError::Internal(Fault::ExhaustedList).message(),
        "Internal fault: A proposer has no preference left"
    );
    let error = SymmetryError::SecondLength(name("team1"));
    assert_eq!(
        error.message(),
        "Data input error: Number of preferences does not equal number of entities listed in ranking2"
    );
    assert_eq!(error.participant(), &name("team1"));
    assert_eq!(
        MatchingError::Input(SymmetryError::FirstMembers(name("bob"))).message(),
        "Data input error: Preferences in ranking1 are not the same as the entities in ranking2"
    );
}
