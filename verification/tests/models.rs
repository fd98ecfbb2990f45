use stable_matching::models::{Fault, Matches, MatchesError, RankingError, Rankings};

const SIDE_A: &str = "alice,team1,team2,team3\nbob,team1,team3,team2\ncharlie,team2,team1,team3\n";

fn side_a() -> Rankings {
    Rankings::from_str(SIDE_A).expect("Failed to initialize Rankings for tests")
}

fn name(text: &str) -> String {
    text.to_string()
}

#[test]
fn test_ranking_get_rank() {
    let rankings = side_a();
    let test_cases = vec![
        ("alice", "team1", Some(0_usize)),
        ("bob", "team3", Some(1_usize)),
        ("charlie", "team3", Some(2_usize)),
    ];

    for case in test_cases {
        assert_eq!(
            rankings.get_rank(&case.0.to_string(), &case.1.to_string()),
            case.2
        );
    }
}

#[test]
fn test_ranking_prefers_first() {
    let rankings = side_a();
    let test_cases = vec![
        // participant, first target, second target, expected result
        ("alice", "team1", "team3", true),
        ("bob", "team3", "team1", false),
        ("charlie", "team2", "team1", true),
    ];

    for (participant, first, second, expected) in test_cases {
        let result = rankings.prefers_first(
            &participant.to_string(),
            &first.to_string(),
            &second.to_string(),
        );
        assert_eq!(result, Ok(Some(expected)));
    }
}

#[test]
fn test_iter_map_next() {
    let rankings = side_a();
    let mut iter_map = rankings.to_iterator_map();

    let test_cases = vec![
        ("alice", Some("team1".to_string())),
        ("alice", Some("team2".to_string())),
        ("bob", Some("team1".to_string())),
        ("charlie", Some("team2".to_string())),
        ("bob", Some("team3".to_string())),
        ("alice", Some("team3".to_string())),
        ("alice", None),
    ];

    for case in test_cases {
        assert_eq!(iter_map.next(&case.0.to_string()), case.1);
    }
}

#[test]
fn test_insert_matches() {
    let mut matches = Matches::new();

    // Test inserting a new match
    assert_eq!(
        matches
            .insert(&"Participant1".to_string(), &"Target1".to_string())
            .map_err(|e| e.message()),
        Ok(())
    );
    assert_eq!(
        matches.get(&"Participant1".to_string()),
        Some("Target1".to_string())
    );
    assert_eq!(
        matches.get(&"Target1".to_string()),
        Some("Participant1".to_string())
    );

    // Test inserting a match with a participant that already exists
    assert_eq!(
        matches
            .insert(&"Participant1".to_string(), &"Target2".to_string())
            .map_err(|e| e.message()),
        Err("Key already present in Matches")
    );

    // Test inserting a match with a target that already exists
    assert_eq!(
        matches
            .insert(&"Participant2".to_string(), &"Target1".to_string())
            .map_err(|e| e.message()),
        Err("Key already present in Matches")
    );
}

#[test]
fn test_remove_matches() {
    let mut matches = Matches::new();

    // Insert a match
    matches
        .insert(&"Participant1".to_string(), &"Target1".to_string())
        .unwrap();

    // Test removing a match that exists
    assert_eq!(
        matches
            .remove(&"Participant1".to_string(), &"Target1".to_string())
            .map_err(|e| e.message()),
        Ok(())
    );
    assert_eq!(matches.get(&"Participant1".to_string()), None);
    assert_eq!(matches.get(&"Target1".to_string()), None);

    // Test removing a match that does not exist
    assert_eq!(
        matches
            .remove(&"Participant1".to_string(), &"Target1".to_string())
            .map_err(|e| e.message()),
        Err("Match not present in Matches. Cannot remove.")
    );

    // Insert a match
    matches
        .insert(&"Participant1".to_string(), &"Target3".to_string())
        .unwrap();

    // Test removing a match that partially exists
    assert_eq!(
        matches
            .remove(&"Participant1".to_string(), &"Target2".to_string())
            .map_err(|e| e.message()),
        Err("Match not present in Matches. Cannot remove.")
    );

    // Finally remove it
    assert_eq!(
        matches
            .remove(&"Participant1".to_string(), &"Target3".to_string())
            .map_err(|e| e.message()),
        Ok(())
    );
}

#[test]
fn rank_of_a_stranger_or_an_unlisted_target_is_absent() {
    let rankings = side_a();
    assert_eq!(rankings.get_rank(&name("dave"), &name("team1")), None);
    assert_eq!(rankings.get_rank(&name("alice"), &name("team9")), None);
}

#[test]
fn rank_is_the_first_position_of_a_repeated_target() {
    let rankings = Rankings::from_str("alice,team1,team2,team1").unwrap();
    assert_eq!(rankings.get_rank(&name("alice"), &name("team1")), Some(0));
    assert_eq!(rankings.get_rank(&name("alice"), &name("team2")), Some(1));
}

#[test]
fn comparison_is_absent_where_a_rank_is() {
    let rankings = side_a();
    assert_eq!(
        rankings.prefers_first(&name("alice"), &name("team1"), &name("team9")),
        Ok(None)
    );
    assert_eq!(
        rankings.prefers_first(&name("alice"), &name("team9"), &name("team1")),
        Ok(None)
    );
    assert_eq!(
        rankings.prefers_first(&name("dave"), &name("team1"), &name("team2")),
        Ok(None)
    );
}

#[test]
fn equal_ranks_are_a_fault() {
    let rankings = side_a();
    assert_eq!(
        rankings.prefers_first(&name("alice"), &name("team2"), &name("team2")),
        Err(Fault::EqualRank)
    );
}

#[test]
fn keys_keep_the_order_of_the_text() {
    let rankings = side_a();
    assert_eq!(
        rankings.get_keys(),
        vec![name("alice"), name("bob"), name("charlie")]
    );
    let entries = rankings.get_map();
    assert_eq!(entries.len(), 3);
    assert_eq!(entries[1].0, name("bob"));
    assert_eq!(
        entries[1].1,
        vec![name("team1"), name("team3"), name("team2")]
    );
}

#[test]
fn cursors_are_independent_of_each_other_and_of_strangers() {
    let rankings = side_a();
    let mut first = rankings.to_iterator_map();
    let mut second = rankings.to_iterator_map();
    assert_eq!(first.next(&name("alice")), Some(name("team1")));
    assert_eq!(first.next(&name("alice")), Some(name("team2")));
    assert_eq!(second.next(&name("alice")), Some(name("team1")));
    assert_eq!(first.next(&name("dave")), None);
    assert_eq!(first.next(&name("alice")), Some(name("team3")));
    assert_eq!(first.next(&name("alice")), None);
    assert_eq!(first.next(&name("alice")), None);
}

#[test]
fn from_entries_refuses_a_repeated_name() {
    let entries = vec![
        (name("alice"), vec![name("team1")]),
        (name("bob"), vec![name("team1")]),
        (name("alice"), vec![name("team2")]),
        (name("bob"), vec![name("team2")]),
    ];
    assert_eq!(
        Rankings::from_entries(entries).err(),
        Some(RankingError::DuplicateKey(name("alice")))
    );
}

#[test]
fn from_entries_keeps_entries_as_given() {
    let entries = vec![
        (name("bob"), vec![name("team2"), name("team1")]),
        (name("alice"), vec![]),
    ];
    let rankings = Rankings::from_entries(entries.clone()).unwrap();
    assert_eq!(rankings.get_map(), &entries);
    assert_eq!(rankings.get_rank(&name("bob"), &name("team1")), Some(1));
    assert_eq!(rankings.get_rank(&name("alice"), &name("team1")), None);
}

#[test]
fn bimap_is_read_from_both_sides() {
    let mut matches = Matches::new();
    matches.insert(&name("a"), &name("x")).unwrap();
    matches.insert(&name("b"), &name("y")).unwrap();
    assert_eq!(matches.get(&name("a")), Some(name("x")));
    assert_eq!(matches.get(&name("x")), Some(name("a")));
    assert_eq!(matches.get(&name("b")), Some(name("y")));
    assert_eq!(matches.get(&name("y")), Some(name("b")));
    assert_eq!(matches.get(&name("z")), None);
}

#[test]
fn refused_insert_changes_nothing() {
    let mut matches = Matches::new();
    matches.insert(&name("a"), &name("x")).unwrap();
    assert_eq!(
        matches.insert(&name("b"), &name("x")),
        Err(MatchesError::KeyPresent)
    );
    assert_eq!(
        matches.insert(&name("x"), &name("c")),
        Err(MatchesError::KeyPresent)
    );
    assert_eq!(matches.get(&name("a")), Some(name("x")));
    assert_eq!(matches.get(&name("x")), Some(name("a")));
    assert_eq!(matches.get(&name("b")), None);
    assert_eq!(matches.get(&name("c")), None);
}

#[test]
fn remove_takes_the_pair_in_either_order() {
    let mut matches = Matches::new();
    matches.insert(&name("a"), &name("x")).unwrap();
    matches.insert(&name("b"), &name("y")).unwrap();
    assert_eq!(matches.remove(&name("x"), &name("a")), Ok(()));
    assert_eq!(matches.get(&name("a")), None);
    assert_eq!(matches.get(&name("x")), None);
    assert_eq!(matches.get(&name("b")), Some(name("y")));
}

#[test]
fn remove_refuses_two_keys_of_different_pairs() {
    let mut matches = Matches::new();
    matches.insert(&name("a"), &name("x")).unwrap();
    matches.insert(&name("b"), &name("y")).unwrap();
    assert_eq!(
        matches.remove(&name("a"), &name("y")),
        Err(MatchesError::PairAbsent)
    );
    assert_eq!(matches.get(&name("a")), Some(name("x")));
    assert_eq!(matches.get(&name("y")), Some(name("b")));
}

#[test]
fn a_participant_may_be_paired_with_itself() {
    let mut matches = Matches::new();
    assert_eq!(matches.insert(&name("a"), &name("a")), Ok(()));
    assert_eq!(matches.get(&name("a")), Some(name("a")));
    assert_eq!(matches.remove(&name("a"), &name("a")), Ok(()));
    assert_eq!(matches.get(&name("a")), None);
}

#[test]
fn projection_shows_one_side_in_its_order() {
    let proposers = side_a();
    let acceptors = Rankings::from_str(
        "team1,alice,bob,charlie\nteam2,charlie,alice,bob\nteam3,bob,alice,charlie",
    )
    .unwrap();
    let mut matches = Matches::new();
    matches.insert(&name("charlie"), &name("team2")).unwrap();
    matches.insert(&name("alice"), &name("team1")).unwrap();
    assert_eq!(
        matches.unique_matches(&proposers, &acceptors, "proposers"),
        vec![
            (name("alice"), name("team1")),
            (name("charlie"), name("team2"))
        ]
    );
    assert_eq!(
        matches.unique_matches(&proposers, &acceptors, "acceptors"),
        vec![
            (name("team1"), name("alice")),
            (name("team2"), name("charlie"))
        ]
    );
    assert_eq!(
        matches.unique_matches(&proposers, &acceptors, "all"),
        Vec::<(String, String)>::new()
    );
}
