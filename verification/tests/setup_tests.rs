use phrase_search::arrangement::group_candidates;
use phrase_search::pipeline::parse_target;
use phrase_search::search::Outcome;
use phrase_search::setup::{checked_candidates, checked_search, SetupError};
use phrase_search::tokenizer::Tokenizer;

#[test]
fn combination_size_must_be_positive_and_within_the_group() {
    assert_eq!(checked_candidates(&vec![1, 2, 3], 0, &vec![]), Err(SetupError::CombinationSize));
    assert_eq!(checked_candidates(&vec![1, 2, 3], 4, &vec![]), Err(SetupError::CombinationSize));
    assert_eq!(checked_candidates(&vec![], 1, &vec![]), Err(SetupError::CombinationSize));
}

#[test]
fn checked_candidates_agree_with_the_generator() {
    let tokens = vec![1, 2, 3];
    assert_eq!(checked_candidates(&tokens, 2, &vec![2]), Ok(group_candidates(&tokens, 2, &vec![2])));
    assert_eq!(checked_candidates(&tokens, 3, &vec![]).map(|l| l.len()), Ok(6));
}

#[test]
fn too_many_arrangements_are_refused_before_any_is_made() {
    let tokens: Vec<u32> = (1..=30).collect();
    assert_eq!(checked_candidates(&tokens, 25, &vec![]), Err(SetupError::TooManyArrangements));
}

#[test]
fn a_token_without_a_word_stops_the_search() {
    let mut t = Tokenizer::new();
    t.tokenize(vec!["apple", "banana"]);
    let target = parse_target("0x0000000000000000000000000000000000000001").unwrap();
    let unknown = vec![vec![vec![1, 3]]];
    assert!(matches!(checked_search(&t, &unknown, &target), Err(SetupError::UnknownToken)));
    let zero = vec![vec![vec![0]]];
    assert!(matches!(checked_search(&t, &zero, &target), Err(SetupError::UnknownToken)));
}

#[test]
fn checked_search_exhausts_what_cannot_match() {
    let mut t = Tokenizer::new();
    let g1 = t.tokenize(vec!["apple", "banana", "cherry"]);
    let g2 = t.tokenize(vec!["dog", "elephant", "fox"]);
    let required = t.tokenize(vec!["banana"]);
    let groups = vec![
        checked_candidates(&g1, 2, &required).unwrap(),
        checked_candidates(&g2, 2, &vec![]).unwrap(),
    ];
    let target = parse_target("0x0000000000000000000000000000000000000001").unwrap();
    match checked_search(&t, &groups, &target) {
        Ok(Outcome::Exhausted { processed }) => assert_eq!(processed, 4 * 6),
        _ => panic!("nothing can match"),
    }
}

#[test]
fn all_groups_share_one_combination_size() {
    let groups = vec![vec![1, 2, 3], vec![4, 5, 6]];
    let required = vec![vec![2], vec![]];
    let lists = phrase_search::setup::all_candidates(&groups, 2, &required).unwrap();
    assert_eq!(lists.len(), 2);
    assert_eq!(lists[0], group_candidates(&groups[0], 2, &required[0]));
    assert_eq!(lists[1], group_candidates(&groups[1], 2, &required[1]));
    assert_eq!(lists[0].len(), 4);
    assert_eq!(lists[1].len(), 6);
}

#[test]
fn the_combination_size_is_bounded_by_the_smallest_group() {
    let groups = vec![vec![1, 2, 3], vec![4, 5], vec![6, 7, 8]];
    let required = vec![vec![], vec![], vec![]];
    assert_eq!(
        phrase_search::setup::all_candidates(&groups, 3, &required),
        Err(SetupError::CombinationSize)
    );
    assert!(phrase_search::setup::all_candidates(&groups, 2, &required).is_ok());
    assert_eq!(phrase_search::setup::all_candidates(&vec![], 2, &vec![]), Ok(vec![]));
}

#[test]
fn more_candidates_than_can_be_counted_are_refused() {
    let mut t = Tokenizer::new();
    let token = t.tokenize(vec!["apple"])[0];
    let list: Vec<Vec<u32>> = (0..8192).map(|_| vec![token]).collect();
    let groups = vec![list.clone(), list.clone(), list.clone(), list.clone(), list];
    assert_eq!(phrase_search::composer::composition_count(&groups), None);
    let target = parse_target("0x0000000000000000000000000000000000000001").unwrap();
    assert!(matches!(checked_search(&t, &groups, &target), Err(SetupError::TooManyCandidates)));
}
