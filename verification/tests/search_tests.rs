use phrase_search::arrangement::group_candidates;
use phrase_search::composer::{advance, composition_count, first_cursor, join_words, phrase_at};
use phrase_search::pipeline::{derive_address, examine, judge, parse_target};
use phrase_search::progress::{Progress, Report};
use phrase_search::search::{search, Outcome};
use phrase_search::tokenizer::Tokenizer;

const KNOWN_PHRASE: &str =
    "abandon abandon abandon abandon abandon abandon abandon abandon abandon abandon abandon about";
const KNOWN_ADDRESS: &str = "0x9858EfFD232B4033E47d90003D41EC34EcaEda94";
const OTHER_ADDRESS: &str = "0x0000000000000000000000000000000000000001";

fn strings(words: &[&str]) -> Vec<String> {
    words.iter().map(|w| w.to_string()).collect()
}

#[test]
fn join_puts_single_spaces_between_words() {
    assert_eq!(join_words(&strings(&["a", "b", "c"])), "a b c");
    assert_eq!(join_words(&strings(&["alone"])), "alone");
    assert_eq!(join_words(&strings(&[])), "");
}

#[test]
fn phrase_joins_groups_in_order() {
    let mut t = Tokenizer::new();
    let g1 = t.tokenize(vec!["apple", "banana"]);
    let g2 = t.tokenize(vec!["dog", "fox"]);
    let groups = vec![vec![g1.clone(), vec![g1[1], g1[0]]], vec![g2.clone()]];
    assert_eq!(phrase_at(&t, &groups, &vec![0, 0]), "apple banana dog fox");
    assert_eq!(phrase_at(&t, &groups, &vec![1, 0]), "banana apple dog fox");
}

#[test]
fn the_walk_visits_every_composition_once_last_group_fastest() {
    let groups = vec![vec![vec![1], vec![2]], vec![vec![3], vec![4], vec![5]]];
    let mut cursor = first_cursor(&groups).unwrap();
    let mut seen = vec![cursor.clone()];
    while advance(&mut cursor, &groups) {
        seen.push(cursor.clone());
    }
    assert_eq!(
        seen,
        vec![vec![0, 0], vec![0, 1], vec![0, 2], vec![1, 0], vec![1, 1], vec![1, 2]]
    );
    assert_eq!(cursor, vec![0, 0]);
    assert_eq!(composition_count(&groups), Some(6));
}

#[test]
fn an_empty_group_leaves_nothing_to_compose() {
    let groups: Vec<Vec<Vec<u32>>> = vec![vec![vec![1]], vec![]];
    assert_eq!(first_cursor(&groups), None);
    assert_eq!(composition_count(&groups), Some(0));
}

#[test]
fn no_group_gives_one_empty_composition() {
    let groups: Vec<Vec<Vec<u32>>> = vec![];
    assert_eq!(composition_count(&groups), Some(1));
    let mut cursor = first_cursor(&groups).unwrap();
    assert!(!advance(&mut cursor, &groups));
}

#[test]
fn three_groups_compose_to_the_product_of_their_sizes_all_unique() {
    let mut t = Tokenizer::new();
    let g1 = t.tokenize(vec!["apple", "banana", "cherry"]);
    let g2 = t.tokenize(vec!["dog", "elephant", "fox"]);
    let g3 = t.tokenize(vec!["goat", "horse"]);
    let groups = vec![
        group_candidates(&g1, 2, &vec![]),
        group_candidates(&g2, 2, &vec![]),
        group_candidates(&g3, 2, &vec![]),
    ];
    assert_eq!(composition_count(&groups), Some(6 * 6 * 2));
    let mut cursor = first_cursor(&groups).unwrap();
    let mut phrases = vec![phrase_at(&t, &groups, &cursor)];
    while advance(&mut cursor, &groups) {
        phrases.push(phrase_at(&t, &groups, &cursor));
    }
    assert_eq!(phrases.len(), 72);
    phrases.sort();
    phrases.dedup();
    assert_eq!(phrases.len(), 72);
}

#[test]
fn the_known_phrase_has_a_valid_checksum_and_the_known_address() {
    assert_eq!(derive_address(KNOWN_PHRASE), Some(KNOWN_ADDRESS.to_string()));
    assert!(examine(KNOWN_PHRASE, &KNOWN_ADDRESS.to_string()));
    assert!(!examine(KNOWN_PHRASE, &OTHER_ADDRESS.to_string()));
}

#[test]
fn a_phrase_with_a_bad_checksum_never_matches() {
    let bad = "abandon abandon abandon abandon abandon abandon abandon abandon abandon abandon abandon abandon";
    assert!(!examine(bad, &KNOWN_ADDRESS.to_string()));
    assert!(!examine("apple banana dog fox", &KNOWN_ADDRESS.to_string()));
    assert!(!examine("", &KNOWN_ADDRESS.to_string()));
    assert_eq!(derive_address("not a mnemonic at all"), None);
}

#[test]
fn target_is_brought_to_checksum_spelling() {
    let lower = KNOWN_ADDRESS.to_lowercase();
    assert_eq!(parse_target(&lower), Some(KNOWN_ADDRESS.to_string()));
    assert_eq!(parse_target(&lower[2..]), Some(KNOWN_ADDRESS.to_string()));
    assert_eq!(parse_target(KNOWN_ADDRESS), Some(KNOWN_ADDRESS.to_string()));
}

#[test]
fn target_of_wrong_length_or_alphabet_is_refused() {
    assert_eq!(parse_target("0x1234"), None);
    assert_eq!(parse_target(""), None);
    assert_eq!(parse_target("\u{e9}\u{e9}\u{e9}\u{e9}\u{e9}\u{e9}\u{e9}\u{e9}\u{e9}\u{e9}\u{e9}\u{e9}\u{e9}\u{e9}\u{e9}\u{e9}\u{e9}\u{e9}\u{e9}\u{e9}"), None);
}

#[test]
fn judge_needs_checksum_and_equal_address() {
    let target = KNOWN_ADDRESS.to_string();
    assert!(judge(true, &Some(KNOWN_ADDRESS.to_string()), &target));
    assert!(!judge(false, &Some(KNOWN_ADDRESS.to_string()), &target));
    assert!(!judge(true, &Some(OTHER_ADDRESS.to_string()), &target));
    assert!(!judge(true, &None, &target));
}

#[test]
fn unreachable_target_exhausts_all_thirty_six() {
    let mut t = Tokenizer::new();
    let g1 = t.tokenize(vec!["apple", "banana", "cherry"]);
    let g2 = t.tokenize(vec!["dog", "elephant", "fox"]);
    let groups = vec![group_candidates(&g1, 2, &vec![]), group_candidates(&g2, 2, &vec![])];
    let target = parse_target(OTHER_ADDRESS).unwrap();
    match search(&t, &groups, &target) {
        Outcome::Exhausted { processed } => assert_eq!(processed, 36),
        Outcome::Found { .. } => panic!("nothing can match"),
    }
}

#[test]
fn search_over_no_candidates_processes_none() {
    let t = Tokenizer::new();
    let groups: Vec<Vec<Vec<u32>>> = vec![vec![], vec![]];
    match search(&t, &groups, &OTHER_ADDRESS.to_string()) {
        Outcome::Exhausted { processed } => assert_eq!(processed, 0),
        Outcome::Found { .. } => panic!("nothing can match"),
    }
}

fn known_groups(t: &mut Tokenizer) -> Vec<Vec<Vec<u32>>> {
    let words: Vec<&str> = KNOWN_PHRASE.split(' ').collect();
    let mut groups = Vec::new();
    for chunk in words.chunks(2) {
        let mut scrambled = chunk.to_vec();
        scrambled.reverse();
        let tokens = t.tokenize(scrambled);
        groups.push(group_candidates(&tokens, 2, &vec![]));
    }
    groups
}

#[test]
fn the_known_phrase_is_found_among_the_candidates() {
    let mut t = Tokenizer::new();
    let groups = known_groups(&mut t);
    assert_eq!(composition_count(&groups), Some(64));
    let target = parse_target(&KNOWN_ADDRESS.to_lowercase()).unwrap();
    match search(&t, &groups, &target) {
        Outcome::Found { processed, phrase } => {
            assert_eq!(phrase, KNOWN_PHRASE);
            assert!(processed < 64);
        }
        Outcome::Exhausted { .. } => panic!("the known phrase is among the candidates"),
    }
}

#[test]
fn searching_again_gives_the_same_outcome() {
    let mut t = Tokenizer::new();
    let groups = known_groups(&mut t);
    let target = parse_target(KNOWN_ADDRESS).unwrap();
    let first = match search(&t, &groups, &target) {
        Outcome::Found { processed, phrase } => (processed, phrase),
        Outcome::Exhausted { .. } => panic!("the known phrase is among the candidates"),
    };
    let second = match search(&t, &groups, &target) {
        Outcome::Found { processed, phrase } => (processed, phrase),
        Outcome::Exhausted { .. } => panic!("the known phrase is among the candidates"),
    };
    assert_eq!(first, second);
}

#[test]
fn found_counts_the_candidates_rejected_before_the_match() {
    let mut t = Tokenizer::new();
    let groups = known_groups(&mut t);
    let target = parse_target(KNOWN_ADDRESS).unwrap();
    let mut cursor = first_cursor(&groups).unwrap();
    let mut before: u64 = 0;
    while !examine(&phrase_at(&t, &groups, &cursor), &target) {
        before += 1;
        assert!(advance(&mut cursor, &groups));
    }
    match search(&t, &groups, &target) {
        Outcome::Found { processed, .. } => assert_eq!(processed, before),
        Outcome::Exhausted { .. } => panic!("the known phrase is among the candidates"),
    }
}

#[test]
fn progress_counts_and_reports_after_a_second() {
    let mut p = Progress::new();
    assert_eq!(p.record(10), None);
    assert_eq!(p.record(1000), None);
    assert_eq!(p.total(), 2);
    assert_eq!(p.interval(), 2);
    assert_eq!(p.record(1001), Some(Report { speed: 3, total: 3 }));
    assert_eq!(p.interval(), 0);
    assert_eq!(p.total(), 3);
    assert_eq!(p.record(0), None);
    assert_eq!(p.interval(), 1);
    assert_eq!(p.total(), 4);
}
