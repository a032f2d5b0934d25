use phrase_search::arrangement::{arrangement_count, arrangements, group_candidates, is_accepted};
use phrase_search::tokenizer::Tokenizer;

fn sorted(mut v: Vec<Vec<u32>>) -> Vec<Vec<u32>> {
    v.sort();
    v
}

#[test]
fn arrangement_count_is_the_falling_product() {
    assert_eq!(arrangement_count(3, 2), Some(6));
    assert_eq!(arrangement_count(5, 3), Some(60));
    assert_eq!(arrangement_count(4, 4), Some(24));
    assert_eq!(arrangement_count(12, 1), Some(12));
    assert_eq!(arrangement_count(7, 0), Some(1));
    assert_eq!(arrangement_count(0, 0), Some(1));
}

#[test]
fn arrangement_count_is_zero_beyond_the_group() {
    assert_eq!(arrangement_count(2, 3), Some(0));
    assert_eq!(arrangement_count(0, 1), Some(0));
}

#[test]
fn arrangement_count_reports_overflow() {
    assert_eq!(arrangement_count(usize::MAX, 2), None);
    assert_eq!(arrangement_count(usize::MAX, 1), Some(usize::MAX));
}

#[test]
fn two_of_three_gives_six_distinct_arrangements() {
    let all = arrangements(&vec![1, 2, 3], 2);
    assert_eq!(all.len(), 6);
    assert_eq!(
        sorted(all),
        vec![vec![1, 2], vec![1, 3], vec![2, 1], vec![2, 3], vec![3, 1], vec![3, 2]]
    );
}

#[test]
fn all_of_the_group_gives_every_ordering() {
    let all = arrangements(&vec![7, 8, 9], 3);
    assert_eq!(
        sorted(all),
        vec![
            vec![7, 8, 9],
            vec![7, 9, 8],
            vec![8, 7, 9],
            vec![8, 9, 7],
            vec![9, 7, 8],
            vec![9, 8, 7]
        ]
    );
}

#[test]
fn one_of_a_group_gives_each_token() {
    assert_eq!(sorted(arrangements(&vec![4, 5, 6], 1)), vec![vec![4], vec![5], vec![6]]);
    assert_eq!(arrangements(&vec![4], 1), vec![vec![4]]);
}

#[test]
fn counts_agree_with_the_formula() {
    let tokens: Vec<u32> = (1..=6).collect();
    for k in 1..=6usize {
        let all = arrangements(&tokens, k);
        assert_eq!(Some(all.len()), arrangement_count(6, k));
        for a in &all {
            assert_eq!(a.len(), k);
            let mut seen = a.clone();
            seen.sort();
            seen.dedup();
            assert_eq!(seen.len(), k);
            assert!(a.iter().all(|t| tokens.contains(t)));
        }
        let mut distinct = all.clone();
        distinct.sort();
        distinct.dedup();
        assert_eq!(distinct.len(), all.len());
    }
}

#[test]
fn nothing_required_accepts_everything() {
    assert!(is_accepted(&vec![1, 2], &vec![]));
    assert!(is_accepted(&vec![], &vec![]));
}

#[test]
fn a_shared_token_is_needed_once_something_is_required() {
    assert!(is_accepted(&vec![1, 2], &vec![2]));
    assert!(is_accepted(&vec![1, 2], &vec![9, 1]));
    assert!(!is_accepted(&vec![1, 3], &vec![2]));
    assert!(!is_accepted(&vec![], &vec![2]));
}

#[test]
fn without_required_tokens_every_arrangement_is_a_candidate() {
    let tokens = vec![1, 2, 3];
    assert_eq!(group_candidates(&tokens, 2, &vec![]), arrangements(&tokens, 2));
}

#[test]
fn required_banana_keeps_four_of_six() {
    let mut t = Tokenizer::new();
    let group = t.tokenize(vec!["apple", "banana", "cherry"]);
    let required = t.tokenize(vec!["banana"]);
    let kept = group_candidates(&group, 2, &required);
    assert_eq!(kept.len(), 4);
    let mut phrases: Vec<String> = kept.iter().map(|a| t.to_words(a).join(" ")).collect();
    phrases.sort();
    assert_eq!(
        phrases,
        vec!["apple banana", "banana apple", "banana cherry", "cherry banana"]
    );
    for a in &kept {
        assert!(a.contains(&required[0]));
    }
}

#[test]
fn a_required_token_outside_the_group_prunes_everything() {
    let kept = group_candidates(&vec![1, 2, 3], 2, &vec![9]);
    assert!(kept.is_empty());
}

#[test]
fn candidates_keep_the_order_of_the_arrangements() {
    let tokens = vec![1, 2, 3, 4];
    let required = vec![4, 2];
    let expected: Vec<Vec<u32>> = arrangements(&tokens, 3)
        .into_iter()
        .filter(|a| a.contains(&4) || a.contains(&2))
        .collect();
    assert_eq!(group_candidates(&tokens, 3, &required), expected);
}
