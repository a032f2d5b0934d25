use phrase_search::tokenizer::Tokenizer;

#[test]
fn tokens_are_assigned_in_first_seen_order_from_one() {
    let mut t = Tokenizer::new();
    assert_eq!(t.tokenize(vec!["apple", "banana", "cherry"]), vec![1, 2, 3]);
    assert_eq!(t.len(), 3);
}

#[test]
fn a_word_seen_again_keeps_its_token() {
    let mut t = Tokenizer::new();
    assert_eq!(t.tokenize(vec!["apple", "banana", "apple"]), vec![1, 2, 1]);
    assert_eq!(t.tokenize(vec!["cherry", "banana"]), vec![3, 2]);
    assert_eq!(t.len(), 3);
}

#[test]
fn empty_word_list_gives_no_tokens() {
    let mut t = Tokenizer::new();
    assert_eq!(t.tokenize(vec![]), Vec::<u32>::new());
    assert_eq!(t.len(), 0);
    assert_eq!(t.to_words(&vec![]), Vec::<String>::new());
}

#[test]
fn words_come_back_in_order() {
    let mut t = Tokenizer::new();
    let words = vec!["dog", "elephant", "dog", "fox"];
    let tokens = t.tokenize(words.clone());
    let back = t.to_words(&tokens);
    assert_eq!(back, vec!["dog", "elephant", "dog", "fox"]);
}

#[test]
fn tokens_map_to_their_words_in_any_order() {
    let mut t = Tokenizer::new();
    t.tokenize(vec!["apple", "banana", "cherry"]);
    assert_eq!(t.to_words(&vec![3, 1, 2, 3]), vec!["cherry", "apple", "banana", "cherry"]);
}

#[test]
fn groups_share_tokens_for_shared_words() {
    let mut t = Tokenizer::new();
    let first = t.tokenize(vec!["apple", "banana"]);
    let second = t.tokenize(vec!["banana", "cherry"]);
    assert_eq!(first, vec![1, 2]);
    assert_eq!(second, vec![2, 3]);
}
