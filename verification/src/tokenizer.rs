//! Words and their dense integer tokens.

use vstd::prelude::*;
use vstd::string::*;

verus! {

/// The character sequences of a list of borrowed words.
pub open spec fn word_views(words: Seq<&str>) -> Seq<Seq<char>> {
    Seq::new(words.len(), |i: int| words[i]@)
}

/// The character sequences of a list of owned words.
pub open spec fn string_views(words: Seq<String>) -> Seq<Seq<char>> {
    Seq::new(words.len(), |i: int| words[i]@)
}

/// The table of known words after `words` have been seen in order, starting
/// from the table `known`: a word that is not yet known goes to the end.
pub open spec fn learn(known: Seq<Seq<char>>, words: Seq<Seq<char>>) -> Seq<Seq<char>>
    decreases words.len(),
{
    if words.len() == 0 {
        known
    } else {
        let before = learn(known, words.drop_last());
        if before.contains(words.last()) {
            before
        } else {
            before.push(words.last())
        }
    }
}

/// The words that a token sequence stands for in the table `known`.
pub open spec fn words_for(known: Seq<Seq<char>>, tokens: Seq<u32>) -> Seq<Seq<char>> {
    Seq::new(tokens.len(), |i: int| known[tokens[i] - 1])
}

/// Every token of `tokens` has been assigned in a table of `known` words.
pub open spec fn all_assigned(known: nat, tokens: Seq<u32>) -> bool {
    forall|i: int| 0 <= i < tokens.len() ==> 1 <= #[trigger] tokens[i] <= known
}

/// A two-way mapping between words and tokens. The word that was seen first
/// has token 1, the next new word token 2, and so on; 0 is never assigned.
pub struct Tokenizer {
    words: Vec<String>,
}

impl View for Tokenizer {
    type V = Seq<Seq<char>>;

    /// The known words in the order in which they were first seen.
    closed spec fn view(&self) -> Seq<Seq<char>> {
        string_views(self.words@)
    }
}

impl Tokenizer {
    /// No word is known twice, and every token fits in a `u32`.
    pub open spec fn wf(&self) -> bool {
        self@.no_duplicates() && self@.len() <= u32::MAX
    }

    /// `token` has been assigned to a word.
    pub open spec fn knows(&self, token: u32) -> bool {
        1 <= token <= self@.len()
    }

    /// The word that `token` stands for.
    pub open spec fn word_of(&self, token: u32) -> Seq<char> {
        self@[token - 1]
    }

    /// A tokenizer that knows no word.
    pub fn new() -> (t: Self)
        ensures
            t@ == Seq::<Seq<char>>::empty(),
            t.wf(),
    {
        let t = Tokenizer { words: Vec::new() };
        assert(t@ =~= Seq::<Seq<char>>::empty());
        t
    }

    /// How many words are known.
    pub fn len(&self) -> (n: usize)
        ensures
            n == self@.len(),
    {
        self.words.len()
    }

    /// The place of `word` in the table, if it is known.
    fn position(&self, word: &String) -> (found: Option<usize>)
        ensures
            match found {
                Some(j) => j < self@.len() && self@[j as int] == word@,
                None => !self@.contains(word@),
            },
    {
        let mut j: usize = 0;
        while j < self.words.len()
            invariant
                j <= self.words.len(),
                forall|t: int| 0 <= t < j ==> self@[t] != word@,
            decreases self.words.len() - j,
        {
            if self.words[j] == *word {
                return Some(j);
            }
            j += 1;
        }
        None
    }

    /// Maps each word to its token, assigning the next free token to a word
    /// that is seen for the first time.
    pub fn tokenize(&mut self, words: Vec<&str>) -> (tokens: Vec<u32>)
        requires
            old(self).wf(),
            old(self)@.len() + words.len() <= u32::MAX,
        ensures
            final(self).wf(),
            final(self)@ == learn(old(self)@, word_views(words@)),
            tokens.len() == words.len(),
            forall|i: int|
                0 <= i < words.len() ==> final(self).knows(#[trigger] tokens[i])
                    && final(self).word_of(tokens[i]) == words[i]@,
    {
        let mut tokens: Vec<u32> = Vec::new();
        let ghost seen = word_views(words@);
        let mut i: usize = 0;
        while i < words.len()
            invariant
                i <= words.len(),
                seen == word_views(words@),
                self.wf(),
                self@ == learn(old(self)@, seen.take(i as int)),
                self@.len() <= old(self)@.len() + i,
                old(self)@.len() + words.len() <= u32::MAX,
                tokens.len() == i,
                forall|t: int|
                    0 <= t < i ==> self.knows(#[trigger] tokens[t]) && self.word_of(tokens[t])
                        == words[t]@,
            decreases words.len() - i,
        {
            let word = String::from_str(words[i]);
            proof {
                assert(seen.take(i + 1).drop_last() =~= seen.take(i as int));
                assert(seen.take(i + 1).last() == word@);
            }
            let token: u32 = match self.position(&word) {
                Some(j) => (j + 1) as u32,
                None => {
                    let ghost before = self@;
                    self.words.push(word);
                    assert(self@ =~= before.push(words[i as int]@));
                    self.words.len() as u32
                },
            };
            tokens.push(token);
            i += 1;
        }
        proof {
            assert(seen.take(words.len() as int) =~= seen);
        }
        tokens
    }

    /// The words that `tokens` stand for, in the same order.
    pub fn to_words(&self, tokens: &Vec<u32>) -> (words: Vec<String>)
        requires
            all_assigned(self@.len(), tokens@),
        ensures
            words.len() == tokens.len(),
            forall|i: int| 0 <= i < tokens.len() ==> (#[trigger] words[i])@ == self.word_of(tokens[i]),
            string_views(words@) == words_for(self@, tokens@),
    {
        let mut words: Vec<String> = Vec::new();
        let mut i: usize = 0;
        while i < tokens.len()
            invariant
                i <= tokens.len(),
                all_assigned(self@.len(), tokens@),
                words.len() == i,
                forall|t: int| 0 <= t < i ==> (#[trigger] words[t])@ == self@[tokens[t] - 1],
            decreases tokens.len() - i,
        {
            let token = tokens[i];
            assert(1 <= tokens@[i as int] <= self@.len());
            let word = self.words[(token - 1) as usize].clone();
            words.push(word);
            i += 1;
        }
        assert(string_views(words@) =~= words_for(self@, tokens@));
        words
    }
}

/// Learning words keeps every known word at its place, so a token keeps its
/// word for good; it adds no word twice; and afterwards every word that was
/// seen is known.
pub proof fn lemma_learn_extends(known: Seq<Seq<char>>, words: Seq<Seq<char>>)
    ensures
        known.len() <= learn(known, words).len(),
        forall|i: int| 0 <= i < known.len() ==> learn(known, words)[i] == known[i],
        known.no_duplicates() ==> learn(known, words).no_duplicates(),
        forall|i: int| 0 <= i < words.len() ==> learn(known, words).contains(#[trigger] words[i]),
    decreases words.len(),
{
    if words.len() > 0 {
        let front = words.drop_last();
        let before = learn(known, front);
        let after = learn(known, words);
        lemma_learn_extends(known, front);
        assert forall|i: int| 0 <= i < words.len() implies after.contains(#[trigger] words[i]) by {
            if i < front.len() {
                assert(front[i] == words[i]);
                let at = before.index_of(words[i]);
                assert(after[at] == words[i]);
            } else if before.contains(words.last()) {
            } else {
                assert(after[before.len() as int] == words[i]);
            }
        }
    }
}

/// Different tokens stand for different words.
pub proof fn lemma_tokens_differ(table: Tokenizer, a: u32, b: u32)
    requires
        table.wf(),
        table.knows(a),
        table.knows(b),
        a != b,
    ensures
        table.word_of(a) != table.word_of(b),
{
}

/// Turning words into tokens and the tokens back into words gives the words
/// again, in the same order: whenever `tokens` are what `tokenize` returned
/// for `words` and `table` is the tokenizer after that call, `to_words` may
/// be called on `tokens`, and what it returns are the `words`.
pub proof fn lemma_round_trip(table: Tokenizer, words: Seq<&str>, tokens: Seq<u32>)
    requires
        tokens.len() == words.len(),
        forall|i: int|
            0 <= i < words.len() ==> table.knows(#[trigger] tokens[i]) && table.word_of(tokens[i])
                == words[i]@,
    ensures
        all_assigned(table@.len(), tokens),
        words_for(table@, tokens) == word_views(words),
{
    assert(words_for(table@, tokens) =~= word_views(words));
}

} // verus!
