//! The search over all compositions for the phrase whose address is the
//! target.

use crate::composer::{
    advance, all_known, first_cursor, in_range, lemma_rank_bound, lemma_rank_injective, phrase_at,
    phrase_of, picked, rank, sizes, tables, volume,
};
use crate::pipeline::{examine, is_match};
use crate::tokenizer::Tokenizer;
use vstd::prelude::*;

verus! {

/// How a search ended.
pub enum Outcome {
    /// A candidate matched, after `processed` others had been rejected.
    Found { processed: u64, phrase: String },
    /// Every candidate was rejected; there were `processed` of them.
    Exhausted { processed: u64 },
}

/// The composition that the cursor names gives a phrase that matches.
pub open spec fn hits(
    known: Seq<Seq<char>>,
    lists: Seq<Seq<Seq<u32>>>,
    target: Seq<char>,
    cursor: Seq<usize>,
) -> bool {
    is_match(phrase_of(known, picked(lists, cursor)), target)
}

/// No composition before place `upto` matches.
pub open spec fn none_before(
    known: Seq<Seq<char>>,
    lists: Seq<Seq<Seq<u32>>>,
    target: Seq<char>,
    upto: int,
) -> bool {
    forall|cursor: Seq<usize>|
        in_range(cursor, sizes(lists)) && rank(cursor, sizes(lists)) < upto ==> !#[trigger] hits(
            known,
            lists,
            target,
            cursor,
        )
}

/// What a search returns: `Found` with the first composition in the walk
/// whose phrase matches and with the number of compositions before it, or,
/// where none matches, `Exhausted` with the number of all compositions.
pub open spec fn ends_search(
    known: Seq<Seq<char>>,
    lists: Seq<Seq<Seq<u32>>>,
    target: Seq<char>,
    outcome: Outcome,
) -> bool {
    match outcome {
        Outcome::Found { processed, phrase } => {
            &&& none_before(known, lists, target, processed as int)
            &&& exists|cursor: Seq<usize>|
                in_range(cursor, sizes(lists)) && rank(cursor, sizes(lists)) == processed
                    && phrase@ == phrase_of(known, picked(lists, cursor)) && #[trigger] hits(
                    known,
                    lists,
                    target,
                    cursor,
                )
        },
        Outcome::Exhausted { processed } => {
            &&& processed == volume(sizes(lists))
            &&& none_before(known, lists, target, processed as int)
        },
    }
}

/// The count that an outcome carries.
pub open spec fn processed_of(outcome: Outcome) -> int {
    match outcome {
        Outcome::Found { processed, phrase } => processed as int,
        Outcome::Exhausted { processed } => processed as int,
    }
}

/// Walks through the compositions of one arrangement per group, the first
/// group varying slowest, and stops at the first whose phrase matches the
/// target. Every composition before it has then been counted as processed;
/// where none matches, all of them have.
pub fn search(tokenizer: &Tokenizer, groups: &Vec<Vec<Vec<u32>>>, target: &String) -> (outcome:
    Outcome)
    requires
        all_known(tokenizer@.len(), tables(groups@)),
        volume(sizes(tables(groups@))) <= u64::MAX,
    ensures
        ends_search(tokenizer@, tables(groups@), target@, outcome),
{
    let ghost lists = tables(groups@);
    let ghost extents = sizes(lists);
    let mut cursor = match first_cursor(groups) {
        Some(cursor) => cursor,
        None => {
            proof {
                assert forall|c: Seq<usize>| in_range(c, extents) implies false by {
                    lemma_rank_bound(c, extents, extents.len());
                }
            }
            return Outcome::Exhausted { processed: 0 };
        },
    };
    let mut processed: u64 = 0;
    proof {
        assert forall|c: Seq<usize>| in_range(c, extents) implies rank(c, extents) >= 0 by {
            lemma_rank_bound(c, extents, extents.len());
        }
    }
    loop
        invariant
            lists == tables(groups@),
            extents == sizes(lists),
            all_known(tokenizer@.len(), lists),
            volume(extents) <= u64::MAX,
            in_range(cursor@, extents),
            rank(cursor@, extents) == processed,
            none_before(tokenizer@, lists, target@, processed as int),
        decreases volume(extents) - processed,
    {
        proof {
            lemma_rank_bound(cursor@, extents, extents.len());
        }
        let phrase = phrase_at(tokenizer, groups, &cursor);
        if examine(phrase.as_str(), target) {
            assert(hits(tokenizer@, lists, target@, cursor@));
            return Outcome::Found { processed, phrase };
        }
        let ghost here = cursor@;
        let moved = advance(&mut cursor, groups);
        proof {
            assert forall|c: Seq<usize>|
                in_range(c, extents) && rank(c, extents) < processed + 1 implies !#[trigger] hits(
                tokenizer@,
                lists,
                target@,
                c,
            ) by {
                if rank(c, extents) == processed {
                    lemma_rank_injective(c, here, extents, extents.len());
                    assert(c =~= here);
                }
            }
        }
        processed = processed + 1;
        if !moved {
            proof {
                assert forall|c: Seq<usize>| in_range(c, extents) implies rank(c, extents)
                    < processed by {
                    lemma_rank_bound(c, extents, extents.len());
                }
            }
            return Outcome::Exhausted { processed };
        }
    }
}

/// A search over candidates among which one matches reports a match.
pub proof fn lemma_present_is_found(
    known: Seq<Seq<char>>,
    lists: Seq<Seq<Seq<u32>>>,
    target: Seq<char>,
    outcome: Outcome,
    cursor: Seq<usize>,
)
    requires
        ends_search(known, lists, target, outcome),
        in_range(cursor, sizes(lists)),
        hits(known, lists, target, cursor),
    ensures
        outcome is Found,
        processed_of(outcome) <= rank(cursor, sizes(lists)),
{
    lemma_rank_bound(cursor, sizes(lists), sizes(lists).len());
}

/// Searching twice with the same words, groups and target ends the same way:
/// both searches are exhausted after the same count, or both find the same
/// phrase after the same count.
pub proof fn lemma_search_is_repeatable(
    known: Seq<Seq<char>>,
    lists: Seq<Seq<Seq<u32>>>,
    target: Seq<char>,
    first: Outcome,
    second: Outcome,
)
    requires
        ends_search(known, lists, target, first),
        ends_search(known, lists, target, second),
    ensures
        processed_of(first) == processed_of(second),
        first is Found <==> second is Found,
        first is Found ==> first->phrase@ == second->phrase@,
{
    let extents = sizes(lists);
    if first is Found {
        let a = choose|cursor: Seq<usize>|
            in_range(cursor, extents) && rank(cursor, extents) == processed_of(first)
                && first->phrase@ == phrase_of(known, picked(lists, cursor)) && #[trigger] hits(
                known,
                lists,
                target,
                cursor,
            );
        lemma_present_is_found(known, lists, target, second, a);
        let b = choose|cursor: Seq<usize>|
            in_range(cursor, extents) && rank(cursor, extents) == processed_of(second)
                && second->phrase@ == phrase_of(known, picked(lists, cursor)) && #[trigger] hits(
                known,
                lists,
                target,
                cursor,
            );
        lemma_present_is_found(known, lists, target, first, b);
        lemma_rank_injective(a, b, extents, extents.len());
        assert(a =~= b);
    } else if second is Found {
        let b = choose|cursor: Seq<usize>|
            in_range(cursor, extents) && rank(cursor, extents) == processed_of(second)
                && second->phrase@ == phrase_of(known, picked(lists, cursor)) && #[trigger] hits(
                known,
                lists,
                target,
                cursor,
            );
        lemma_present_is_found(known, lists, target, first, b);
    }
}

} // verus!
