//! Entry points that test their inputs themselves and say what is wrong
//! with them.

use crate::arrangement::{
    accepted, arrangement_count, candidates_of, falling, group_candidates, is_arrangement, rows,
};
use crate::composer::{all_known, composition_count, sizes, tables, volume};
use crate::search::{ends_search, search, Outcome};
use crate::tokenizer::{all_assigned, Tokenizer};
use vstd::prelude::*;

verus! {

/// Why a search cannot be set up.
#[derive(Clone, Copy, Debug, PartialEq, Eq, Structural)]
pub enum SetupError {
    /// The combination size is 0 or exceeds the size of the group.
    CombinationSize,
    /// The group has more arrangements than a `usize` can count.
    TooManyArrangements,
    /// An arrangement holds a token that stands for no word.
    UnknownToken,
    /// There are more candidates than a `u64` can count.
    TooManyCandidates,
}

/// What is wrong with a group and a combination size, if anything.
pub open spec fn group_fault(n: nat, k: nat) -> Option<SetupError> {
    if k == 0 || k > n {
        Some(SetupError::CombinationSize)
    } else if falling(n, k) > usize::MAX {
        Some(SetupError::TooManyArrangements)
    } else {
        None
    }
}

/// The sizes of the groups.
pub open spec fn group_sizes(groups: Seq<Vec<u32>>) -> Seq<nat> {
    Seq::new(groups.len(), |g: int| groups[g].len() as nat)
}

/// What is wrong with the first group that cannot offer arrangements of `k`
/// tokens, if there is such a group.
pub open spec fn first_fault(sizes: Seq<nat>, k: nat) -> Option<SetupError>
    decreases sizes.len(),
{
    if sizes.len() == 0 {
        None
    } else {
        match first_fault(sizes.drop_last(), k) {
            Some(e) => Some(e),
            None => group_fault(sizes.last(), k),
        }
    }
}

/// What is wrong with the arrangement lists handed to a search, if anything.
pub open spec fn search_fault(known: nat, lists: Seq<Seq<Seq<u32>>>) -> Option<SetupError> {
    if !all_known(known, lists) {
        Some(SetupError::UnknownToken)
    } else if volume(sizes(lists)) > u64::MAX {
        Some(SetupError::TooManyCandidates)
    } else {
        None
    }
}

/// The candidates of a group, or the reason why it has none to offer: the
/// combination size must be at least 1 and at most the size of the group, and
/// the number of arrangements must fit in a `usize`.
pub fn checked_candidates(tokens: &Vec<u32>, k: usize, required: &Vec<u32>) -> (result: Result<
    Vec<Vec<u32>>,
    SetupError,
>)
    ensures
        match result {
            Ok(out) => {
                &&& group_fault(tokens.len() as nat, k as nat) is None
                &&& rows(out@) == candidates_of(tokens@, k as nat, required@)
                &&& forall|i: int|
                    0 <= i < out.len() ==> accepted((#[trigger] out[i])@, required@) && out[i].len()
                        == k
                &&& tokens@.no_duplicates() ==> rows(out@).no_duplicates()
                &&& forall|s: Seq<u32>| #[trigger]
                    is_arrangement(s, tokens@, k as nat) && accepted(s, required@) ==> rows(
                        out@,
                    ).contains(s)
            },
            Err(e) => group_fault(tokens.len() as nat, k as nat) == Some(e),
        },
{
    if k == 0 || k > tokens.len() {
        return Err(SetupError::CombinationSize);
    }
    match arrangement_count(tokens.len(), k) {
        None => Err(SetupError::TooManyArrangements),
        Some(_) => Ok(group_candidates(tokens, k, required)),
    }
}

/// The candidates of every group for one combination size shared by all of
/// them, in group order, or what is wrong with the first group that has a
/// fault: the combination size must be at least 1 and at most the size of the
/// smallest group.
pub fn all_candidates(groups: &Vec<Vec<u32>>, k: usize, required: &Vec<Vec<u32>>) -> (result: Result<
    Vec<Vec<Vec<u32>>>,
    SetupError,
>)
    requires
        required.len() == groups.len(),
    ensures
        match result {
            Ok(lists) => {
                &&& first_fault(group_sizes(groups@), k as nat) is None
                &&& lists.len() == groups.len()
                &&& forall|g: int|
                    0 <= g < groups.len() ==> rows((#[trigger] lists[g])@) == candidates_of(
                        groups[g]@,
                        k as nat,
                        required[g]@,
                    )
            },
            Err(e) => first_fault(group_sizes(groups@), k as nat) == Some(e),
        },
{
    let ghost extents = group_sizes(groups@);
    let mut lists: Vec<Vec<Vec<u32>>> = Vec::new();
    let mut g: usize = 0;
    while g < groups.len()
        invariant
            g <= groups.len(),
            required.len() == groups.len(),
            extents == group_sizes(groups@),
            first_fault(extents.take(g as int), k as nat) is None,
            lists.len() == g,
            forall|t: int|
                0 <= t < g ==> rows((#[trigger] lists[t])@) == candidates_of(
                    groups[t]@,
                    k as nat,
                    required[t]@,
                ),
        decreases groups.len() - g,
    {
        proof {
            assert(extents.take(g + 1).drop_last() =~= extents.take(g as int));
            assert(extents.take(g + 1).last() == groups[g as int].len());
        }
        match checked_candidates(&groups[g], k, &required[g]) {
            Ok(list) => {
                lists.push(list);
            },
            Err(e) => {
                proof {
                    lemma_fault_stays(extents, k as nat, g + 1);
                }
                return Err(e);
            },
        }
        g += 1;
    }
    proof {
        assert(extents.take(groups.len() as int) =~= extents);
    }
    Ok(lists)
}

/// A fault among the first groups is the fault of them all.
proof fn lemma_fault_stays(sizes: Seq<nat>, k: nat, upto: int)
    requires
        0 <= upto <= sizes.len(),
        first_fault(sizes.take(upto), k) is Some,
    ensures
        first_fault(sizes, k) == first_fault(sizes.take(upto), k),
    decreases sizes.len() - upto,
{
    if upto < sizes.len() {
        assert(sizes.take(upto + 1).drop_last() =~= sizes.take(upto));
        lemma_fault_stays(sizes, k, upto + 1);
    } else {
        assert(sizes.take(upto) =~= sizes);
    }
}

/// Whether every token of the sequence has been assigned.
fn tokens_assigned(known: usize, tokens: &Vec<u32>) -> (ok: bool)
    ensures
        ok == all_assigned(known as nat, tokens@),
{
    let mut i: usize = 0;
    while i < tokens.len()
        invariant
            i <= tokens.len(),
            forall|t: int| 0 <= t < i ==> 1 <= #[trigger] tokens@[t] <= known,
        decreases tokens.len() - i,
    {
        let token = tokens[i];
        if token == 0 || token as usize > known {
            assert(!(1 <= tokens@[i as int] <= known));
            return false;
        }
        i += 1;
    }
    true
}

/// Whether every token of every arrangement has been assigned.
fn groups_assigned(known: usize, groups: &Vec<Vec<Vec<u32>>>) -> (ok: bool)
    ensures
        ok == all_known(known as nat, tables(groups@)),
{
    let ghost lists = tables(groups@);
    let mut g: usize = 0;
    while g < groups.len()
        invariant
            g <= groups.len(),
            lists == tables(groups@),
            forall|p: int, a: int|
                0 <= p < g && 0 <= a < lists[p].len() ==> all_assigned(
                    known as nat,
                    #[trigger] lists[p][a],
                ),
        decreases groups.len() - g,
    {
        let list = &groups[g];
        let mut a: usize = 0;
        while a < list.len()
            invariant
                a <= list.len(),
                g < groups.len(),
                lists == tables(groups@),
                list == groups[g as int],
                forall|b: int|
                    0 <= b < a ==> all_assigned(known as nat, #[trigger] lists[g as int][b]),
            decreases list.len() - a,
        {
            assert(lists[g as int][a as int] == list[a as int]@);
            if !tokens_assigned(known, &list[a]) {
                return false;
            }
            a += 1;
        }
        assert(lists[g as int].len() == list.len());
        g += 1;
    }
    true
}

/// Searches the compositions of the given arrangement lists, after testing
/// that every token stands for a word and that the candidates can be counted
/// in a `u64`.
pub fn checked_search(tokenizer: &Tokenizer, groups: &Vec<Vec<Vec<u32>>>, target: &String) -> (result:
    Result<Outcome, SetupError>)
    ensures
        match result {
            Ok(outcome) => search_fault(tokenizer@.len(), tables(groups@)) is None && ends_search(
                tokenizer@,
                tables(groups@),
                target@,
                outcome,
            ),
            Err(e) => search_fault(tokenizer@.len(), tables(groups@)) == Some(e),
        },
{
    if !groups_assigned(tokenizer.len(), groups) {
        return Err(SetupError::UnknownToken);
    }
    match composition_count(groups) {
        None => Err(SetupError::TooManyCandidates),
        Some(_) => Ok(search(tokenizer, groups, target)),
    }
}

} // verus!
