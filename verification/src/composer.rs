//! Composition of one arrangement per group into a candidate phrase, and
//! the walk through all such compositions.

use crate::arrangement::rows;
use crate::tokenizer::{all_assigned, string_views, words_for, Tokenizer};
use vstd::prelude::*;
use vstd::string::*;

verus! {

/// The words joined by single spaces.
pub open spec fn join(words: Seq<Seq<char>>) -> Seq<char>
    decreases words.len(),
{
    if words.len() == 0 {
        Seq::empty()
    } else if words.len() == 1 {
        words[0]
    } else {
        join(words.drop_last()) + seq![' '] + words.last()
    }
}

/// The arrangement lists of all groups as plain sequences.
pub open spec fn tables(groups: Seq<Vec<Vec<u32>>>) -> Seq<Seq<Seq<u32>>> {
    Seq::new(groups.len(), |g: int| rows(groups[g]@))
}

/// How many arrangements each group offers.
pub open spec fn sizes(lists: Seq<Seq<Seq<u32>>>) -> Seq<nat> {
    Seq::new(lists.len(), |g: int| lists[g].len())
}

/// Every token of every arrangement has been assigned among `known` words.
pub open spec fn all_known(known: nat, lists: Seq<Seq<Seq<u32>>>) -> bool {
    forall|g: int, a: int|
        0 <= g < lists.len() && 0 <= a < lists[g].len() ==> all_assigned(
            known,
            #[trigger] lists[g][a],
        )
}

/// A cursor names one arrangement in each group.
pub open spec fn in_range(cursor: Seq<usize>, sizes: Seq<nat>) -> bool {
    cursor.len() == sizes.len() && forall|g: int|
        0 <= g < sizes.len() ==> (#[trigger] cursor[g]) < sizes[g]
}

/// The arrangements that a cursor names, one per group, in group order.
pub open spec fn picked(lists: Seq<Seq<Seq<u32>>>, cursor: Seq<usize>) -> Seq<Seq<u32>> {
    Seq::new(lists.len(), |g: int| lists[g][cursor[g] as int])
}

/// The phrase of one arrangement per group: each group's words joined by
/// single spaces, and the groups joined by single spaces in their order.
pub open spec fn phrase_of(known: Seq<Seq<char>>, picks: Seq<Seq<u32>>) -> Seq<char> {
    join(group_phrases(known, picks))
}

/// The words of each group's arrangement joined by single spaces.
pub open spec fn group_phrases(known: Seq<Seq<char>>, picks: Seq<Seq<u32>>) -> Seq<Seq<char>> {
    Seq::new(picks.len(), |g: int| join(words_for(known, picks[g])))
}

/// The place of the first `upto` entries of a cursor in the walk over the
/// first `upto` groups, the first group varying slowest.
pub open spec fn rank_upto(cursor: Seq<usize>, sizes: Seq<nat>, upto: nat) -> int
    decreases upto,
{
    if upto == 0 {
        0
    } else {
        rank_upto(cursor, sizes, (upto - 1) as nat) * sizes[upto - 1] + cursor[upto - 1]
    }
}

/// The place of a cursor in the walk over all groups, counted from 0.
pub open spec fn rank(cursor: Seq<usize>, sizes: Seq<nat>) -> int {
    rank_upto(cursor, sizes, sizes.len())
}

/// The product of the first `upto` sizes.
pub open spec fn volume_upto(sizes: Seq<nat>, upto: nat) -> int
    decreases upto,
{
    if upto == 0 {
        1
    } else {
        volume_upto(sizes, (upto - 1) as nat) * sizes[upto - 1]
    }
}

/// How many compositions there are: the product of the groups' sizes.
pub open spec fn volume(sizes: Seq<nat>) -> int {
    volume_upto(sizes, sizes.len())
}

/// Joins the words with single spaces.
pub fn join_words(words: &Vec<String>) -> (joined: String)
    ensures
        joined@ == join(string_views(words@)),
{
    let mut joined = String::new();
    let ghost views = string_views(words@);
    let mut i: usize = 0;
    while i < words.len()
        invariant
            i <= words.len(),
            views == string_views(words@),
            joined@ == join(views.take(i as int)),
        decreases words.len() - i,
    {
        proof {
            assert(views.take(i + 1).drop_last() =~= views.take(i as int));
            assert(views.take(i + 1).last() == words[i as int]@);
            reveal_strlit(" ");
            assert(" "@ =~= seq![' ']);
        }
        if i > 0 {
            joined.append(" ");
        }
        joined.append(words[i].as_str());
        proof {
            if i == 0 {
                assert(views.take(1)[0] == words[0]@);
                assert(joined@ =~= words[0]@);
            }
        }
        i += 1;
    }
    proof {
        assert(views.take(words.len() as int) =~= views);
    }
    joined
}

/// The candidate phrase that a cursor names.
pub fn phrase_at(tokenizer: &Tokenizer, groups: &Vec<Vec<Vec<u32>>>, cursor: &Vec<usize>) -> (phrase:
    String)
    requires
        all_known(tokenizer@.len(), tables(groups@)),
        in_range(cursor@, sizes(tables(groups@))),
    ensures
        phrase@ == phrase_of(tokenizer@, picked(tables(groups@), cursor@)),
{
    let mut parts: Vec<String> = Vec::new();
    let ghost lists = tables(groups@);
    let ghost picks = picked(lists, cursor@);
    let mut g: usize = 0;
    while g < groups.len()
        invariant
            g <= groups.len(),
            lists == tables(groups@),
            picks == picked(lists, cursor@),
            all_known(tokenizer@.len(), lists),
            in_range(cursor@, sizes(lists)),
            parts.len() == g,
            forall|t: int| 0 <= t < g ==> (#[trigger] parts[t])@ == join(words_for(tokenizer@, picks[t])),
        decreases groups.len() - g,
    {
        assert(cursor@[g as int] < sizes(lists)[g as int]);
        let arrangement = &groups[g][cursor[g]];
        assert(arrangement@ == lists[g as int][cursor@[g as int] as int]);
        let words = tokenizer.to_words(arrangement);
        parts.push(join_words(&words));
        g += 1;
    }
    proof {
        assert(string_views(parts@) =~= group_phrases(tokenizer@, picks));
    }
    join_words(&parts)
}

/// Cursors that agree on the first `upto` groups have the same place there.
pub proof fn lemma_rank_prefix(a: Seq<usize>, b: Seq<usize>, sizes: Seq<nat>, upto: nat)
    requires
        forall|g: int| 0 <= g < upto ==> a[g] == b[g],
    ensures
        rank_upto(a, sizes, upto) == rank_upto(b, sizes, upto),
    decreases upto,
{
    if upto > 0 {
        lemma_rank_prefix(a, b, sizes, (upto - 1) as nat);
    }
}

/// A cursor in range has a place below the number of compositions.
pub proof fn lemma_rank_bound(cursor: Seq<usize>, sizes: Seq<nat>, upto: nat)
    requires
        in_range(cursor, sizes),
        upto <= sizes.len(),
    ensures
        0 <= rank_upto(cursor, sizes, upto) < volume_upto(sizes, upto),
    decreases upto,
{
    if upto > 0 {
        let below = (upto - 1) as nat;
        lemma_rank_bound(cursor, sizes, below);
        let r = rank_upto(cursor, sizes, below);
        let v = volume_upto(sizes, below);
        let s = sizes[upto - 1] as int;
        let c = cursor[upto - 1] as int;
        assert(0 <= r * s + c < v * s) by (nonlinear_arith)
            requires
                0 <= r < v,
                0 <= c < s,
        ;
    }
}

/// Two cursors in range with the same place are the same cursor: no
/// composition is visited twice.
pub proof fn lemma_rank_injective(a: Seq<usize>, b: Seq<usize>, sizes: Seq<nat>, upto: nat)
    requires
        in_range(a, sizes),
        in_range(b, sizes),
        upto <= sizes.len(),
        rank_upto(a, sizes, upto) == rank_upto(b, sizes, upto),
    ensures
        forall|g: int| 0 <= g < upto ==> a[g] == b[g],
    decreases upto,
{
    if upto > 0 {
        let below = (upto - 1) as nat;
        let ra = rank_upto(a, sizes, below);
        let rb = rank_upto(b, sizes, below);
        let s = sizes[upto - 1] as int;
        let ca = a[upto - 1] as int;
        let cb = b[upto - 1] as int;
        assert(ra == rb && ca == cb) by (nonlinear_arith)
            requires
                ra * s + ca == rb * s + cb,
                0 <= ca < s,
                0 <= cb < s,
        ;
        lemma_rank_injective(a, b, sizes, below);
    }
}

/// After an advance that steps group `at` and resets the groups behind it,
/// which all stood at their last arrangement, the place has grown by one.
proof fn lemma_step(before: Seq<usize>, after: Seq<usize>, sizes: Seq<nat>, at: int, upto: nat)
    requires
        before.len() == sizes.len(),
        after.len() == sizes.len(),
        0 <= at < upto <= sizes.len(),
        forall|g: int| 0 <= g < at ==> after[g] == before[g],
        after[at] == before[at] + 1,
        forall|g: int| at < g < sizes.len() ==> after[g] == 0 && before[g] + 1 == sizes[g],
    ensures
        rank_upto(after, sizes, upto) == rank_upto(before, sizes, upto) + 1,
    decreases upto,
{
    if upto == at + 1 {
        lemma_rank_prefix(after, before, sizes, at as nat);
    } else {
        let below = (upto - 1) as nat;
        lemma_step(before, after, sizes, at, below);
        let r = rank_upto(before, sizes, below);
        let s = sizes[upto - 1] as int;
        assert((r + 1) * s == r * s + s) by (nonlinear_arith);
    }
}

/// A cursor whose every group stands at its last arrangement names the last
/// composition.
proof fn lemma_last(cursor: Seq<usize>, sizes: Seq<nat>, upto: nat)
    requires
        cursor.len() == sizes.len(),
        upto <= sizes.len(),
        forall|g: int| 0 <= g < sizes.len() ==> cursor[g] + 1 == sizes[g],
    ensures
        rank_upto(cursor, sizes, upto) + 1 == volume_upto(sizes, upto),
    decreases upto,
{
    if upto > 0 {
        let below = (upto - 1) as nat;
        lemma_last(cursor, sizes, below);
        let v = volume_upto(sizes, below);
        let s = sizes[upto - 1] as int;
        assert((v - 1) * s + (s - 1) + 1 == v * s) by (nonlinear_arith);
    }
}

/// Where a group offers no arrangement there is nothing to compose.
pub proof fn lemma_empty_group(sizes: Seq<nat>, empty: int, upto: nat)
    requires
        0 <= empty < upto <= sizes.len(),
        sizes[empty] == 0,
    ensures
        volume_upto(sizes, upto) == 0,
    decreases upto,
{
    if upto == empty + 1 {
        assert(volume_upto(sizes, empty as nat) * 0 == 0);
    } else {
        lemma_empty_group(sizes, empty, (upto - 1) as nat);
        assert(0 * sizes[upto - 1] == 0);
    }
}

/// The cursor of the first composition, or `None` where some group offers
/// no arrangement and so nothing can be composed.
pub fn first_cursor(groups: &Vec<Vec<Vec<u32>>>) -> (start: Option<Vec<usize>>)
    ensures
        match start {
            Some(cursor) => {
                &&& cursor.len() == groups.len()
                &&& forall|g: int| 0 <= g < cursor.len() ==> cursor[g] == 0
                &&& in_range(cursor@, sizes(tables(groups@)))
                &&& rank(cursor@, sizes(tables(groups@))) == 0
            },
            None => volume(sizes(tables(groups@))) == 0,
        },
        start is None <==> exists|g: int| 0 <= g < groups.len() && (#[trigger] groups[g]).len() == 0,
{
    let mut cursor: Vec<usize> = Vec::new();
    let ghost extents = sizes(tables(groups@));
    let mut g: usize = 0;
    while g < groups.len()
        invariant
            g <= groups.len(),
            extents == sizes(tables(groups@)),
            cursor.len() == g,
            forall|t: int| 0 <= t < g ==> cursor[t] == 0 && extents[t] > 0,
            forall|t: int| 0 <= t < g ==> (#[trigger] groups[t]).len() > 0,
        decreases groups.len() - g,
    {
        assert(extents[g as int] == groups[g as int].len());
        if groups[g].len() == 0 {
            proof {
                lemma_empty_group(extents, g as int, extents.len());
            }
            return None;
        }
        cursor.push(0);
        g += 1;
    }
    proof {
        lemma_zero_rank(cursor@, extents, extents.len());
    }
    Some(cursor)
}

/// The cursor of zeros comes first.
proof fn lemma_zero_rank(cursor: Seq<usize>, sizes: Seq<nat>, upto: nat)
    requires
        cursor.len() == sizes.len(),
        upto <= sizes.len(),
        forall|g: int| 0 <= g < cursor.len() ==> cursor[g] == 0,
    ensures
        rank_upto(cursor, sizes, upto) == 0,
    decreases upto,
{
    if upto > 0 {
        lemma_zero_rank(cursor, sizes, (upto - 1) as nat);
        assert(0 * sizes[upto - 1] == 0);
    }
}

/// Moves the cursor to the next composition, the last group varying
/// fastest. Returns `false`, and leaves the cursor of the first composition,
/// where the cursor stood at the last one.
pub fn advance(cursor: &mut Vec<usize>, groups: &Vec<Vec<Vec<u32>>>) -> (moved: bool)
    requires
        in_range(old(cursor)@, sizes(tables(groups@))),
    ensures
        in_range(final(cursor)@, sizes(tables(groups@))),
        moved == (rank(old(cursor)@, sizes(tables(groups@))) + 1 < volume(sizes(tables(groups@)))),
        moved ==> rank(final(cursor)@, sizes(tables(groups@))) == rank(
            old(cursor)@,
            sizes(tables(groups@)),
        ) + 1,
        !moved ==> rank(final(cursor)@, sizes(tables(groups@))) == 0,
{
    let ghost extents = sizes(tables(groups@));
    let ghost before = cursor@;
    let mut g: usize = groups.len();
    while g > 0
        invariant
            g <= groups.len(),
            extents == sizes(tables(groups@)),
            before == old(cursor)@,
            before.len() == extents.len(),
            cursor.len() == extents.len(),
            in_range(before, extents),
            in_range(cursor@, extents),
            forall|t: int| 0 <= t < g ==> cursor[t] == before[t],
            forall|t: int| g <= t < extents.len() ==> cursor[t] == 0 && before[t] + 1 == extents[t],
        decreases g,
    {
        g -= 1;
        assert(extents[g as int] == groups[g as int].len());
        assert(cursor@[g as int] < extents[g as int]);
        let here = cursor[g];
        if here + 1 < groups[g].len() {
            cursor.set(g, here + 1);
            proof {
                lemma_step(before, cursor@, extents, g as int, extents.len());
                lemma_rank_bound(cursor@, extents, extents.len());
            }
            return true;
        }
        cursor.set(g, 0);
    }
    proof {
        lemma_last(before, extents, extents.len());
        lemma_zero_rank(cursor@, extents, extents.len());
    }
    false
}

/// How many compositions the groups allow, or `None` where that number
/// does not fit in a `u64`.
pub fn composition_count(groups: &Vec<Vec<Vec<u32>>>) -> (count: Option<u64>)
    ensures
        match count {
            Some(c) => c == volume(sizes(tables(groups@))),
            None => volume(sizes(tables(groups@))) > u64::MAX,
        },
{
    let ghost extents = sizes(tables(groups@));
    let mut g: usize = 0;
    while g < groups.len()
        invariant
            g <= groups.len(),
            extents == sizes(tables(groups@)),
            forall|t: int| 0 <= t < g ==> extents[t] > 0,
        decreases groups.len() - g,
    {
        assert(extents[g as int] == groups[g as int].len());
        if groups[g].len() == 0 {
            proof {
                lemma_empty_group(extents, g as int, extents.len());
            }
            return Some(0);
        }
        g += 1;
    }
    let mut product: u64 = 1;
    let mut g: usize = 0;
    while g < groups.len()
        invariant
            g <= groups.len(),
            extents == sizes(tables(groups@)),
            forall|t: int| 0 <= t < extents.len() ==> extents[t] > 0,
            product == volume_upto(extents, g as nat),
        decreases groups.len() - g,
    {
        proof {
            assert(extents[g as int] == groups[g as int].len());
            lemma_volume_grows(extents, (g + 1) as nat, extents.len());
        }
        match product.checked_mul(groups[g].len() as u64) {
            Some(next) => {
                product = next;
            },
            None => {
                return None;
            },
        }
        g += 1;
    }
    Some(product)
}

/// With no empty group, the product of sizes does not shrink as groups are
/// added.
pub proof fn lemma_volume_grows(sizes: Seq<nat>, from: nat, upto: nat)
    requires
        from <= upto <= sizes.len(),
        forall|t: int| 0 <= t < sizes.len() ==> sizes[t] > 0,
    ensures
        1 <= volume_upto(sizes, from) <= volume_upto(sizes, upto),
    decreases upto, from,
{
    if upto > 0 {
        let below = (upto - 1) as nat;
        let v = volume_upto(sizes, below);
        let s = sizes[upto - 1] as int;
        if from < upto {
            lemma_volume_grows(sizes, from, below);
        } else {
            lemma_volume_grows(sizes, below, below);
        }
        assert(v * s >= v) by (nonlinear_arith)
            requires
                v >= 1,
                s >= 1,
        ;
    }
}

/// Three groups that offer `a`, `b` and `c` arrangements compose to
/// `a * b * c` candidates.
pub proof fn lemma_volume_of_three(a: nat, b: nat, c: nat)
    ensures
        volume(seq![a, b, c]) == a * b * c,
{
    let s = seq![a, b, c];
    reveal_with_fuel(volume_upto, 4);
    assert(volume_upto(s, 0) == 1);
    assert(volume_upto(s, 1) == 1 * a);
    assert(volume_upto(s, 2) == (1 * a) * b);
    assert(volume_upto(s, 3) == ((1 * a) * b) * c);
}

/// Where no group offers an arrangement twice, two different cursors name
/// two different compositions.
pub proof fn lemma_compositions_differ(lists: Seq<Seq<Seq<u32>>>, a: Seq<usize>, b: Seq<usize>)
    requires
        in_range(a, sizes(lists)),
        in_range(b, sizes(lists)),
        forall|g: int| 0 <= g < lists.len() ==> (#[trigger] lists[g]).no_duplicates(),
        a != b,
    ensures
        picked(lists, a) != picked(lists, b),
{
    if picked(lists, a) == picked(lists, b) {
        assert forall|g: int| 0 <= g < lists.len() implies a[g] == b[g] by {
            assert(a[g] < sizes(lists)[g]);
            assert(b[g] < sizes(lists)[g]);
            assert(picked(lists, a)[g] == lists[g][a[g] as int]);
            assert(picked(lists, b)[g] == lists[g][b[g] as int]);
            assert(lists[g].no_duplicates());
        }
        assert(a =~= b);
    }
}

} // verus!
