//! Ordered arrangements of `k` tokens drawn from one group, and the filter
//! that keeps those which hold a required token.

use permutator::Combination;
use permutator::Permutation;
use vstd::prelude::*;

verus! {

/// The token sequences held by a list of vectors.
pub open spec fn rows(v: Seq<Vec<u32>>) -> Seq<Seq<u32>> {
    Seq::new(v.len(), |i: int| v[i]@)
}

/// The product `n * (n - 1) * ... * (n - k + 1)`: how many ordered
/// arrangements of `k` out of `n` places there are. It is 0 where `k > n`.
pub open spec fn falling(n: nat, k: nat) -> int
    decreases k,
{
    if k == 0 {
        1
    } else {
        falling(n, (k - 1) as nat) * (n - k + 1)
    }
}

/// The product `k * (k - 1) * ... * 1`.
pub open spec fn factorial(k: nat) -> int {
    falling(k, k)
}

/// The combinations that `permutator` enumerates for `k` out of `tokens`,
/// in the order in which its iterator yields them.
pub uninterp spec fn combinations_of(tokens: Seq<u32>, k: nat) -> Seq<Seq<u32>>;

/// The orderings that `permutator` enumerates for `chosen`, in the order in
/// which its iterator yields them.
pub uninterp spec fn permutations_of(chosen: Seq<u32>) -> Seq<Seq<u32>>;

/// Every token of `arrangement` occurs in `tokens`.
pub open spec fn drawn_from(arrangement: Seq<u32>, tokens: Seq<u32>) -> bool {
    forall|j: int| 0 <= j < arrangement.len() ==> tokens.contains(#[trigger] arrangement[j])
}

/// The two sequences hold the same tokens, each as often.
pub open spec fn same_tokens(a: Seq<u32>, b: Seq<u32>) -> bool {
    a.to_multiset() == b.to_multiset()
}

/// `arrangement` is an ordered sequence of `k` different tokens of the group.
pub open spec fn is_arrangement(arrangement: Seq<u32>, tokens: Seq<u32>, k: nat) -> bool {
    arrangement.len() == k && arrangement.no_duplicates() && drawn_from(arrangement, tokens)
}

/// `arrangement` holds the tokens of one of the first `upto` combinations.
pub open spec fn reorders_one(arrangement: Seq<u32>, combos: Seq<Seq<u32>>, upto: int) -> bool {
    exists|c: int| 0 <= c < upto && c < combos.len() && same_tokens(arrangement, #[trigger] combos[c])
}

/// `arrangement` is one of the first `upto` entries of `all`.
pub open spec fn among_first(arrangement: Seq<u32>, all: Seq<Seq<u32>>, upto: int) -> bool {
    exists|i: int| 0 <= i < upto && i < all.len() && #[trigger] all[i] == arrangement
}

/// No entry occurs twice.
pub open spec fn all_differ(all: Seq<Seq<u32>>) -> bool {
    forall|a: int, b: int| 0 <= a < b < all.len() ==> all[a] != all[b]
}

/// The two sequences have a token in common.
pub open spec fn shares_token(arrangement: Seq<u32>, required: Seq<u32>) -> bool {
    exists|i: int, j: int|
        0 <= i < arrangement.len() && 0 <= j < required.len() && arrangement[i] == required[j]
}

/// An arrangement passes a group's filter when nothing is required or when
/// it holds at least one required token.
pub open spec fn accepted(arrangement: Seq<u32>, required: Seq<u32>) -> bool {
    required.len() == 0 || shares_token(arrangement, required)
}

/// All orderings of each combination, the combinations taken in order.
pub open spec fn permute_each(combos: Seq<Seq<u32>>) -> Seq<Seq<u32>>
    decreases combos.len(),
{
    if combos.len() == 0 {
        Seq::empty()
    } else {
        permute_each(combos.drop_last()) + permutations_of(combos.last())
    }
}

/// Every ordered arrangement of `k` tokens of the group.
pub open spec fn arrangements_of(tokens: Seq<u32>, k: nat) -> Seq<Seq<u32>> {
    permute_each(combinations_of(tokens, k))
}

/// The accepted arrangements among `all`, in their order.
pub open spec fn retain_accepted(all: Seq<Seq<u32>>, required: Seq<u32>) -> Seq<Seq<u32>>
    decreases all.len(),
{
    if all.len() == 0 {
        Seq::empty()
    } else {
        let kept = retain_accepted(all.drop_last(), required);
        if accepted(all.last(), required) {
            kept.push(all.last())
        } else {
            kept
        }
    }
}

/// The arrangements of a group that pass its filter.
pub open spec fn candidates_of(tokens: Seq<u32>, k: nat, required: Seq<u32>) -> Seq<Seq<u32>> {
    retain_accepted(arrangements_of(tokens, k), required)
}

/// Calls `permutator`'s `Combination::combination` on the group and copies
/// each combination out of its references. The iterator walks through the
/// choices of `k` places of the group, each choice once, and yields the
/// tokens at the chosen places. Believed of it: the result is the enumeration
/// named `combinations_of`; each combination has `k` tokens, all taken from
/// the group; there are `n! / ((n - k)! k!)` of them, the length that the
/// iterator itself reports; where the group holds no token twice, no
/// combination holds a token twice and no two combinations hold the same
/// tokens; and any `k` different tokens of the group are the tokens of some
/// combination. The call panics where `k` is 0 or exceeds the group's size,
/// and computes `n! / (n - k)!` in a `usize`.
#[verifier::external_body]
fn combinations(tokens: &Vec<u32>, k: usize) -> (out: Vec<Vec<u32>>)
    requires
        1 <= k <= tokens.len(),
        falling(tokens.len() as nat, k as nat) <= usize::MAX,
    ensures
        rows(out@) == combinations_of(tokens@, k as nat),
        out.len() * factorial(k as nat) == falling(tokens.len() as nat, k as nat),
        forall|i: int|
            0 <= i < out.len() ==> (#[trigger] out[i]).len() == k && drawn_from(out[i]@, tokens@),
        tokens@.no_duplicates() ==> forall|i: int|
            0 <= i < out.len() ==> (#[trigger] out[i])@.no_duplicates(),
        tokens@.no_duplicates() ==> forall|i: int, j: int|
            0 <= i < j < out.len() ==> !same_tokens(#[trigger] out[i]@, #[trigger] out[j]@),
        forall|s: Seq<u32>| #[trigger]
            is_arrangement(s, tokens@, k as nat) ==> reorders_one(s, rows(out@), out.len() as int),
{
    let mut out: Vec<Vec<u32>> = Vec::new();
    for chosen in tokens.combination(k) {
        out.push(chosen.into_iter().copied().collect());
    }
    out
}

/// Calls `permutator`'s `Permutation::permutation` on a copy of `chosen`.
/// The iterator yields `chosen` itself and then what Heap's algorithm makes
/// of it by swaps, every ordering of the places once. Believed of it: the
/// result is the enumeration named `permutations_of`; it has `k!` entries for
/// `k` tokens; each entry holds the tokens of `chosen`, each as often as
/// `chosen` does; where `chosen` holds no token twice, no two entries are
/// equal; and every sequence that holds the tokens of `chosen`, each as
/// often, is an entry. It is called only where `k!` entries can be counted
/// in a `usize`.
#[verifier::external_body]
fn permutations(chosen: &Vec<u32>) -> (out: Vec<Vec<u32>>)
    requires
        factorial(chosen.len() as nat) <= usize::MAX,
    ensures
        rows(out@) == permutations_of(chosen@),
        out.len() == factorial(chosen.len() as nat),
        forall|i: int| 0 <= i < out.len() ==> same_tokens((#[trigger] out[i])@, chosen@),
        chosen@.no_duplicates() ==> forall|i: int, j: int|
            0 <= i < j < out.len() ==> (#[trigger] out[i])@ != (#[trigger] out[j])@,
        forall|s: Seq<u32>| #[trigger] same_tokens(s, chosen@) ==> rows(out@).contains(s),
{
    let mut data: Vec<u32> = chosen.clone();
    data.permutation().collect()
}

/// `falling(n, k)` is at least 1 and does not shrink as `k` grows up to `n`.
pub proof fn lemma_falling_grows(n: nat, j: nat, k: nat)
    requires
        j <= k <= n,
    ensures
        1 <= falling(n, j) <= falling(n, k),
    decreases k, j,
{
    if j == 0 {
        if k > 0 {
            lemma_falling_grows(n, 0, (k - 1) as nat);
            assert(falling(n, (k - 1) as nat) * (n - k + 1) >= falling(n, (k - 1) as nat))
                by (nonlinear_arith)
                requires
                    falling(n, (k - 1) as nat) >= 1,
                    n - k + 1 >= 1,
            ;
        }
    } else if j < k {
        lemma_falling_grows(n, j, (k - 1) as nat);
        assert(falling(n, (k - 1) as nat) * (n - k + 1) >= falling(n, (k - 1) as nat))
            by (nonlinear_arith)
            requires
                falling(n, (k - 1) as nat) >= 1,
                n - k + 1 >= 1,
        ;
    } else {
        lemma_falling_grows(n, 0, k);
    }
}

/// How many ordered arrangements of `k` out of `n` tokens there are, or
/// `None` where that number does not fit in a `usize`.
pub fn arrangement_count(n: usize, k: usize) -> (count: Option<usize>)
    ensures
        match count {
            Some(c) => c == falling(n as nat, k as nat),
            None => falling(n as nat, k as nat) > usize::MAX,
        },
{
    if k > n {
        proof {
            lemma_falling_zero(n as nat, k as nat);
        }
        return Some(0);
    }
    let mut product: usize = 1;
    let mut j: usize = 0;
    while j < k
        invariant
            j <= k <= n,
            product == falling(n as nat, j as nat),
        decreases k - j,
    {
        proof {
            lemma_falling_grows(n as nat, (j + 1) as nat, k as nat);
        }
        match product.checked_mul(n - j) {
            Some(next) => {
                product = next;
            },
            None => {
                return None;
            },
        }
        j += 1;
    }
    Some(product)
}

/// No arrangement draws more tokens than the group holds.
pub proof fn lemma_falling_zero(n: nat, k: nat)
    requires
        k > n,
    ensures
        falling(n, k) == 0,
    decreases k,
{
    if k == n + 1 {
        assert(falling(n, (k - 1) as nat) * 0 == 0);
    } else {
        lemma_falling_zero(n, (k - 1) as nat);
        assert(0 * (n - k + 1) == 0);
    }
}

/// Whether `arrangement` holds `token`.
fn holds(arrangement: &Vec<u32>, token: u32) -> (found: bool)
    ensures
        found == arrangement@.contains(token),
{
    let mut i: usize = 0;
    while i < arrangement.len()
        invariant
            i <= arrangement.len(),
            forall|t: int| 0 <= t < i ==> arrangement@[t] != token,
        decreases arrangement.len() - i,
    {
        if arrangement[i] == token {
            return true;
        }
        i += 1;
    }
    false
}

/// Whether an arrangement passes the filter of its group: nothing is
/// required, or the arrangement holds a required token.
pub fn is_accepted(arrangement: &Vec<u32>, required: &Vec<u32>) -> (pass: bool)
    ensures
        pass == accepted(arrangement@, required@),
{
    if required.len() == 0 {
        return true;
    }
    let mut j: usize = 0;
    while j < required.len()
        invariant
            j <= required.len(),
            forall|i: int, t: int|
                0 <= i < arrangement.len() && 0 <= t < j ==> arrangement@[i] != required@[t],
        decreases required.len() - j,
    {
        if holds(arrangement, required[j]) {
            let ghost i = arrangement@.index_of(required@[j as int]);
            assert(0 <= i < arrangement.len() && arrangement@[i] == required@[j as int]);
            return true;
        }
        j += 1;
    }
    false
}

/// A copy of a token sequence.
fn copy_tokens(tokens: &Vec<u32>) -> (out: Vec<u32>)
    ensures
        out@ == tokens@,
{
    let mut out: Vec<u32> = Vec::new();
    let mut i: usize = 0;
    while i < tokens.len()
        invariant
            i <= tokens.len(),
            out@ == tokens@.take(i as int),
        decreases tokens.len() - i,
    {
        out.push(tokens[i]);
        assert(tokens@.take(i + 1) =~= tokens@.take(i as int).push(tokens@[i as int]));
        i += 1;
    }
    assert(tokens@.take(tokens.len() as int) =~= tokens@);
    out
}

/// Every ordered arrangement of `k` tokens of the group: each combination
/// of `k` tokens in each of its orderings. There are `n (n - 1) ... (n - k + 1)`
/// of them, that is `n! / (n - k)!`. Where the group holds no token twice,
/// each is a sequence of `k` different tokens of the group and no two are
/// equal; and every sequence of `k` different tokens of the group is one of
/// them.
pub fn arrangements(tokens: &Vec<u32>, k: usize) -> (out: Vec<Vec<u32>>)
    requires
        1 <= k <= tokens.len(),
        falling(tokens.len() as nat, k as nat) <= usize::MAX,
    ensures
        rows(out@) == arrangements_of(tokens@, k as nat),
        out.len() == falling(tokens.len() as nat, k as nat),
        forall|i: int|
            0 <= i < out.len() ==> (#[trigger] out[i]).len() == k && drawn_from(out[i]@, tokens@),
        tokens@.no_duplicates() ==> rows(out@).no_duplicates(),
        tokens@.no_duplicates() ==> forall|i: int|
            0 <= i < out.len() ==> is_arrangement((#[trigger] out[i])@, tokens@, k as nat),
        forall|s: Seq<u32>| #[trigger] is_arrangement(s, tokens@, k as nat) ==> rows(out@).contains(s),
{
    let combos = combinations(tokens, k);
    let mut out: Vec<Vec<u32>> = Vec::new();
    let ghost named = rows(combos@);
    let mut c: usize = 0;
    while c < combos.len()
        invariant
            c <= combos.len(),
            named == rows(combos@),
            rows(out@) == permute_each(named.take(c as int)),
            out.len() == c * factorial(k as nat),
            combos.len() * factorial(k as nat) == falling(tokens.len() as nat, k as nat),
            falling(tokens.len() as nat, k as nat) <= usize::MAX,
            forall|i: int|
                0 <= i < combos.len() ==> (#[trigger] combos[i]).len() == k && drawn_from(
                    combos[i]@,
                    tokens@,
                ),
            tokens@.no_duplicates() ==> forall|i: int|
                0 <= i < combos.len() ==> (#[trigger] combos[i])@.no_duplicates(),
            tokens@.no_duplicates() ==> forall|i: int, j: int|
                0 <= i < j < combos.len() ==> !same_tokens(
                    #[trigger] combos[i]@,
                    #[trigger] combos[j]@,
                ),
            forall|i: int|
                0 <= i < out.len() ==> (#[trigger] out[i]).len() == k && drawn_from(
                    out[i]@,
                    tokens@,
                ),
            forall|a: int| 0 <= a < out.len() ==> reorders_one((#[trigger] out[a])@, named, c as int),
            tokens@.no_duplicates() ==> all_differ(rows(out@)),
            forall|s: Seq<u32>| #[trigger]
                reorders_one(s, named, c as int) ==> rows(out@).contains(s),
        decreases combos.len() - c,
    {
        proof {
            lemma_falling_grows(k as nat, 0, k as nat);
            assert(factorial(k as nat) <= falling(tokens.len() as nat, k as nat))
                by (nonlinear_arith)
                requires
                    combos.len() * factorial(k as nat) == falling(tokens.len() as nat, k as nat),
                    combos.len() >= 1,
                    factorial(k as nat) >= 1,
            ;
        }
        let mut orderings = permutations(&combos[c]);
        let ghost before = out@;
        let ghost fresh = orderings@;
        let ghost chosen = combos[c as int]@;
        proof {
            assert(named.take(c + 1).drop_last() =~= named.take(c as int));
            assert(named.take(c + 1).last() == chosen);
            assert(rows(before + fresh) =~= rows(before) + rows(fresh));
            assert((c + 1) * factorial(k as nat) == c * factorial(k as nat) + factorial(k as nat))
                by (nonlinear_arith);
            assert forall|i: int| 0 <= i < fresh.len() implies (#[trigger] fresh[i]).len() == k
                && drawn_from(fresh[i]@, tokens@) by {
                lemma_same_tokens(fresh[i]@, chosen);
                assert forall|j: int| 0 <= j < fresh[i]@.len() implies tokens@.contains(
                    #[trigger] fresh[i]@[j],
                ) by {
                    let t = fresh[i]@[j];
                    assert(fresh[i]@.contains(t));
                    assert(chosen.contains(t));
                    let p = chosen.index_of(t);
                    assert(tokens@.contains(chosen[p]));
                }
            }
        }
        out.append(&mut orderings);
        proof {
            let now = out@;
            let split = before.len() as int;
            assert(now =~= before + fresh);
            assert forall|a: int| 0 <= a < now.len() implies reorders_one(
                (#[trigger] now[a])@,
                named,
                c + 1,
            ) by {
                if a < split {
                    assert(reorders_one(before[a]@, named, c as int));
                    let w = choose|w: int|
                        0 <= w < c && w < named.len() && same_tokens(
                            before[a]@,
                            #[trigger] named[w],
                        );
                    assert(same_tokens(now[a]@, named[w]));
                } else {
                    assert(now[a] == fresh[a - split]);
                    assert(same_tokens(fresh[a - split]@, named[c as int]));
                }
            }
            if tokens@.no_duplicates() {
                assert forall|a: int, b: int| 0 <= a < b < now.len() implies rows(now)[a] != rows(
                    now,
                )[b] by {
                    if b < split {
                        assert(rows(before)[a] != rows(before)[b]);
                    } else if a >= split {
                        assert(chosen.no_duplicates());
                        assert(fresh[a - split]@ != fresh[b - split]@);
                    } else {
                        assert(reorders_one(before[a]@, named, c as int));
                        let w = choose|w: int|
                            0 <= w < c && w < named.len() && same_tokens(
                                before[a]@,
                                #[trigger] named[w],
                            );
                        assert(same_tokens(fresh[b - split]@, chosen));
                        assert(!same_tokens(combos[w]@, combos[c as int]@));
                    }
                }
            }
            assert forall|s: Seq<u32>| #[trigger] reorders_one(s, named, c + 1) implies rows(
                now,
            ).contains(s) by {
                let w = choose|w: int|
                    0 <= w < c + 1 && w < named.len() && same_tokens(s, #[trigger] named[w]);
                if w < c {
                    assert(reorders_one(s, named, c as int));
                    let a = rows(before).index_of(s);
                    assert(rows(now)[a] == s);
                } else {
                    assert(same_tokens(s, chosen));
                    let p = rows(fresh).index_of(s);
                    assert(rows(now)[split + p] == s);
                }
            }
        }
        c += 1;
    }
    proof {
        assert(named.take(combos.len() as int) =~= named);
        if tokens@.no_duplicates() {
            lemma_all_differ(rows(out@));
            assert forall|i: int| 0 <= i < out.len() implies is_arrangement(
                (#[trigger] out[i])@,
                tokens@,
                k as nat,
            ) by {
                assert(reorders_one(out[i]@, named, combos.len() as int));
                let w = choose|w: int|
                    0 <= w < combos.len() && w < named.len() && same_tokens(
                        out[i]@,
                        #[trigger] named[w],
                    );
                assert(combos[w]@.no_duplicates());
                lemma_same_tokens(out[i]@, named[w]);
            }
        }
    }
    out
}

/// Two sequences with the same tokens, each as often, have the same length
/// and hold the same tokens.
pub proof fn lemma_same_tokens(a: Seq<u32>, b: Seq<u32>)
    requires
        same_tokens(a, b),
    ensures
        a.len() == b.len(),
        forall|t: u32| a.contains(t) <==> b.contains(t),
        b.no_duplicates() ==> a.no_duplicates(),
{
    if b.no_duplicates() {
        b.lemma_multiset_has_no_duplicates();
        a.lemma_multiset_has_no_duplicates_conv();
    }
    broadcast use vstd::seq_lib::to_multiset_len, vstd::seq_lib::to_multiset_contains;
    assert(a.to_multiset().len() == a.len());
    assert(b.to_multiset().len() == b.len());
    assert forall|t: u32| a.contains(t) <==> b.contains(t) by {
        assert(a.contains(t) <==> a.to_multiset().count(t) > 0);
        assert(b.contains(t) <==> b.to_multiset().count(t) > 0);
    }
}

/// The arrangements of a group that reach composition: every ordered
/// arrangement of `k` of its tokens, but for those that hold none of the
/// required tokens where any are required. Each accepted arrangement of `k`
/// different tokens of the group is among them, and, where the group holds
/// no token twice, exactly once.
pub fn group_candidates(tokens: &Vec<u32>, k: usize, required: &Vec<u32>) -> (out: Vec<Vec<u32>>)
    requires
        1 <= k <= tokens.len(),
        falling(tokens.len() as nat, k as nat) <= usize::MAX,
    ensures
        rows(out@) == candidates_of(tokens@, k as nat, required@),
        out.len() <= falling(tokens.len() as nat, k as nat),
        required.len() == 0 ==> rows(out@) == arrangements_of(tokens@, k as nat),
        forall|i: int|
            0 <= i < out.len() ==> accepted((#[trigger] out[i])@, required@) && out[i].len() == k
                && drawn_from(out[i]@, tokens@),
        tokens@.no_duplicates() ==> rows(out@).no_duplicates(),
        tokens@.no_duplicates() ==> forall|i: int|
            0 <= i < out.len() ==> is_arrangement((#[trigger] out[i])@, tokens@, k as nat),
        forall|s: Seq<u32>| #[trigger]
            is_arrangement(s, tokens@, k as nat) && accepted(s, required@) ==> rows(out@).contains(
                s,
            ),
{
    let all = arrangements(tokens, k);
    let mut out: Vec<Vec<u32>> = Vec::new();
    let ghost named = rows(all@);
    let mut i: usize = 0;
    while i < all.len()
        invariant
            i <= all.len(),
            named == rows(all@),
            rows(out@) == retain_accepted(named.take(i as int), required@),
            out.len() <= i,
            required.len() == 0 ==> rows(out@) == named.take(i as int),
            forall|t: int|
                0 <= t < all.len() ==> (#[trigger] all[t]).len() == k && drawn_from(
                    all[t]@,
                    tokens@,
                ),
            tokens@.no_duplicates() ==> named.no_duplicates(),
            tokens@.no_duplicates() ==> forall|t: int|
                0 <= t < all.len() ==> is_arrangement((#[trigger] all[t])@, tokens@, k as nat),
            forall|t: int|
                0 <= t < out.len() ==> accepted((#[trigger] out[t])@, required@) && out[t].len()
                    == k && drawn_from(out[t]@, tokens@),
            forall|t: int| 0 <= t < out.len() ==> among_first((#[trigger] out[t])@, named, i as int),
            tokens@.no_duplicates() ==> all_differ(rows(out@)),
        decreases all.len() - i,
    {
        proof {
            assert(named.take(i + 1).drop_last() =~= named.take(i as int));
            assert(named.take(i + 1).last() == all[i as int]@);
        }
        let ghost before = out@;
        if is_accepted(&all[i], required) {
            let kept = copy_tokens(&all[i]);
            out.push(kept);
            proof {
                assert(rows(out@) =~= rows(before).push(all[i as int]@));
                assert(named.take(i + 1) =~= named.take(i as int).push(all[i as int]@));
                assert(named[i as int] == all[i as int]@);
                if tokens@.no_duplicates() {
                    assert forall|a: int, b: int| 0 <= a < b < out.len() implies rows(out@)[a]
                        != rows(out@)[b] by {
                        if b < before.len() {
                            assert(rows(before)[a] != rows(before)[b]);
                        } else {
                            assert(among_first(before[a]@, named, i as int));
                            let w = choose|w: int|
                                0 <= w < i && w < named.len() && #[trigger] named[w] == before[a]@;
                            assert(named[w] != named[i as int]);
                        }
                    }
                }
            }
        }
        proof {
            assert forall|t: int| 0 <= t < out.len() implies among_first(
                (#[trigger] out[t])@,
                named,
                i + 1,
            ) by {
                if t < before.len() {
                    assert(among_first(before[t]@, named, i as int));
                    let w = choose|w: int|
                        0 <= w < i && w < named.len() && #[trigger] named[w] == before[t]@;
                    assert(named[w] == out[t]@);
                } else {
                    assert(named[i as int] == out[t]@);
                }
            }
        }
        i += 1;
    }
    proof {
        assert(named.take(all.len() as int) =~= named);
        assert forall|s: Seq<u32>| #[trigger]
            is_arrangement(s, tokens@, k as nat) && accepted(s, required@) implies rows(
            out@,
        ).contains(s) by {
            lemma_accepted_is_kept(named, required@, s);
        }
        if tokens@.no_duplicates() {
            lemma_all_differ(rows(out@));
            assert forall|t: int| 0 <= t < out.len() implies is_arrangement(
                (#[trigger] out[t])@,
                tokens@,
                k as nat,
            ) by {
                assert(among_first(out[t]@, named, all.len() as int));
                let w = choose|w: int|
                    0 <= w < all.len() && w < named.len() && #[trigger] named[w] == out[t]@;
                assert(is_arrangement(all[w]@, tokens@, k as nat));
            }
        }
    }
    out
}

/// The product for `k` out of `n` starts with `n` and goes on as the product
/// for `k - 1` out of `n - 1`.
pub proof fn lemma_falling_head(n: nat, k: nat)
    requires
        1 <= k <= n,
    ensures
        falling(n, k) == n * falling((n - 1) as nat, (k - 1) as nat),
    decreases k,
{
    if k == 1 {
        assert(falling(n, 0) == 1);
        assert(falling((n - 1) as nat, 0) == 1);
    } else {
        lemma_falling_head(n, (k - 1) as nat);
        let rest = falling((n - 1) as nat, (k - 2) as nat);
        assert(falling((n - 1) as nat, (k - 1) as nat) == rest * (n - k + 1));
        assert((n * rest) * (n - k + 1) == n * (rest * (n - k + 1))) by (nonlinear_arith);
    }
}

/// The number of arrangements of `k` out of `n` tokens is `n! / (n - k)!`:
/// multiplied by `(n - k)!` it gives `n!`.
pub proof fn lemma_falling_is_quotient(n: nat, k: nat)
    requires
        k <= n,
    ensures
        falling(n, k) * factorial((n - k) as nat) == factorial(n),
    decreases k,
{
    if k == 0 {
        assert(falling(n, 0) == 1);
    } else {
        lemma_falling_is_quotient(n, (k - 1) as nat);
        let m = (n - k + 1) as nat;
        lemma_falling_head(m, m);
        let shorter = falling(n, (k - 1) as nat);
        let tail = factorial((n - k) as nat);
        assert(factorial(m) == m * tail);
        assert((shorter * m) * tail == shorter * (m * tail)) by (nonlinear_arith);
    }
}

/// A list in which no entry equals a later one has no duplicates.
pub proof fn lemma_all_differ(all: Seq<Seq<u32>>)
    requires
        all_differ(all),
    ensures
        all.no_duplicates(),
{
    assert forall|i: int, j: int| 0 <= i < all.len() && 0 <= j < all.len() && i != j implies all[i]
        != all[j] by {
        if i < j {
            assert(all[i] != all[j]);
        } else {
            assert(all[j] != all[i]);
        }
    }
}

/// The filter is total: where tokens are required, an arrangement that holds
/// none of them is not among those kept, whatever it was filtered from.
pub proof fn lemma_pruned_is_absent(all: Seq<Seq<u32>>, required: Seq<u32>, arrangement: Seq<u32>)
    requires
        required.len() > 0,
        !shares_token(arrangement, required),
    ensures
        !retain_accepted(all, required).contains(arrangement),
    decreases all.len(),
{
    if all.len() > 0 {
        lemma_pruned_is_absent(all.drop_last(), required, arrangement);
        let kept = retain_accepted(all.drop_last(), required);
        if accepted(all.last(), required) {
            assert forall|i: int| 0 <= i < kept.push(all.last()).len() implies kept.push(
                all.last(),
            )[i] != arrangement by {
                if i < kept.len() {
                    assert(kept.contains(kept[i]));
                }
            }
        }
    }
}

/// The filter drops nothing else: an accepted arrangement among `all` is
/// among those kept.
pub proof fn lemma_accepted_is_kept(all: Seq<Seq<u32>>, required: Seq<u32>, arrangement: Seq<u32>)
    requires
        all.contains(arrangement),
        accepted(arrangement, required),
    ensures
        retain_accepted(all, required).contains(arrangement),
    decreases all.len(),
{
    let i = all.index_of(arrangement);
    let kept = retain_accepted(all.drop_last(), required);
    if i == all.len() - 1 {
        assert(kept.push(all.last())[kept.len() as int] == arrangement);
    } else {
        assert(all.drop_last()[i] == arrangement);
        lemma_accepted_is_kept(all.drop_last(), required, arrangement);
        let j = kept.index_of(arrangement);
        if accepted(all.last(), required) {
            assert(kept.push(all.last())[j] == arrangement);
        }
    }
}

} // verus!
