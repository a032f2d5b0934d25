//! Different compositions give different phrases.

use crate::composer::{
    all_known, group_phrases, in_range, join, lemma_compositions_differ, phrase_of, picked, sizes,
};
use crate::tokenizer::{all_assigned, words_for};
use vstd::prelude::*;

verus! {

/// No word holds a space.
pub open spec fn all_spaceless(words: Seq<Seq<char>>) -> bool {
    forall|i: int| 0 <= i < words.len() ==> !(#[trigger] words[i]).contains(' ')
}

/// The arrangements of all groups one after the other.
pub open spec fn flat(picks: Seq<Seq<u32>>) -> Seq<u32>
    decreases picks.len(),
{
    if picks.len() == 0 {
        Seq::empty()
    } else {
        flat(picks.drop_last()) + picks.last()
    }
}

/// Every arrangement has `k` tokens.
pub open spec fn all_of_length(picks: Seq<Seq<u32>>, k: nat) -> bool {
    forall|g: int| 0 <= g < picks.len() ==> (#[trigger] picks[g]).len() == k
}

/// Joining two lists of words one after the other puts one space between
/// their joins.
pub proof fn lemma_join_concat(a: Seq<Seq<char>>, b: Seq<Seq<char>>)
    requires
        a.len() >= 1,
        b.len() >= 1,
    ensures
        join(a + b) == join(a) + seq![' '] + join(b),
    decreases b.len(),
{
    let ab = a + b;
    assert(ab.last() == b.last());
    if b.len() == 1 {
        assert(ab.drop_last() =~= a);
        assert(join(b) == b[0]);
    } else {
        assert(ab.drop_last() =~= a + b.drop_last());
        lemma_join_concat(a, b.drop_last());
        assert(join(ab) =~= join(a) + seq![' '] + join(b));
    }
}

/// Lists of equally many words without spaces that join to the same text
/// are the same list.
pub proof fn lemma_join_injective(a: Seq<Seq<char>>, b: Seq<Seq<char>>)
    requires
        a.len() == b.len(),
        all_spaceless(a),
        all_spaceless(b),
        join(a) == join(b),
    ensures
        a == b,
    decreases a.len(),
{
    if a.len() == 0 {
        assert(a =~= b);
    } else if a.len() == 1 {
        assert(a[0] == b[0]);
        assert(a =~= b);
    } else {
        let x = join(a.drop_last());
        let y = join(b.drop_last());
        let u = a.last();
        let v = b.last();
        let s = join(a);
        assert(s == x + seq![' '] + u);
        assert(s == y + seq![' '] + v);
        assert(s.len() == x.len() + 1 + u.len());
        assert(s.len() == y.len() + 1 + v.len());
        assert(!u.contains(' ')) by {
            assert(u == a[a.len() - 1]);
        }
        assert(!v.contains(' ')) by {
            assert(v == b[b.len() - 1]);
        }
        if u.len() < v.len() {
            let at = x.len() as int;
            assert((x + seq![' '] + u)[at] == ' ');
            assert((y + seq![' '] + v)[at] == v[at - y.len() - 1]);
            assert(v.contains(' '));
        } else if v.len() < u.len() {
            let at = y.len() as int;
            assert((y + seq![' '] + v)[at] == ' ');
            assert((x + seq![' '] + u)[at] == u[at - x.len() - 1]);
            assert(u.contains(' '));
        }
        assert(x.len() == y.len());
        assert forall|i: int| 0 <= i < x.len() implies x[i] == y[i] by {
            assert((x + seq![' '] + u)[i] == x[i]);
            assert((y + seq![' '] + v)[i] == y[i]);
        }
        assert(x =~= y);
        assert forall|i: int| 0 <= i < u.len() implies u[i] == v[i] by {
            assert((x + seq![' '] + u)[x.len() + 1 + i] == u[i]);
            assert((y + seq![' '] + v)[y.len() + 1 + i] == v[i]);
        }
        assert(u =~= v);
        assert forall|i: int| 0 <= i < a.len() - 1 implies !(#[trigger] a.drop_last()[i]).contains(
            ' ',
        ) by {
            assert(a.drop_last()[i] == a[i]);
        }
        assert forall|i: int| 0 <= i < b.len() - 1 implies !(#[trigger] b.drop_last()[i]).contains(
            ' ',
        ) by {
            assert(b.drop_last()[i] == b[i]);
        }
        lemma_join_injective(a.drop_last(), b.drop_last());
        assert(a =~= a.drop_last().push(u));
        assert(b =~= b.drop_last().push(v));
    }
}

/// Different token sequences stand for different word sequences.
pub proof fn lemma_words_injective(known: Seq<Seq<char>>, a: Seq<u32>, b: Seq<u32>)
    requires
        known.no_duplicates(),
        all_assigned(known.len(), a),
        all_assigned(known.len(), b),
        words_for(known, a) == words_for(known, b),
    ensures
        a == b,
{
    assert(words_for(known, a).len() == a.len());
    assert(words_for(known, b).len() == b.len());
    assert forall|i: int| 0 <= i < a.len() implies a[i] == b[i] by {
        assert(words_for(known, a)[i] == known[a[i] - 1]);
        assert(words_for(known, b)[i] == known[b[i] - 1]);
        assert(1 <= a[i] <= known.len());
        assert(1 <= b[i] <= known.len());
    }
    assert(a =~= b);
}

/// What holds of `k` tokens per group holds of the groups one after the
/// other: their length, and that every token has been assigned.
pub proof fn lemma_flat(known: nat, picks: Seq<Seq<u32>>, k: nat)
    requires
        all_of_length(picks, k),
        forall|g: int| 0 <= g < picks.len() ==> all_assigned(known, #[trigger] picks[g]),
    ensures
        flat(picks).len() == picks.len() * k,
        all_assigned(known, flat(picks)),
    decreases picks.len(),
{
    if picks.len() > 0 {
        let front = picks.drop_last();
        assert forall|g: int| 0 <= g < front.len() implies (#[trigger] front[g]).len() == k
            && all_assigned(known, front[g]) by {
            assert(front[g] == picks[g]);
        }
        lemma_flat(known, front, k);
        assert(picks.last() == picks[picks.len() - 1]);
        assert((picks.len() - 1) * k + k == picks.len() * k) by (nonlinear_arith);
        assert forall|i: int| 0 <= i < flat(picks).len() implies 1 <= #[trigger] flat(picks)[i]
            <= known by {
            if i < flat(front).len() {
                assert(flat(picks)[i] == flat(front)[i]);
            } else {
                assert(flat(picks)[i] == picks.last()[i - flat(front).len()]);
            }
        }
    } else {
        assert(0 * k == 0);
    }
}

/// Compositions of equally long arrangements that are equal when written
/// one group after the other are equal group by group.
pub proof fn lemma_flat_injective(a: Seq<Seq<u32>>, b: Seq<Seq<u32>>, k: nat)
    requires
        a.len() == b.len(),
        all_of_length(a, k),
        all_of_length(b, k),
        flat(a) == flat(b),
    ensures
        a == b,
    decreases a.len(),
{
    if a.len() == 0 {
        assert(a =~= b);
    } else {
        let fa = flat(a.drop_last());
        let fb = flat(b.drop_last());
        let u = a.last();
        let v = b.last();
        assert(u == a[a.len() - 1]);
        assert(v == b[b.len() - 1]);
        assert((fa + u).len() == fa.len() + k);
        assert((fb + v).len() == fb.len() + k);
        assert forall|i: int| 0 <= i < fa.len() implies fa[i] == fb[i] by {
            assert((fa + u)[i] == fa[i]);
            assert((fb + v)[i] == fb[i]);
        }
        assert(fa =~= fb);
        assert forall|i: int| 0 <= i < k implies u[i] == v[i] by {
            assert((fa + u)[fa.len() + i] == u[i]);
            assert((fb + v)[fb.len() + i] == v[i]);
        }
        assert(u =~= v);
        assert forall|g: int| 0 <= g < a.len() - 1 implies (#[trigger] a.drop_last()[g]).len() == k
            && (#[trigger] b.drop_last()[g]).len() == k by {
            assert(a.drop_last()[g] == a[g]);
            assert(b.drop_last()[g] == b[g]);
        }
        lemma_flat_injective(a.drop_last(), b.drop_last(), k);
        assert(a =~= a.drop_last().push(u));
        assert(b =~= b.drop_last().push(v));
    }
}

/// The phrase of a composition of non-empty arrangements is the join of all
/// its words, group after group.
pub proof fn lemma_phrase_is_flat_join(known: Seq<Seq<char>>, picks: Seq<Seq<u32>>)
    requires
        forall|g: int| 0 <= g < picks.len() ==> (#[trigger] picks[g]).len() >= 1,
    ensures
        phrase_of(known, picks) == join(words_for(known, flat(picks))),
    decreases picks.len(),
{
    let parts = group_phrases(known, picks);
    if picks.len() == 0 {
        assert(words_for(known, flat(picks)) =~= Seq::<Seq<char>>::empty());
        assert(parts =~= Seq::<Seq<char>>::empty());
    } else if picks.len() == 1 {
        assert(flat(picks.drop_last()) =~= Seq::<u32>::empty());
        assert(flat(picks) =~= picks[0]);
        assert(parts[0] == join(words_for(known, picks[0])));
    } else {
        let front = picks.drop_last();
        let tail = picks.last();
        assert forall|g: int| 0 <= g < front.len() implies (#[trigger] front[g]).len() >= 1 by {
            assert(front[g] == picks[g]);
        }
        lemma_phrase_is_flat_join(known, front);
        assert(parts.drop_last() =~= group_phrases(known, front));
        assert(parts.last() == join(words_for(known, tail)));
        assert(tail == picks[picks.len() - 1]);
        assert(front.last() == picks[picks.len() - 2]);
        assert(flat(front).len() >= 1);
        assert(words_for(known, flat(front) + tail) =~= words_for(known, flat(front)) + words_for(
            known,
            tail,
        ));
        lemma_join_concat(words_for(known, flat(front)), words_for(known, tail));
    }
}

/// Each composition gives a phrase of its own: where the known words differ
/// from each other and hold no space, every arrangement has the same `k >= 1`
/// tokens, and no group offers an arrangement twice, two different cursors
/// name two different phrases.
pub proof fn lemma_phrases_differ(
    known: Seq<Seq<char>>,
    lists: Seq<Seq<Seq<u32>>>,
    k: nat,
    a: Seq<usize>,
    b: Seq<usize>,
)
    requires
        known.no_duplicates(),
        all_spaceless(known),
        all_known(known.len(), lists),
        k >= 1,
        forall|g: int| 0 <= g < lists.len() ==> all_of_length(#[trigger] lists[g], k),
        forall|g: int| 0 <= g < lists.len() ==> (#[trigger] lists[g]).no_duplicates(),
        in_range(a, sizes(lists)),
        in_range(b, sizes(lists)),
        a != b,
    ensures
        phrase_of(known, picked(lists, a)) != phrase_of(known, picked(lists, b)),
{
    let pa = picked(lists, a);
    let pb = picked(lists, b);
    lemma_compositions_differ(lists, a, b);
    assert forall|g: int| 0 <= g < lists.len() implies (#[trigger] pa[g]).len() == k && pb[g].len()
        == k && all_assigned(known.len(), pa[g]) && all_assigned(known.len(), pb[g]) by {
        assert(a[g] < sizes(lists)[g]);
        assert(b[g] < sizes(lists)[g]);
        assert(all_of_length(lists[g], k));
        assert(pa[g] == lists[g][a[g] as int]);
        assert(pb[g] == lists[g][b[g] as int]);
    }
    assert forall|g: int| 0 <= g < pb.len() implies (#[trigger] pb[g]).len() == k by {
        assert(pa[g].len() == k);
    }
    assert forall|g: int| 0 <= g < pb.len() implies all_assigned(known.len(), #[trigger] pb[g]) by {
        assert(pa[g].len() == k);
    }
    lemma_flat(known.len(), pa, k);
    lemma_flat(known.len(), pb, k);
    lemma_phrase_is_flat_join(known, pa);
    assert forall|g: int| 0 <= g < pb.len() implies (#[trigger] pb[g]).len() >= 1 by {
        assert(pa[g].len() == k);
    }
    lemma_phrase_is_flat_join(known, pb);
    let wa = words_for(known, flat(pa));
    let wb = words_for(known, flat(pb));
    if join(wa) == join(wb) {
        assert forall|i: int| 0 <= i < wa.len() implies !(#[trigger] wa[i]).contains(' ') by {
            assert(1 <= flat(pa)[i] <= known.len());
            assert(wa[i] == known[flat(pa)[i] - 1]);
        }
        assert forall|i: int| 0 <= i < wb.len() implies !(#[trigger] wb[i]).contains(' ') by {
            assert(1 <= flat(pb)[i] <= known.len());
            assert(wb[i] == known[flat(pb)[i] - 1]);
        }
        lemma_join_injective(wa, wb);
        lemma_words_injective(known, flat(pa), flat(pb));
        lemma_flat_injective(pa, pb, k);
    }
}

} // verus!
