//! The order in which found words are listed: longer words first, words of one
//! length in dictionary order.

use vstd::prelude::*;

verus! {

/// `a` and `b` agree on their first `k` characters, and there `a` ends while
/// `b` goes on, or `a` has the smaller character.
pub open spec fn splits_at(a: Seq<char>, b: Seq<char>, k: int) -> bool {
    &&& 0 <= k <= a.len()
    &&& k < b.len()
    &&& a.take(k) == b.take(k)
    &&& (k == a.len() || a[k] < b[k])
}

/// `a` comes strictly before `b` in dictionary order.
pub open spec fn lex_less(a: Seq<char>, b: Seq<char>) -> bool {
    exists|k: int| splits_at(a, b, k)
}

/// `a` is listed strictly before `b`: it is longer, or as long and earlier in
/// dictionary order.
pub open spec fn ranks_before(a: Seq<char>, b: Seq<char>) -> bool {
    a.len() > b.len() || (a.len() == b.len() && lex_less(a, b))
}

/// `a` may stand directly before `b` in a listing: it is longer, or as long
/// and not later in dictionary order.
pub open spec fn in_order(a: Seq<char>, b: Seq<char>) -> bool {
    a.len() > b.len() || (a.len() == b.len() && (a == b || lex_less(a, b)))
}

/// Every word of `words` is listed strictly before all that follow it.
pub open spec fn is_ranked(words: Seq<Seq<char>>) -> bool {
    forall|i: int, j: int| 0 <= i < j < words.len() ==> ranks_before(words[i], words[j])
}

/// How two words stand to each other in the listing.
#[derive(Clone, Copy, Debug, PartialEq, Eq)]
pub enum Rank {
    Before,
    Same,
    After,
}

/// No word is listed before itself.
pub proof fn lemma_ranks_before_irreflexive(a: Seq<char>)
    ensures
        !ranks_before(a, a),
{
}

/// Of two words at most one is listed before the other.
pub proof fn lemma_ranks_before_asymmetric(a: Seq<char>, b: Seq<char>)
    requires
        ranks_before(a, b),
    ensures
        !ranks_before(b, a),
{
    if a.len() == b.len() {
        let k = choose|k: int| splits_at(a, b, k);
        assert forall|m: int| !splits_at(b, a, m) by {
            if splits_at(b, a, m) {
                if m < k {
                    assert(a.take(k)[m] == b.take(k)[m]);
                } else if k < m {
                    assert(a.take(m)[k] == b.take(m)[k]);
                }
            }
        }
    }
}

/// The listing order is transitive.
pub proof fn lemma_ranks_before_transitive(a: Seq<char>, b: Seq<char>, c: Seq<char>)
    requires
        ranks_before(a, b),
        ranks_before(b, c),
    ensures
        ranks_before(a, c),
{
    if a.len() == b.len() && b.len() == c.len() {
        let k1 = choose|k: int| splits_at(a, b, k);
        let k2 = choose|k: int| splits_at(b, c, k);
        let k = if k1 <= k2 { k1 } else { k2 };
        assert(a.take(k) == c.take(k)) by {
            assert forall|i: int| 0 <= i < k implies a[i] == c[i] by {
                assert(a.take(k1)[i] == b.take(k1)[i]);
                assert(b.take(k2)[i] == c.take(k2)[i]);
            }
        }
        if k1 < k2 {
            assert(b.take(k2)[k1] == c.take(k2)[k1]);
        } else if k2 < k1 {
            assert(a.take(k1)[k2] == b.take(k1)[k2]);
        }
        assert(splits_at(a, c, k));
    }
}

/// Two ranked listings of the same words are the same listing: what a ranked
/// listing holds decides where each word stands.
pub proof fn lemma_ranked_listing_is_unique(a: Seq<Seq<char>>, b: Seq<Seq<char>>)
    requires
        is_ranked(a),
        is_ranked(b),
        a.to_set() == b.to_set(),
    ensures
        a == b,
    decreases a.len(),
{
    if a.len() == 0 || b.len() == 0 {
        if a.len() > 0 {
            assert(a.to_set().contains(a[0]));
        }
        if b.len() > 0 {
            assert(b.to_set().contains(b[0]));
        }
    } else {
        assert(a.to_set().contains(a[0]) && b.to_set().contains(b[0]));
        let i = choose|i: int| 0 <= i < a.len() && a[i] == b[0];
        let j = choose|j: int| 0 <= j < b.len() && b[j] == a[0];
        if i > 0 && j > 0 {
            lemma_ranks_before_asymmetric(a[0], a[i]);
        }
        let rest_a = a.drop_first();
        let rest_b = b.drop_first();
        assert forall|x: Seq<char>| rest_a.to_set().contains(x) <==> rest_b.to_set().contains(
            x,
        ) by {
            lemma_ranked_rest(a, x);
            lemma_ranked_rest(b, x);
        }
        assert(rest_a.to_set() =~= rest_b.to_set());
        lemma_ranked_listing_is_unique(rest_a, rest_b);
        assert(a =~= seq![a[0]] + rest_a);
        assert(b =~= seq![b[0]] + rest_b);
    }
}

/// After the first word, a ranked listing holds what it holds but that word.
proof fn lemma_ranked_rest(a: Seq<Seq<char>>, x: Seq<char>)
    requires
        is_ranked(a),
        a.len() > 0,
    ensures
        is_ranked(a.drop_first()),
        a.drop_first().to_set().contains(x) <==> a.to_set().contains(x) && x != a[0],
{
    let rest = a.drop_first();
    assert forall|i: int, j: int| 0 <= i < j < rest.len() implies ranks_before(
        rest[i],
        rest[j],
    ) by {
        assert(ranks_before(a[i + 1], a[j + 1]));
    }
    if rest.contains(x) {
        let k = choose|k: int| 0 <= k < rest.len() && rest[k] == x;
        assert(ranks_before(a[0], a[k + 1]));
        lemma_ranks_before_irreflexive(x);
    }
    if a.contains(x) && x != a[0] {
        let k = choose|k: int| 0 <= k < a.len() && a[k] == x;
        assert(rest[k - 1] == x);
    }
}

/// Tells how `a` and `b` stand in the listing.
pub fn compare_words(a: &Vec<char>, b: &Vec<char>) -> (rank: Rank)
    ensures
        rank == Rank::Before <==> ranks_before(a@, b@),
        rank == Rank::Same <==> a@ == b@,
        rank == Rank::After <==> ranks_before(b@, a@),
{
    if a.len() > b.len() {
        proof {
            lemma_ranks_before_asymmetric(a@, b@);
        }
        return Rank::Before;
    }
    if a.len() < b.len() {
        proof {
            lemma_ranks_before_asymmetric(b@, a@);
        }
        return Rank::After;
    }
    let mut i: usize = 0;
    while i < a.len()
        invariant
            i <= a.len(),
            a.len() == b.len(),
            a@.take(i as int) == b@.take(i as int),
        decreases a.len() - i,
    {
        if a[i] < b[i] {
            proof {
                assert(splits_at(a@, b@, i as int));
                lemma_ranks_before_asymmetric(a@, b@);
            }
            return Rank::Before;
        }
        if a[i] > b[i] {
            proof {
                assert(splits_at(b@, a@, i as int));
                lemma_ranks_before_asymmetric(b@, a@);
            }
            return Rank::After;
        }
        i += 1;
    }
    proof {
        assert(a@.take(a@.len() as int) == a@);
        assert(b@.take(b@.len() as int) == b@);
        lemma_ranks_before_irreflexive(a@);
    }
    Rank::Same
}

} // verus!
