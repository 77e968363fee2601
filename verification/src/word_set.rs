//! The set of words found so far.

use crate::order::{compare_words, is_ranked, lemma_ranks_before_transitive, ranks_before, Rank};
use vstd::prelude::*;

verus! {

/// The words that the vectors hold, in the same order.
pub open spec fn views(items: Seq<Vec<char>>) -> Seq<Seq<char>> {
    items.map_values(|item: Vec<char>| item@)
}

/// A set of words in which each word is kept once.
pub struct WordSet {
    items: Vec<Vec<char>>,
}

impl View for WordSet {
    type V = Set<Seq<char>>;

    /// The words that the set holds.
    closed spec fn view(&self) -> Set<Seq<char>> {
        views(self.items@).to_set()
    }
}

impl WordSet {
    /// No word is kept twice.
    pub closed spec fn wf(&self) -> bool {
        views(self.items@).no_duplicates()
    }

    /// A set that holds no word.
    pub fn new() -> (set: WordSet)
        ensures
            set.wf(),
            set@ == Set::<Seq<char>>::empty(),
    {
        let set = WordSet { items: Vec::new() };
        set
    }

    /// Adds `word`, unless the set holds it already.
    pub fn insert(&mut self, word: &Vec<char>)
        requires
            old(self).wf(),
        ensures
            final(self).wf(),
            final(self)@ == old(self)@.insert(word@),
    {
        let mut i: usize = 0;
        while i < self.items.len()
            invariant
                i <= self.items.len(),
                *self == *old(self),
                self.wf(),
                forall|k: int| 0 <= k < i ==> views(self.items@)[k] != word@,
            decreases self.items.len() - i,
        {
            match compare_words(&self.items[i], word) {
                Rank::Same => {
                    proof {
                        assert(views(self.items@)[i as int] == word@);
                    }
                    return ;
                },
                _ => {
                    i += 1;
                },
            }
        }
        let ghost before = views(self.items@);
        let copy = word.clone();
        assert(copy@ == word@);
        self.items.push(copy);
        proof {
            assert(views(self.items@) =~= before.push(word@));
            before.lemma_push_to_set_commute(word@);
        }
    }

    /// The words of the set, each once, longest first and words of one length
    /// in dictionary order.
    pub fn into_sorted(self) -> (out: Vec<Vec<char>>)
        requires
            self.wf(),
        ensures
            is_ranked(views(out@)),
            views(out@).to_set() == self@,
    {
        let mut rest = self.items;
        let mut out: Vec<Vec<char>> = Vec::new();
        while rest.len() > 0
            invariant
                views(rest@).no_duplicates(),
                is_ranked(views(out@)),
                views(out@).to_set().disjoint(views(rest@).to_set()),
                views(out@).to_set() + views(rest@).to_set() == self@,
            decreases rest.len(),
        {
            let ghost rest_before = views(rest@);
            let ghost out_before = views(out@);
            let word = rest.pop().unwrap();
            proof {
                assert(views(rest@) =~= rest_before.drop_last());
                lemma_drop_last_to_set(rest_before);
            }
            insert_ranked(&mut out, word);
            assert(views(out@).to_set() + views(rest@).to_set() =~= out_before.to_set()
                + rest_before.to_set());
        }
        out
    }
}

/// Puts `word` into the listing at its place.
fn insert_ranked(out: &mut Vec<Vec<char>>, word: Vec<char>)
    requires
        is_ranked(views(old(out)@)),
        !views(old(out)@).contains(word@),
    ensures
        is_ranked(views(final(out)@)),
        views(final(out)@).to_set() == views(old(out)@).to_set().insert(word@),
{
    let ghost before = views(out@);
    let mut at: usize = 0;
    while at < out.len()
        invariant_except_break
            at <= out.len(),
        invariant
            before == views(out@),
            !before.contains(word@),
            forall|k: int| 0 <= k < at ==> ranks_before(before[k], word@),
        ensures
            at <= out.len(),
            at < out.len() ==> ranks_before(word@, before[at as int]),
        decreases out.len() - at,
    {
        match compare_words(&out[at], &word) {
            Rank::Before => {
                at += 1;
            },
            _ => {
                break ;
            },
        }
    }
    out.insert(at, word);
    proof {
        let place = at as int;
        assert(views(out@) =~= before.insert(place, word@));
        lemma_insert_to_set(before, place, word@);
        assert forall|i: int, j: int| 0 <= i < j < views(out@).len() implies ranks_before(
            views(out@)[i],
            views(out@)[j],
        ) by {
            if i == place && j > place + 1 {
                lemma_ranks_before_transitive(word@, before[place], before[j - 1]);
            }
        }
    }
}

/// A sequence with one more element holds that element and what it held.
proof fn lemma_insert_to_set(s: Seq<Seq<char>>, at: int, w: Seq<char>)
    requires
        0 <= at <= s.len(),
    ensures
        s.insert(at, w).to_set() == s.to_set().insert(w),
{
    let longer = s.insert(at, w);
    assert forall|x: Seq<char>| longer.to_set().contains(x) <==> s.to_set().insert(w).contains(
        x,
    ) by {
        if s.contains(x) {
            let k = choose|k: int| 0 <= k < s.len() && s[k] == x;
            if k < at {
                assert(longer[k] == x);
            } else {
                assert(longer[k + 1] == x);
            }
        }
        if x == w {
            assert(longer[at] == x);
        }
        if longer.contains(x) {
            let k = choose|k: int| 0 <= k < longer.len() && longer[k] == x;
            if k < at {
                assert(s[k] == x);
            } else if k > at {
                assert(s[k - 1] == x);
            }
        }
    }
}

/// A sequence without repeats, shorter by its last element, holds what it
/// held but that element.
proof fn lemma_drop_last_to_set(s: Seq<Seq<char>>)
    requires
        s.len() > 0,
        s.no_duplicates(),
    ensures
        s.drop_last().no_duplicates(),
        s.drop_last().to_set() == s.to_set().remove(s.last()),
{
    let shorter = s.drop_last();
    assert forall|x: Seq<char>| shorter.to_set().contains(x) <==> s.to_set().remove(
        s.last(),
    ).contains(x) by {
        if s.contains(x) && x != s.last() {
            let k = choose|k: int| 0 <= k < s.len() && s[k] == x;
            assert(shorter[k] == x);
        }
        if shorter.contains(x) {
            let k = choose|k: int| 0 <= k < shorter.len() && shorter[k] == x;
            assert(s[k] == x && s[k] != s[s.len() - 1]);
        }
    }
}

} // verus!
