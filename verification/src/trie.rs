//! A prefix trie over characters.
//!
//! Each node keeps its children in a hash map keyed by the next character and
//! hashed with `fxhash`. The trie is specified as the set of words that its
//! root accepts; a node is specified by what it accepts from there on.

use crate::text::texts;
use fxhash::{FxHashMap, FxHasher};
use std::collections::hash_map::Entry;
use std::collections::HashMap;
use std::hash::BuildHasherDefault;
use vstd::prelude::*;
use vstd::std_specs::hash::EntrySpecFns;

verus! {

/// `fxhash::FxHasher`, the hasher of the children maps. Nothing is said of
/// what is inside it.
#[verifier::external_type_specification]
#[verifier::external_body]
pub struct ExFxHasher(FxHasher);

/// `std::hash::BuildHasherDefault`, which makes each hasher of a map by
/// `H::default()`. Nothing is said of what is inside it.
#[verifier::external_type_specification]
#[verifier::external_body]
#[verifier::reject_recursive_types(H)]
pub struct ExBuildHasherDefault<H>(BuildHasherDefault<H>);

/// One node of the trie: the prefix spelled by the path from the root to it.
pub struct TrieNode {
    is_end_of_word: bool,
    children: FxHashMap<char, TrieNode>,
}

/// A set of words, stored as a tree of shared prefixes.
pub struct Trie {
    root: TrieNode,
}

impl TrieNode {
    /// A node that closes no word and has no children.
    pub closed spec fn is_blank(&self) -> bool {
        !self.is_end_of_word && self.children@ == Map::<char, TrieNode>::empty()
    }

    /// Whether the prefix that ends at this node is itself a word.
    pub closed spec fn terminal(&self) -> bool {
        self.is_end_of_word
    }

    /// The node reached from this one by the character `c`, if the trie holds
    /// a word that goes on with `c` here.
    pub closed spec fn step(&self, c: char) -> Option<TrieNode> {
        if self.children@.contains_key(c) {
            Some(self.children@[c])
        } else {
            None
        }
    }

    /// Whether the characters of `w`, followed down from this node, end at a
    /// node that closes a word.
    pub open spec fn accepts(&self, w: Seq<char>) -> bool
        decreases w.len(),
    {
        if w.len() == 0 {
            self.terminal()
        } else {
            match self.step(w[0]) {
                Some(next) => next.accepts(w.drop_first()),
                None => false,
            }
        }
    }

    /// Whether the prefix that ends at this node is itself a word.
    pub fn is_terminal(&self) -> (terminal: bool)
        ensures
            terminal == self.terminal(),
    {
        self.is_end_of_word
    }

    /// The node one character further down, or `None` where no word of the
    /// trie goes on with `c`.
    pub fn child(&self, c: char) -> (next: Option<&TrieNode>)
        ensures
            match next {
                Some(node) => self.step(c) == Some(*node),
                None => self.step(c) is None,
            },
    {
        get_child(&self.children, c)
    }
}

impl Default for TrieNode {
    fn default() -> (node: Self)
        ensures
            node.is_blank(),
    {
        TrieNode { is_end_of_word: false, children: HashMap::default() }
    }
}

/// `HashMap::get` of std, on a map of `char` keys hashed by
/// `fxhash::FxHasher`: "a reference to the value corresponding to the key".
/// vstd states what `get` returns only for the keys and hashers that it
/// knows, and this pair is not among them. Claimed here: the call returns the
/// value kept under `c`, and `None` exactly where the map has no such key.
/// That rests on `FxHasher::default()` starting every hasher from the same
/// state and on its writes depending on nothing but that state and the bytes
/// written, so that equal characters hash alike.
#[verifier::external_body]
fn get_child<'a>(children: &'a FxHashMap<char, TrieNode>, c: char) -> (found: Option<&'a TrieNode>)
    ensures
        match found {
            Some(node) => children@.contains_key(c) && children@[c] == *node,
            None => !children@.contains_key(c),
        },
{
    children.get(&c)
}

/// `HashMap::entry` of std, on a map of `char` keys hashed by
/// `fxhash::FxHasher`: "the given key's corresponding entry in the map for
/// in-place manipulation". Claimed here, clause by clause as vstd claims it
/// for the keys and hashers that it knows:
/// - the entry is that of the key `c`;
/// - it is occupied by what the map keeps under `c` at the call, and vacant
///   where the map has no such key;
/// - once the entry is let go, the map is the map of the call except under
///   `c`, where it keeps what the entry holds at last, and nothing where the
///   entry is vacant at last.
#[verifier::external_body]
fn entry_of<'a>(children: &'a mut FxHashMap<char, TrieNode>, c: char) -> (entry: Entry<
    'a,
    char,
    TrieNode,
>)
    ensures
        entry.spec_key() == c,
        entry.value() == old(children)@.get(c),
        final(children)@ == (match entry.final_value() {
            Some(node) => old(children)@.insert(c, node),
            None => old(children)@.remove(c),
        }),
{
    children.entry(c)
}

impl View for Trie {
    type V = Set<Seq<char>>;

    /// The words that the trie holds: those that its root accepts.
    open spec fn view(&self) -> Set<Seq<char>> {
        Set::new(|w: Seq<char>| self.root_node().accepts(w))
    }
}

impl Trie {
    /// The node of the empty prefix.
    pub closed spec fn root_node(&self) -> TrieNode {
        self.root
    }

    /// A trie that holds no word.
    pub fn new() -> (trie: Self)
        ensures
            trie@ == Set::<Seq<char>>::empty(),
    {
        let trie = Trie { root: TrieNode::default() };
        proof {
            assert forall|w: Seq<char>| !trie.root.accepts(w) by {
                lemma_blank_accepts_nothing(trie.root, w);
            }
            assert(trie@ =~= Set::<Seq<char>>::empty());
        }
        trie
    }

    /// The trie that holds the words of the list, and no others.
    pub fn from_words(words: &Vec<String>) -> (trie: Self)
        ensures
            trie@ == texts(words@).to_set(),
    {
        let mut trie = Trie::new();
        let mut i: usize = 0;
        while i < words.len()
            invariant
                i <= words.len(),
                trie@ == texts(words@).take(i as int).to_set(),
            decreases words.len() - i,
        {
            trie.insert(words[i].as_str());
            proof {
                let listed = texts(words@);
                assert(listed.take(i + 1) == listed.take(i as int).push(words[i as int]@));
                listed.take(i as int).lemma_push_to_set_commute(words[i as int]@);
            }
            i += 1;
        }
        assert(texts(words@).take(words.len() as int) == texts(words@));
        trie
    }

    /// The node of the empty prefix, from which a search walks down.
    pub fn root(&self) -> (node: &TrieNode)
        ensures
            *node == self.root_node(),
    {
        &self.root
    }

    /// Adds `word` to the trie. Every other word stays in or out as it was.
    pub fn insert(&mut self, word: &str)
        ensures
            final(self)@ == old(self)@.insert(word@),
    {
        let ghost before = self.root;
        let mut node = &mut self.root;
        proof {
            assert forall|w: Seq<char>| word@.take(0) + w == w by {
                assert(word@.take(0) + w =~= w);
            }
            assert forall|w: Seq<char>| w.skip(0) == w by {
                assert(w.skip(0) =~= w);
            }
        }
        for c in it: word.chars()
            invariant
                it.seq() == word@,
                hangs_at(before, word@.take(it.index()), *node),
                grafted(before, word@.take(it.index()), *final(node), after_borrow(self.root)),
        {
            let ghost prefix = word@.take(it.index());
            let ghost parent_now = *node;
            let ghost parent_final = *final(node);
            node = entry_of(&mut node.children, c).or_insert(TrieNode::default());
            proof {
                assert(prefix.push(c) == word@.take(it.index() + 1));
                lemma_descend(before, prefix, parent_now, c, *node);
                lemma_regraft(
                    before,
                    prefix,
                    parent_now,
                    parent_final,
                    c,
                    *final(node),
                    after_borrow(self.root),
                );
            }
        }
        let ghost last_now = *node;
        node.is_end_of_word = true;
        proof {
            assert(word@.take(word@.len() as int) == word@);
            lemma_close(before, word@, last_now, *node, self.root);
        }
    }

    /// Whether the trie holds `word` as a whole word.
    pub fn contains(&self, word: &str) -> (present: bool)
        ensures
            present == self@.contains(word@),
    {
        let mut node = &self.root;
        assert(word@.skip(0) == word@);
        for c in it: word.chars()
            invariant
                it.seq() == word@,
                self.root.accepts(word@) == node.accepts(word@.skip(it.index())),
        {
            assert(word@.skip(it.index()).drop_first() == word@.skip(it.index() + 1));
            match get_child(&node.children, c) {
                Some(next) => {
                    node = next;
                },
                None => {
                    return false;
                },
            }
        }
        node.is_end_of_word
    }
}

/// A trie to which `word` was added holds `word`, and holds any other word,
/// a proper prefix of `word` among them, exactly if it held it before.
pub proof fn lemma_insert_then_contains(
    before: Trie,
    after: Trie,
    word: Seq<char>,
    other: Seq<char>,
)
    requires
        after@ == before@.insert(word),
    ensures
        after@.contains(word),
        other != word ==> (after@.contains(other) <==> before@.contains(other)),
        other.is_prefix_of(word) && other != word ==> (after@.contains(other)
            <==> before@.contains(other)),
{
}

/// `sub` is the part of `base` below `prefix`: it accepts what `base`
/// accepts after `prefix`.
spec fn hangs_at(base: TrieNode, prefix: Seq<char>, sub: TrieNode) -> bool {
    forall|w: Seq<char>| #[trigger] sub.accepts(w) == base.accepts(prefix + w)
}

/// `whole` is `base` with the part below `prefix` replaced by `sub`.
spec fn grafted(base: TrieNode, prefix: Seq<char>, sub: TrieNode, whole: TrieNode) -> bool {
    forall|w: Seq<char>| #[trigger]
        whole.accepts(w) == if prefix.is_prefix_of(w) {
            sub.accepts(w.skip(prefix.len() as int))
        } else {
            base.accepts(w)
        }
}

/// The child under `c`, as it is or freshly made, is the part of `base` below
/// the prefix that is longer by `c`.
proof fn lemma_descend(base: TrieNode, prefix: Seq<char>, parent: TrieNode, c: char, child: TrieNode)
    requires
        hangs_at(base, prefix, parent),
        parent.children@.contains_key(c) ==> child == parent.children@[c],
        !parent.children@.contains_key(c) ==> child.is_blank(),
    ensures
        hangs_at(base, prefix.push(c), child),
{
    assert forall|w: Seq<char>| #[trigger] child.accepts(w) == base.accepts(prefix.push(c) + w) by {
        let cw = seq![c] + w;
        assert(cw.drop_first() == w);
        assert(prefix + cw == prefix.push(c) + w);
        assert(parent.accepts(cw) == base.accepts(prefix + cw));
        if !parent.children@.contains_key(c) {
            lemma_blank_accepts_nothing(child, w);
        }
    }
}

/// Replacing the part below `prefix` and there only the child under `c` is
/// replacing the part below the prefix that is longer by `c`.
proof fn lemma_regraft(
    base: TrieNode,
    prefix: Seq<char>,
    parent_now: TrieNode,
    parent_final: TrieNode,
    c: char,
    child_final: TrieNode,
    whole: TrieNode,
)
    requires
        hangs_at(base, prefix, parent_now),
        grafted(base, prefix, parent_final, whole),
        parent_final.is_end_of_word == parent_now.is_end_of_word,
        parent_final.children@ == parent_now.children@.insert(c, child_final),
    ensures
        grafted(base, prefix.push(c), child_final, whole),
{
    let n = prefix.len() as int;
    assert forall|w: Seq<char>| #[trigger]
        whole.accepts(w) == if prefix.push(c).is_prefix_of(w) {
            child_final.accepts(w.skip(n + 1))
        } else {
            base.accepts(w)
        } by {
        if prefix.is_prefix_of(w) {
            let r = w.skip(n);
            assert(prefix + r == w);
            assert(parent_now.accepts(r) == base.accepts(prefix + r));
            if r.len() > 0 {
                assert(r.drop_first() == w.skip(n + 1));
                assert(r[0] == w[n]);
            }
            if prefix.push(c).is_prefix_of(w) {
                assert(w[n] == prefix.push(c)[n]);
            } else if r.len() > 0 && r[0] == c {
                assert(prefix.push(c) == w.subrange(0, n + 1));
            }
        } else {
            if prefix.push(c).is_prefix_of(w) {
                assert(prefix == w.subrange(0, n));
            }
        }
    }
}

/// Marking the node where `word` ends adds `word` and nothing else.
proof fn lemma_close(
    base: TrieNode,
    word: Seq<char>,
    last_now: TrieNode,
    last_final: TrieNode,
    whole: TrieNode,
)
    requires
        hangs_at(base, word, last_now),
        grafted(base, word, last_final, whole),
        last_final.is_end_of_word,
        last_final.children == last_now.children,
    ensures
        Set::new(|w: Seq<char>| whole.accepts(w)) == Set::new(|w: Seq<char>| base.accepts(w)).insert(
            word,
        ),
{
    assert forall|w: Seq<char>| whole.accepts(w) == (w == word || base.accepts(w)) by {
        if word.is_prefix_of(w) {
            let r = w.skip(word.len() as int);
            assert(word + r == w);
            assert(last_now.accepts(r) == base.accepts(word + r));
            if r.len() == 0 {
                assert(w == word);
            }
        }
    }
    assert(Set::new(|w: Seq<char>| whole.accepts(w)) =~= Set::new(
        |w: Seq<char>| base.accepts(w),
    ).insert(word));
}

proof fn lemma_blank_accepts_nothing(node: TrieNode, w: Seq<char>)
    requires
        node.is_blank(),
    ensures
        !node.accepts(w),
{
}

} // verus!
