use word_hunt::order::{compare_words, Rank};
use word_hunt::text::text_of;
use word_hunt::word_set::WordSet;

fn chars(word: &str) -> Vec<char> {
    word.chars().collect()
}

fn rank(a: &str, b: &str) -> Rank {
    compare_words(&chars(a), &chars(b))
}

#[test]
fn longer_word_ranks_first() {
    assert_eq!(rank("cats", "cat"), Rank::Before);
    assert_eq!(rank("cat", "cats"), Rank::After);
    assert_eq!(rank("zzzz", "aaa"), Rank::Before);
    assert_eq!(rank("aaa", "zzzz"), Rank::After);
    assert_eq!(rank("a", ""), Rank::Before);
    assert_eq!(rank("", "a"), Rank::After);
}

#[test]
fn equal_lengths_rank_in_dictionary_order() {
    assert_eq!(rank("car", "cat"), Rank::Before);
    assert_eq!(rank("cat", "car"), Rank::After);
    assert_eq!(rank("abc", "abd"), Rank::Before);
    assert_eq!(rank("b", "a"), Rank::After);
    assert_eq!(rank("Zoo", "ant"), Rank::Before);
    assert_eq!(rank("az", "ba"), Rank::Before);
}

#[test]
fn equal_words_rank_the_same() {
    assert_eq!(rank("cat", "cat"), Rank::Same);
    assert_eq!(rank("", ""), Rank::Same);
    assert_eq!(rank("naïve", "naïve"), Rank::Same);
}

#[test]
fn length_counts_characters() {
    assert_eq!(rank("ééé", "aaaa"), Rank::After);
    assert_eq!(rank("éééé", "zzz"), Rank::Before);
    assert_eq!(rank("é", "z"), Rank::After);
}

#[test]
fn ranking_agrees_with_the_standard_string_order() {
    let words = ["", "a", "b", "ab", "ba", "abc", "abd", "b a", "Abc", "zzz", "zz", "éa", "ea"];
    for a in words {
        for b in words {
            let by_length = b.chars().count().cmp(&a.chars().count());
            let expected = match by_length.then_with(|| a.cmp(b)) {
                std::cmp::Ordering::Less => Rank::Before,
                std::cmp::Ordering::Equal => Rank::Same,
                std::cmp::Ordering::Greater => Rank::After,
            };
            assert_eq!(rank(a, b), expected, "{a:?} against {b:?}");
        }
    }
}

#[test]
fn word_set_keeps_each_word_once() {
    let mut set = WordSet::new();
    for word in ["cat", "dog", "cat", "cats", "dog", "cat"] {
        set.insert(&chars(word));
    }
    assert_eq!(set.into_sorted(), vec![chars("cats"), chars("cat"), chars("dog")]);
}

#[test]
fn empty_word_set_sorts_to_nothing() {
    assert_eq!(WordSet::new().into_sorted(), Vec::<Vec<char>>::new());
}

#[test]
fn word_set_sorts_longest_first_then_by_dictionary() {
    let mut set = WordSet::new();
    for word in ["bee", "ant", "zebra", "cow", "horse", "ox", "a", "mouse", "eel"] {
        set.insert(&chars(word));
    }
    let sorted: Vec<String> = set.into_sorted().iter().map(text_of).collect();
    assert_eq!(sorted, ["horse", "mouse", "zebra", "ant", "bee", "cow", "eel", "ox", "a"]);
}

#[test]
fn word_set_order_does_not_depend_on_insertion_order() {
    let words = ["delta", "alpha", "gamma", "beta", "pi", "epsilon", "mu", "nu"];
    let mut forward = WordSet::new();
    let mut backward = WordSet::new();
    for word in words {
        forward.insert(&chars(word));
    }
    for word in words.iter().rev() {
        backward.insert(&chars(word));
    }
    let expected: Vec<Vec<char>> =
        ["epsilon", "alpha", "delta", "gamma", "beta", "mu", "nu", "pi"].iter().map(|w| chars(w)).collect();
    assert_eq!(forward.into_sorted(), expected);
    assert_eq!(backward.into_sorted(), expected);
}

#[test]
fn text_of_spells_the_characters_in_order() {
    assert_eq!(text_of(&Vec::new()), "");
    assert_eq!(text_of(&vec!['a']), "a");
    assert_eq!(text_of(&vec!['c', 'a', 't', 's']), "cats");
    assert_eq!(text_of(&vec!['n', 'a', 'ï', 'v', 'e']), "naïve");
}
