use word_hunt::trie::Trie;

fn trie_of(words: &[&str]) -> Trie {
    let mut trie = Trie::new();
    for word in words {
        trie.insert(word);
    }
    trie
}

#[test]
fn new_trie_holds_nothing() {
    let trie = Trie::new();
    assert!(!trie.contains(""));
    assert!(!trie.contains("a"));
    assert!(!trie.contains("cat"));
}

#[test]
fn holds_whole_words_and_not_their_prefixes() {
    let trie = trie_of(&["cat", "cats", "car"]);
    assert!(!trie.contains("ca"));
    assert!(trie.contains("cat"));
    assert!(trie.contains("cats"));
    assert!(trie.contains("car"));
    assert!(!trie.contains("c"));
    assert!(!trie.contains(""));
    assert!(!trie.contains("cart"));
    assert!(!trie.contains("dog"));
}

#[test]
fn inserted_word_is_present_at_once() {
    let mut trie = Trie::new();
    for word in ["zebra", "a", "apple", "apply", "b", "banana", "ça", "naïve"] {
        assert!(!trie.contains(word));
        trie.insert(word);
        assert!(trie.contains(word));
    }
}

#[test]
fn prefix_is_present_only_once_inserted_itself() {
    let mut trie = Trie::new();
    trie.insert("cats");
    assert!(!trie.contains("cat"));
    assert!(!trie.contains("ca"));
    assert!(!trie.contains("c"));
    trie.insert("cat");
    assert!(trie.contains("cat"));
    assert!(trie.contains("cats"));
    assert!(!trie.contains("ca"));
}

#[test]
fn insert_leaves_other_words_as_they_were() {
    let mut trie = trie_of(&["car", "dog"]);
    trie.insert("cart");
    assert!(trie.contains("car"));
    assert!(trie.contains("dog"));
    assert!(trie.contains("cart"));
    assert!(!trie.contains("do"));
    assert!(!trie.contains("carts"));
}

#[test]
fn inserting_twice_changes_nothing() {
    let mut trie = trie_of(&["cat"]);
    trie.insert("cat");
    assert!(trie.contains("cat"));
    assert!(!trie.contains("ca"));
    assert!(!trie.contains("catcat"));
}

#[test]
fn empty_word_can_be_inserted() {
    let mut trie = trie_of(&["cat"]);
    assert!(!trie.contains(""));
    trie.insert("");
    assert!(trie.contains(""));
    assert!(trie.contains("cat"));
    assert!(!trie.contains("c"));
}

#[test]
fn characters_are_told_apart_exactly() {
    let trie = trie_of(&["Cat", "été"]);
    assert!(trie.contains("Cat"));
    assert!(!trie.contains("cat"));
    assert!(!trie.contains("CAT"));
    assert!(trie.contains("été"));
    assert!(!trie.contains("ete"));
    assert!(!trie.contains("ét"));
}

#[test]
fn child_walks_one_character_down() {
    let trie = trie_of(&["cat", "cats", "car"]);
    let root = trie.root();
    assert!(!root.is_terminal());
    assert!(root.child('x').is_none());
    assert!(root.child('a').is_none());
    let c = root.child('c').expect("words begin with c");
    assert!(!c.is_terminal());
    let ca = c.child('a').expect("words go on with a");
    assert!(!ca.is_terminal());
    assert!(ca.child('b').is_none());
    let cat = ca.child('t').expect("cat is a word");
    assert!(cat.is_terminal());
    let car = ca.child('r').expect("car is a word");
    assert!(car.is_terminal());
    assert!(car.child('s').is_none());
    let cats = cat.child('s').expect("cats is a word");
    assert!(cats.is_terminal());
    assert!(cats.child('s').is_none());
}

#[test]
fn root_is_terminal_only_for_the_empty_word() {
    let mut trie = trie_of(&["a"]);
    assert!(!trie.root().is_terminal());
    trie.insert("");
    assert!(trie.root().is_terminal());
}

#[test]
fn many_words_share_prefixes() {
    let words = [
        "tea", "ten", "ted", "to", "inn", "in", "i", "team", "teams", "tent", "tents", "tenth",
    ];
    let trie = trie_of(&words);
    for word in words {
        assert!(trie.contains(word), "{word}");
    }
    for absent in ["t", "te", "teamss", "tente", "innn", "o", "ea"] {
        assert!(!trie.contains(absent), "{absent}");
    }
}

#[test]
fn from_words_holds_the_words_of_the_list() {
    let list: Vec<String> = ["cat", "cats", "car", "cat"].iter().map(|w| w.to_string()).collect();
    let trie = Trie::from_words(&list);
    assert!(trie.contains("cat"));
    assert!(trie.contains("cats"));
    assert!(trie.contains("car"));
    assert!(!trie.contains("ca"));
    assert!(!trie.contains(""));
    assert!(!trie.contains("dog"));
}

#[test]
fn from_words_of_an_empty_list_holds_nothing() {
    let trie = Trie::from_words(&Vec::new());
    assert!(!trie.contains(""));
    assert!(!trie.contains("a"));
}
