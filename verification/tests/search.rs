use word_hunt::grid::Grid;
use word_hunt::search::find_words;
use word_hunt::trie::Trie;

fn board(letters: &str) -> Grid {
    let mut grid = Grid::new();
    for c in letters.chars() {
        grid.add(c);
    }
    grid
}

fn dictionary(words: &[&str]) -> Trie {
    let mut trie = Trie::new();
    for word in words {
        trie.insert(word);
    }
    trie
}

fn found(letters: &str, words: &[&str]) -> Vec<String> {
    find_words(&board(letters), &dictionary(words))
}

/// Whether `word` can be walked from cell `at` on, over cells not `used`.
fn walk(cells: &[char], word: &[char], at: usize, used: &mut [bool; 16]) -> bool {
    if cells[at] != word[0] || cells[at] == ' ' || used[at] {
        return false;
    }
    if word.len() == 1 {
        return true;
    }
    used[at] = true;
    let (r, c) = (at / 4, at % 4);
    let mut ok = false;
    for nr in r.saturating_sub(1)..=(r + 1).min(3) {
        for nc in c.saturating_sub(1)..=(c + 1).min(3) {
            if (nr, nc) != (r, c) && !ok {
                ok = walk(cells, &word[1..], 4 * nr + nc, used);
            }
        }
    }
    used[at] = false;
    ok
}

/// The expected listing, found word by word.
fn expected(letters: &str, words: &[&str]) -> Vec<String> {
    let mut cells: Vec<char> = letters.chars().collect();
    cells.resize(16, ' ');
    let mut hits: Vec<String> = Vec::new();
    for word in words {
        let chars: Vec<char> = word.chars().collect();
        let traced = (0..16).any(|at| walk(&cells, &chars, at, &mut [false; 16]));
        if chars.len() >= 3 && traced && !hits.contains(&word.to_string()) {
            hits.push(word.to_string());
        }
    }
    hits.sort_by(|a, b| b.chars().count().cmp(&a.chars().count()).then_with(|| a.cmp(b)));
    hits
}

#[test]
fn finds_cats_before_cat_along_the_top_row() {
    assert_eq!(found("catsdogxxxxxxxxx", &["cat", "cats"]), ["cats", "cat"]);
}

#[test]
fn finds_nothing_where_the_letters_do_not_touch_in_sequence() {
    assert_eq!(found("cxaxxxxxtxsxxxxx", &["cat", "cats"]), Vec::<String>::new());
    assert_eq!(found("caxtxxxxxxxxxxxs", &["cat", "cats"]), Vec::<String>::new());
}

#[test]
fn letters_match_by_exact_character() {
    assert_eq!(found("CATSDOGXXXXXXXXX", &["cat", "cats"]), Vec::<String>::new());
    assert_eq!(found("CATSDOGXXXXXXXXX", &["CAT", "CATS"]), ["CATS", "CAT"]);
}

#[test]
fn empty_board_yields_nothing() {
    assert_eq!(found("", &["cat", "cats", "dog", "a", ""]), Vec::<String>::new());
}

#[test]
fn empty_dictionary_yields_nothing() {
    assert_eq!(found("catsdogxxxxxxxxx", &[]), Vec::<String>::new());
}

#[test]
fn words_shorter_than_three_letters_are_left_out() {
    assert_eq!(found("catsdogxxxxxxxxx", &["", "c", "ca", "at", "a", "do", "cat"]), ["cat"]);
    assert_eq!(found("catsdogxxxxxxxxx", &["c", "ca", "at"]), Vec::<String>::new());
}

#[test]
fn a_word_found_on_several_walks_is_listed_once() {
    assert_eq!(found("aaaaaaaaaaaaaaaa", &["aaa", "aaaa"]), ["aaaa", "aaa"]);
    assert_eq!(found("toottoottoottoot", &["too", "toot", "tot"]), ["toot", "too", "tot"]);
}

#[test]
fn listing_is_longest_first_then_by_dictionary() {
    let words = ["dog", "cat", "cats", "god", "act", "cast", "tag", "goat", "coat", "taco"];
    assert_eq!(
        found("catsdogxxxxxxxxx", &words),
        ["cats", "coat", "goat", "taco", "cat", "dog", "god", "tag"]
    );
}

#[test]
fn no_cell_is_used_twice_in_one_word() {
    assert_eq!(found("abxxxxxxxxxxxxxx", &["aba", "bab", "abab"]), Vec::<String>::new());
    assert_eq!(found("abax", &["aba", "abab"]), ["aba"]);
    assert_eq!(found("noxx", &["noon", "non"]), Vec::<String>::new());
}

#[test]
fn walks_go_over_corners() {
    assert_eq!(found("axxxxbxxxxcxxxxd", &["abcd", "dcba", "abd"]), ["abcd", "dcba"]);
    assert_eq!(found("xxxaxxbxxcxxdxxx", &["abcd", "dcb"]), ["abcd", "dcb"]);
}

#[test]
fn walks_go_up_and_left() {
    assert_eq!(found("xxxxxxxxxxxxtacx", &["cat"]), ["cat"]);
    assert_eq!(found("txxxaxxxcxxxxxxx", &["cat"]), ["cat"]);
}

#[test]
fn cells_two_apart_do_not_touch() {
    assert_eq!(found("cats", &["cas", "cts", "tac"]), ["tac"]);
    assert_eq!(found("axxxxxxxbxxxxxxx", &["abx", "bax", "axb"]), ["axb"]);
    assert_eq!(found("abcdefgh", &["ade", "dea", "aeh"]), Vec::<String>::new());
}

#[test]
fn rows_do_not_wrap_around() {
    assert_eq!(found("abcdefgh", &["cde", "dhe", "dea"]), Vec::<String>::new());
    assert_eq!(found("abcdefgh", &["dhg", "aef"]), ["aef", "dhg"]);
}

#[test]
fn blank_cells_are_not_walked() {
    assert_eq!(found("cat", &["cat", "cat ", "ca t", "   "]), ["cat"]);
    assert_eq!(found("ab", &["ab ", " ab", "a b"]), Vec::<String>::new());
}

#[test]
fn a_partly_filled_board_is_searched() {
    assert_eq!(found("cats", &["cat", "cats", "tac", "act", "dog"]), ["cats", "cat", "tac"]);
    assert_eq!(found("catsd", &["dac", "dca"]), ["dac", "dca"]);
}

#[test]
fn a_word_may_use_all_sixteen_cells() {
    let snake = "abcdhgfeijklponm";
    let whole = "abcdefghijklmnop";
    assert_eq!(found(snake, &[whole, "abcdefghijklmnopq", "abc"]), [whole, "abc"]);
}

#[test]
fn search_does_not_change_with_a_second_run() {
    let grid = board("catsdogxxxxxxxxx");
    let trie = dictionary(&["cat", "cats", "dog", "god"]);
    let first = find_words(&grid, &trie);
    let second = find_words(&grid, &trie);
    assert_eq!(first, ["cats", "cat", "dog", "god"]);
    assert_eq!(first, second);
}

#[test]
fn search_follows_edits_of_the_board() {
    let trie = dictionary(&["cat", "cats", "tac"]);
    let mut grid = board("cat");
    assert_eq!(find_words(&grid, &trie), ["cat", "tac"]);
    grid.add('s');
    assert_eq!(find_words(&grid, &trie), ["cats", "cat", "tac"]);
    grid.delete();
    grid.delete();
    assert_eq!(find_words(&grid, &trie), Vec::<String>::new());
}

#[test]
fn every_listed_word_is_in_the_dictionary_and_long_enough() {
    let words = ["tea", "eat", "ate", "at", "tee", "seat", "east", "teas", "set", "see", "a"];
    let trie = dictionary(&words);
    let listed = find_words(&board("teasateestaesett"), &trie);
    assert!(!listed.is_empty());
    for word in &listed {
        assert!(trie.contains(word), "{word}");
        assert!(word.chars().count() >= 3, "{word}");
    }
    for pair in listed.windows(2) {
        let (a, b) = (&pair[0], &pair[1]);
        let (la, lb) = (a.chars().count(), b.chars().count());
        assert!(la > lb || (la == lb && a < b), "{a} before {b}");
    }
}

#[test]
fn listing_agrees_with_a_word_by_word_search() {
    let words = [
        "tea", "eat", "ate", "at", "tee", "seat", "east", "teas", "set", "see", "a", "tease",
        "state", "taste", "estate", "testate", "sat", "sea", "eta", "tat", "tet", "teat", "ease",
        "seas", "asset", "zzz", "tests", "attest",
    ];
    for letters in ["teasateestaesett", "etatsseatteaseat", "tea", "", "setaxxxxxxxxxxxx"] {
        assert_eq!(found(letters, &words), expected(letters, &words), "{letters}");
    }
}

#[test]
fn words_beyond_ascii_are_found() {
    assert_eq!(found("étéxxxxxxxxxxxxx", &["été", "ete", "té"]), ["été"]);
    assert_eq!(found("ñandxxxú", &["ñandú", "ñan", "and"]), ["ñandú", "and", "ñan"]);
}
