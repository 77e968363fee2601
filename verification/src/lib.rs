//! Word search on a 4×4 letter board.
//!
//! A [`Trie`] holds the dictionary, a [`Grid`] the letters of the board, and
//! [`find_words`] lists every dictionary word of at least three letters that
//! can be spelled by walking over touching cells without stepping on a cell
//! twice: longest words first, words of one length in dictionary order.
//!
//! The functions of the library are verified against their contracts. The
//! contracts speak of plain mathematical values: a trie is the set of its
//! words, a board the sequence of its letters, and a found word is one for
//! which a walk over the board exists. Three small functions call into std on
//! trust: two reach into the hash map of a trie node, one appends a character
//! to a text. Each says in its comment what is taken on trust.

pub mod grid;
pub mod order;
pub mod search;
pub mod text;
pub mod trace;
pub mod trie;
pub mod word_set;

pub use grid::Grid;
pub use search::find_words;
pub use trie::{Trie, TrieNode};
