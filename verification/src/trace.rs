//! What it means for a word to be found on the board: the cells of the board,
//! which of them touch, and the words that a walk over touching cells spells.

use crate::grid::{letter_at, BLANK};
use vstd::prelude::*;

verus! {

/// A cell, as its row and its column.
pub type Cell = (int, int);

/// The cell lies on the board.
pub open spec fn on_board(cell: Cell) -> bool {
    0 <= cell.0 < 4 && 0 <= cell.1 < 4
}

/// Two different cells that are at most one row and one column apart.
pub open spec fn adjacent(a: Cell, b: Cell) -> bool {
    a != b && -1 <= a.0 - b.0 <= 1 && -1 <= a.1 - b.1 <= 1
}

/// The letter that `cell` shows when `letters` were placed on the board.
pub open spec fn letter_on(letters: Seq<char>, cell: Cell) -> char {
    letter_at(letters, cell.0, cell.1)
}

/// The `i`-th cell of `cells` touches the one before it.
pub open spec fn touches_previous(cells: Seq<Cell>, i: int) -> bool {
    adjacent(cells[i - 1], cells[i])
}

/// A walk over the board: every cell lies on the board and shows a letter, no
/// cell occurs twice, and each cell touches the one before it.
pub open spec fn is_trace(letters: Seq<char>, cells: Seq<Cell>) -> bool {
    &&& forall|i: int|
        0 <= i < cells.len() ==> on_board(#[trigger] cells[i]) && letter_on(letters, cells[i])
            != BLANK
    &&& forall|i: int, j: int| 0 <= i < j < cells.len() ==> cells[i] != cells[j]
    &&& forall|i: int| 0 < i < cells.len() ==> #[trigger] touches_previous(cells, i)
}

/// The word that the cells show, read in order.
pub open spec fn spelled(letters: Seq<char>, cells: Seq<Cell>) -> Seq<char> {
    cells.map_values(|cell: Cell| letter_on(letters, cell))
}

/// `cells` is a walk that spells `word`.
pub open spec fn traces(letters: Seq<char>, cells: Seq<Cell>, word: Seq<char>) -> bool {
    is_trace(letters, cells) && spelled(letters, cells) == word
}

/// Some walk over the board spells `word`.
pub open spec fn traceable(letters: Seq<char>, word: Seq<char>) -> bool {
    exists|cells: Seq<Cell>| traces(letters, cells, word)
}

/// The shortest word that counts.
pub const MIN_WORD_LEN: usize = 3;

/// `word` is a hit: long enough, in the dictionary, and spelled by some walk.
pub open spec fn is_hit(letters: Seq<char>, dict: Set<Seq<char>>, word: Seq<char>) -> bool {
    &&& word.len() >= MIN_WORD_LEN
    &&& dict.contains(word)
    &&& traceable(letters, word)
}

/// A board without letters has no hit, whatever the dictionary holds.
pub proof fn lemma_blank_board_has_no_hit(dict: Set<Seq<char>>, word: Seq<char>)
    ensures
        !is_hit(Seq::<char>::empty(), dict, word),
{
    let letters = Seq::<char>::empty();
    assert forall|cells: Seq<Cell>| !(word.len() >= MIN_WORD_LEN && traces(letters, cells, word)) by {
        if word.len() >= MIN_WORD_LEN && traces(letters, cells, word) {
            assert(on_board(cells[0]) && letter_on(letters, cells[0]) != BLANK);
        }
    }
}

} // verus!
