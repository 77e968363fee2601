//! The 4×4 letter board.

use crate::text::text_of;
use vstd::prelude::*;

verus! {

/// The board has `SIDE` rows and `SIDE` columns.
pub const SIDE: usize = 4;

/// The number of cells on the board.
pub const CELLS: usize = 16;

/// What a cell holds while no letter has been placed on it.
pub const BLANK: char = ' ';

/// A board that is filled letter by letter, in row-major order, and emptied
/// from the end.
pub struct Grid {
    letters: Vec<char>,
    cells: [[char; 4]; 4],
}

impl View for Grid {
    type V = Seq<char>;

    /// The letters placed so far, in the order in which they were placed.
    closed spec fn view(&self) -> Seq<char> {
        self.letters@
    }
}

impl Grid {
    /// The cells mirror the letters: cell `(r, c)` holds letter `4 * r + c`
    /// where that many letters were placed, and is blank otherwise.
    pub closed spec fn wf(&self) -> bool {
        &&& self.letters@.len() <= CELLS
        &&& forall|r: int, c: int|
            0 <= r < 4 && 0 <= c < 4 ==> #[trigger] self.cells[r][c] == letter_at(
                self.letters@,
                r,
                c,
            )
    }

    /// A board on which no letter was placed.
    pub fn new() -> (grid: Grid)
        ensures
            grid.wf(),
            grid@ == Seq::<char>::empty(),
    {
        Grid { letters: Vec::new(), cells: [[BLANK; 4]; 4] }
    }

    /// Places `c` on the next free cell; a full board stays as it is. A blank
    /// is placed like any letter, though its cell goes on to show no letter.
    pub fn add(&mut self, c: char)
        requires
            old(self).wf(),
        ensures
            final(self).wf(),
            old(self)@.len() < CELLS ==> final(self)@ == old(self)@.push(c),
            old(self)@.len() >= CELLS ==> *final(self) == *old(self),
    {
        let len = self.letters.len();
        if len < CELLS {
            let row = len / SIDE;
            let col = len % SIDE;
            self.cells[row][col] = c;
            self.letters.push(c);
        }
    }

    /// Takes the last letter off the board again; an empty board stays as it
    /// is.
    pub fn delete(&mut self)
        requires
            old(self).wf(),
        ensures
            final(self).wf(),
            old(self)@.len() > 0 ==> final(self)@ == old(self)@.drop_last(),
            old(self)@.len() == 0 ==> *final(self) == *old(self),
    {
        if !self.letters.is_empty() {
            self.letters.pop();
            let len = self.letters.len();
            let row = len / SIDE;
            let col = len % SIDE;
            self.cells[row][col] = BLANK;
        }
    }

    /// How many letters were placed.
    pub fn len(&self) -> (len: usize)
        requires
            self.wf(),
        ensures
            len == self@.len(),
            len <= CELLS,
    {
        self.letters.len()
    }

    /// The letters placed so far, in order, as one text.
    pub fn letters(&self) -> (text: String)
        ensures
            text@ == self@,
    {
        text_of(&self.letters)
    }

    /// What the cell in row `i` and column `j` shows: `None` off the board,
    /// and the blank on a cell that no letter has reached.
    pub fn get_char(&self, i: usize, j: usize) -> (cell: Option<char>)
        requires
            self.wf(),
        ensures
            cell == if i < 4 && j < 4 {
                Some(letter_at(self@, i as int, j as int))
            } else {
                None
            },
    {
        if i < SIDE && j < SIDE {
            Some(self.cells[i][j])
        } else {
            None
        }
    }
}

/// What the cell in row `r` and column `c` shows when `letters` were placed.
pub open spec fn letter_at(letters: Seq<char>, r: int, c: int) -> char {
    if 0 <= r < 4 && 0 <= c < 4 && 4 * r + c < letters.len() {
        letters[4 * r + c]
    } else {
        BLANK
    }
}

/// How many of the first `n` cells, row by row, show a letter.
pub open spec fn filled_before(letters: Seq<char>, n: nat) -> nat
    decreases n,
{
    if n == 0 {
        0
    } else {
        let m = (n - 1) as nat;
        filled_before(letters, m) + if letter_at(letters, m as int / 4, m as int % 4) != BLANK {
            1nat
        } else {
            0nat
        }
    }
}

/// How many cells of the board show a letter.
pub open spec fn filled(letters: Seq<char>) -> nat {
    filled_before(letters, CELLS as nat)
}

/// As long as no blank is placed as a letter, the cells that show a letter are
/// as many as the letters placed.
pub proof fn lemma_filled_as_placed(letters: Seq<char>)
    requires
        letters.len() <= CELLS,
        forall|i: int| 0 <= i < letters.len() ==> letters[i] != BLANK,
    ensures
        filled(letters) == letters.len(),
{
    lemma_filled_before(letters, CELLS as nat);
}

proof fn lemma_filled_before(letters: Seq<char>, n: nat)
    requires
        n <= CELLS,
        forall|i: int| 0 <= i < letters.len() ==> letters[i] != BLANK,
    ensures
        filled_before(letters, n) == if n <= letters.len() {
            n
        } else {
            letters.len()
        },
    decreases n,
{
    if n > 0 {
        let m = (n - 1) as nat;
        lemma_filled_before(letters, m);
    }
}

} // verus!
