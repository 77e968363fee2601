//! The search: a depth-first walk over the board that follows the trie and
//! gives up a branch as soon as no dictionary word goes on with its letters.
//!
//! The walk keeps a trail of the cells it stands on. What one call of the walk
//! adds to the set of found words is stated as a set: the hits whose walk
//! begins with the trail and goes on at the cell of the call.

use crate::grid::{Grid, BLANK};
use crate::order::{
    in_order, is_ranked, lemma_ranked_listing_is_unique, lemma_ranks_before_irreflexive,
    ranks_before,
};
use crate::text::{text_of, texts};
use crate::trace::{
    adjacent, is_hit, is_trace, letter_on, on_board, spelled, touches_previous, traceable,
    traces, Cell, MIN_WORD_LEN,
};
use crate::trie::{Trie, TrieNode};
use crate::word_set::{views, WordSet};
use vstd::prelude::*;
use vstd::set_lib::{lemma_int_range, lemma_len_subset, set_int_range};

verus! {

/// `ext` goes on from the walk `trail`, begins at `start`, and the two
/// together spell the hit `word`.
spec fn continues(
    letters: Seq<char>,
    dict: Set<Seq<char>>,
    trail: Seq<Cell>,
    start: Cell,
    ext: Seq<Cell>,
    word: Seq<char>,
) -> bool {
    &&& ext.len() > 0
    &&& ext[0] == start
    &&& traces(letters, trail + ext, word)
    &&& word.len() >= MIN_WORD_LEN
    &&& dict.contains(word)
}

/// The hits whose walk begins with `trail` and goes on at `start`.
spec fn hits_through(
    letters: Seq<char>,
    dict: Set<Seq<char>>,
    trail: Seq<Cell>,
    start: Cell,
) -> Set<Seq<char>> {
    Set::new(
        |word: Seq<char>|
            exists|ext: Seq<Cell>| continues(letters, dict, trail, start, ext, word),
    )
}

/// The `k`-th of the nine cells around and including `cell`, row by row.
spec fn neighbor(cell: Cell, k: int) -> Cell {
    (cell.0 + k / 3 - 1, cell.1 + k % 3 - 1)
}

/// The hits whose walk begins with `trail` and goes on at one of the first
/// `k` neighbors of the last cell of `trail`.
spec fn hits_beyond(
    letters: Seq<char>,
    dict: Set<Seq<char>>,
    trail: Seq<Cell>,
    k: int,
) -> Set<Seq<char>> {
    Set::new(
        |word: Seq<char>|
            exists|m: int|
                0 <= m < k && m != 4 && #[trigger] hits_through(
                    letters,
                    dict,
                    trail,
                    neighbor(trail.last(), m),
                ).contains(word),
    )
}

/// The word that `trail` spells, where that word is a hit.
spec fn hit_at_end(letters: Seq<char>, dict: Set<Seq<char>>, trail: Seq<Cell>) -> Set<Seq<char>> {
    let word = spelled(letters, trail);
    if word.len() >= MIN_WORD_LEN && dict.contains(word) {
        set![word]
    } else {
        Set::empty()
    }
}

/// The `s`-th cell of the board in row-major order.
spec fn cell_of(s: int) -> Cell {
    (s / 4, s % 4)
}

/// The hits whose walk begins at one of the first `n` cells of the board.
spec fn hits_from(letters: Seq<char>, dict: Set<Seq<char>>, n: int) -> Set<Seq<char>> {
    Set::new(
        |word: Seq<char>|
            exists|s: int|
                0 <= s < n && #[trigger] hits_through(
                    letters,
                    dict,
                    Seq::empty(),
                    cell_of(s),
                ).contains(word),
    )
}

/// `node` stands in the trie where `prefix` ends: it accepts what the
/// dictionary holds after `prefix`.
spec fn hangs(node: TrieNode, dict: Set<Seq<char>>, prefix: Seq<char>) -> bool {
    forall|w: Seq<char>| #[trigger] node.accepts(w) == dict.contains(prefix + w)
}

/// The state of a walk that stands at the end of `trail`: the path holds the
/// letters of the trail, and the marks show its cells and no others.
spec fn on_walk(
    letters: Seq<char>,
    trail: Seq<Cell>,
    path: Seq<char>,
    visited: [[bool; 4]; 4],
) -> bool {
    &&& is_trace(letters, trail)
    &&& path == spelled(letters, trail)
    &&& forall|r: int, c: int|
        0 <= r < 4 && 0 <= c < 4 ==> #[trigger] visited[r][c] == trail.contains((r, c))
}

/// A walk visits at most all sixteen cells.
proof fn lemma_trace_is_short(letters: Seq<char>, trail: Seq<Cell>)
    requires
        is_trace(letters, trail),
    ensures
        trail.len() <= 16,
{
    let index = trail.map_values(|cell: Cell| 4 * cell.0 + cell.1);
    assert(index.no_duplicates()) by {
        assert forall|i: int, j: int|
            0 <= i < index.len() && 0 <= j < index.len() && i != j implies index[i] != index[j] by {
            assert(on_board(trail[i]) && on_board(trail[j]));
            if i < j {
                assert(trail[i] != trail[j]);
            } else {
                assert(trail[j] != trail[i]);
            }
        }
    }
    index.unique_seq_to_set();
    lemma_int_range(0, 16);
    assert(index.to_set().subset_of(set_int_range(0, 16))) by {
        assert forall|x: int| index.to_set().contains(x) implies set_int_range(0, 16).contains(
            x,
        ) by {
            let i = choose|i: int| 0 <= i < index.len() && index[i] == x;
            assert(on_board(trail[i]));
        }
    }
    lemma_len_subset(index.to_set(), set_int_range(0, 16));
}

/// The walk steps on a fresh cell that shows a letter and touches its end:
/// the cell is marked and its letter joins the path.
proof fn lemma_walk_on(
    letters: Seq<char>,
    trail: Seq<Cell>,
    cell: Cell,
    path: Seq<char>,
    visited: [[bool; 4]; 4],
    marked: [[bool; 4]; 4],
)
    requires
        on_walk(letters, trail, path, visited),
        on_board(cell),
        letter_on(letters, cell) != BLANK,
        !visited[cell.0][cell.1],
        trail.len() > 0 ==> adjacent(trail.last(), cell),
        forall|r: int, c: int|
            0 <= r < 4 && 0 <= c < 4 ==> #[trigger] marked[r][c] == (visited[r][c] || (r, c)
                == cell),
    ensures
        on_walk(letters, trail.push(cell), path.push(letter_on(letters, cell)), marked),
        trail.len() < 16,
{
    let longer = trail.push(cell);
    assert(!trail.contains(cell));
    assert forall|i: int, j: int| 0 <= i < j < longer.len() implies longer[i] != longer[j] by {
        if j == trail.len() {
            assert(trail[i] == longer[i]);
        }
    }
    assert forall|i: int| 0 < i < longer.len() implies #[trigger] touches_previous(longer, i) by {
        if i < trail.len() {
            assert(touches_previous(trail, i));
        }
    }
    assert(spelled(letters, longer) =~= spelled(letters, trail).push(letter_on(letters, cell)));
    assert forall|r: int, c: int| 0 <= r < 4 && 0 <= c < 4 implies #[trigger] marked[r][c]
        == longer.contains((r, c)) by {
        if trail.contains((r, c)) {
            let i = choose|i: int| 0 <= i < trail.len() && trail[i] == (r, c);
            assert(longer[i] == (r, c));
        }
        if (r, c) == cell {
            assert(longer[trail.len() as int] == cell);
        }
        if longer.contains((r, c)) && (r, c) != cell {
            let i = choose|i: int| 0 <= i < longer.len() && longer[i] == (r, c);
            assert(trail[i] == (r, c));
        }
    }
    lemma_trace_is_short(letters, longer);
}

/// The walk steps back from the last cell of its trail: the mark of the cell
/// is taken off and its letter leaves the path.
proof fn lemma_walk_back(
    letters: Seq<char>,
    trail: Seq<Cell>,
    cell: Cell,
    path: Seq<char>,
    marked: [[bool; 4]; 4],
    visited: [[bool; 4]; 4],
)
    requires
        is_trace(letters, trail),
        on_walk(letters, trail.push(cell), path, marked),
        forall|r: int, c: int|
            0 <= r < 4 && 0 <= c < 4 ==> #[trigger] visited[r][c] == (marked[r][c] && (r, c)
                != cell),
    ensures
        on_walk(letters, trail, path.drop_last(), visited),
{
    let longer = trail.push(cell);
    assert(spelled(letters, longer).drop_last() =~= spelled(letters, trail));
    assert forall|r: int, c: int| 0 <= r < 4 && 0 <= c < 4 implies #[trigger] visited[r][c]
        == trail.contains((r, c)) by {
        if trail.contains((r, c)) {
            let i = choose|i: int| 0 <= i < trail.len() && trail[i] == (r, c);
            assert(longer[i] == (r, c));
            assert(longer[trail.len() as int] == cell);
        }
        if longer.contains((r, c)) && (r, c) != cell {
            let i = choose|i: int| 0 <= i < longer.len() && longer[i] == (r, c);
            assert(trail[i] == (r, c));
        }
    }
}

/// No hit goes on at a cell off the board, at a cell of the trail, or at a
/// blank cell.
proof fn lemma_no_hit_at(letters: Seq<char>, dict: Set<Seq<char>>, trail: Seq<Cell>, start: Cell)
    requires
        !on_board(start) || trail.contains(start) || letter_on(letters, start) == BLANK,
    ensures
        hits_through(letters, dict, trail, start) == Set::<Seq<char>>::empty(),
{
    assert forall|word: Seq<char>, ext: Seq<Cell>|
        !continues(letters, dict, trail, start, ext, word) by {
        if continues(letters, dict, trail, start, ext, word) {
            let walk = trail + ext;
            let at = trail.len() as int;
            assert(walk[at] == start);
            assert(on_board(walk[at]));
            if trail.contains(start) {
                let i = choose|i: int| 0 <= i < trail.len() && trail[i] == start;
                assert(walk[i] == walk[at]);
            }
        }
    }
    assert(hits_through(letters, dict, trail, start) =~= Set::<Seq<char>>::empty());
}

/// No hit goes on with a letter for which the trie has no child.
proof fn lemma_no_hit_pruned(
    letters: Seq<char>,
    dict: Set<Seq<char>>,
    trail: Seq<Cell>,
    start: Cell,
    node: TrieNode,
)
    requires
        hangs(node, dict, spelled(letters, trail)),
        node.step(letter_on(letters, start)) is None,
    ensures
        hits_through(letters, dict, trail, start) == Set::<Seq<char>>::empty(),
{
    assert forall|word: Seq<char>, ext: Seq<Cell>|
        !continues(letters, dict, trail, start, ext, word) by {
        if continues(letters, dict, trail, start, ext, word) {
            let rest = spelled(letters, ext);
            assert(spelled(letters, trail + ext) =~= spelled(letters, trail) + rest);
            assert(node.accepts(rest) == dict.contains(spelled(letters, trail) + rest));
            assert(rest[0] == letter_on(letters, start));
        }
    }
    assert(hits_through(letters, dict, trail, start) =~= Set::<Seq<char>>::empty());
}

/// The child reached by `c` stands where the prefix, longer by `c`, ends, and
/// is terminal exactly if that prefix is a word of the dictionary.
proof fn lemma_hangs_child(
    node: TrieNode,
    dict: Set<Seq<char>>,
    prefix: Seq<char>,
    c: char,
    next: TrieNode,
)
    requires
        hangs(node, dict, prefix),
        node.step(c) == Some(next),
    ensures
        hangs(next, dict, prefix.push(c)),
        next.terminal() == dict.contains(prefix.push(c)),
{
    assert forall|w: Seq<char>| #[trigger] next.accepts(w) == dict.contains(prefix.push(c) + w) by {
        let cw = seq![c] + w;
        assert(cw.drop_first() =~= w);
        assert(prefix + cw =~= prefix.push(c) + w);
        assert(node.accepts(cw) == dict.contains(prefix + cw));
    }
    let none = Seq::<char>::empty();
    assert(prefix.push(c) + none =~= prefix.push(c));
    assert(next.accepts(none) == dict.contains(prefix.push(c) + none));
}

/// A cell that touches `cell` is one of its neighbors, and not the middle one.
proof fn lemma_neighbor_rank(cell: Cell, next: Cell) -> (m: int)
    requires
        adjacent(cell, next),
    ensures
        0 <= m < 9,
        m != 4,
        neighbor(cell, m) == next,
{
    let dr = next.0 - cell.0 + 1;
    let dc = next.1 - cell.1 + 1;
    let m = 3 * dr + dc;
    assert(0 <= dr <= 2 && 0 <= dc <= 2);
    assert(m / 3 == dr && m % 3 == dc);
    m
}

/// A walk that goes on from `trail` at `start` by more than one cell goes on
/// from the longer trail at a neighbor of `start`.
proof fn lemma_hit_goes_on(
    letters: Seq<char>,
    dict: Set<Seq<char>>,
    trail: Seq<Cell>,
    start: Cell,
    ext: Seq<Cell>,
    word: Seq<char>,
)
    requires
        continues(letters, dict, trail, start, ext, word),
        ext.len() > 1,
    ensures
        hits_beyond(letters, dict, trail.push(start), 9).contains(word),
{
    let longer = trail.push(start);
    let walk = trail + ext;
    let rest = ext.drop_first();
    let at = trail.len() as int;
    let next = ext[1];
    assert(walk =~= longer + rest);
    assert(adjacent(start, next)) by {
        assert(walk[at] == start);
        assert(walk[at + 1] == next);
        assert(touches_previous(walk, at + 1));
    }
    let m = lemma_neighbor_rank(start, next);
    assert(rest[0] == next);
    assert(continues(letters, dict, longer, next, rest, word));
    assert(longer.last() == start);
    assert(hits_through(letters, dict, longer, neighbor(longer.last(), m)).contains(word));
}

/// A walk that goes on from the longer trail goes on from `trail` at `start`.
proof fn lemma_hit_comes_back(
    letters: Seq<char>,
    dict: Set<Seq<char>>,
    trail: Seq<Cell>,
    start: Cell,
    next: Cell,
    word: Seq<char>,
)
    requires
        hits_through(letters, dict, trail.push(start), next).contains(word),
    ensures
        hits_through(letters, dict, trail, start).contains(word),
{
    let longer = trail.push(start);
    let rest = choose|rest: Seq<Cell>| continues(letters, dict, longer, next, rest, word);
    let ext = seq![start] + rest;
    assert(trail + ext =~= longer + rest);
    assert(ext[0] == start);
    assert(continues(letters, dict, trail, start, ext, word));
}

/// A hit that goes on at `start` ends there or goes on at a neighbor of it.
proof fn lemma_hits_split(letters: Seq<char>, dict: Set<Seq<char>>, trail: Seq<Cell>, start: Cell)
    requires
        is_trace(letters, trail.push(start)),
    ensures
        hits_through(letters, dict, trail, start) == hit_at_end(letters, dict, trail.push(start))
            + hits_beyond(letters, dict, trail.push(start), 9),
{
    let longer = trail.push(start);
    let whole = hits_through(letters, dict, trail, start);
    let parts = hit_at_end(letters, dict, longer) + hits_beyond(letters, dict, longer, 9);
    assert forall|word: Seq<char>| whole.contains(word) implies parts.contains(word) by {
        let ext = choose|ext: Seq<Cell>| continues(letters, dict, trail, start, ext, word);
        if ext.len() == 1 {
            assert(trail + ext =~= longer);
        } else {
            lemma_hit_goes_on(letters, dict, trail, start, ext, word);
        }
    }
    assert forall|word: Seq<char>| parts.contains(word) implies whole.contains(word) by {
        if hit_at_end(letters, dict, longer).contains(word) {
            let ext = seq![start];
            assert(trail + ext =~= longer);
            assert(continues(letters, dict, trail, start, ext, word));
        } else {
            let m = choose|m: int|
                0 <= m < 9 && m != 4 && #[trigger] hits_through(
                    letters,
                    dict,
                    longer,
                    neighbor(longer.last(), m),
                ).contains(word);
            lemma_hit_comes_back(letters, dict, trail, start, neighbor(longer.last(), m), word);
        }
    }
    assert(whole =~= parts);
}

/// One more neighbor adds the hits that go on there; the middle one, which
/// is the last cell of the trail itself, adds none.
proof fn lemma_hits_beyond_step(
    letters: Seq<char>,
    dict: Set<Seq<char>>,
    trail: Seq<Cell>,
    k: int,
)
    requires
        0 <= k,
    ensures
        hits_beyond(letters, dict, trail, 0) == Set::<Seq<char>>::empty(),
        k == 4 ==> hits_beyond(letters, dict, trail, k + 1) == hits_beyond(letters, dict, trail, k),
        k != 4 ==> hits_beyond(letters, dict, trail, k + 1) == hits_beyond(letters, dict, trail, k)
            + hits_through(letters, dict, trail, neighbor(trail.last(), k)),
{
    assert(hits_beyond(letters, dict, trail, 0) =~= Set::<Seq<char>>::empty());
    if k == 4 {
        assert(hits_beyond(letters, dict, trail, k + 1) =~= hits_beyond(letters, dict, trail, k));
    } else {
        assert(hits_beyond(letters, dict, trail, k + 1) =~= hits_beyond(letters, dict, trail, k)
            + hits_through(letters, dict, trail, neighbor(trail.last(), k)));
    }
}

/// One more first cell adds the hits whose walk begins there.
proof fn lemma_hits_from_step(letters: Seq<char>, dict: Set<Seq<char>>, n: int)
    requires
        0 <= n,
    ensures
        hits_from(letters, dict, 0) == Set::<Seq<char>>::empty(),
        hits_from(letters, dict, n + 1) == hits_from(letters, dict, n) + hits_through(
            letters,
            dict,
            Seq::empty(),
            cell_of(n),
        ),
{
    assert(hits_from(letters, dict, 0) =~= Set::<Seq<char>>::empty());
    assert(hits_from(letters, dict, n + 1) =~= hits_from(letters, dict, n) + hits_through(
        letters,
        dict,
        Seq::empty(),
        cell_of(n),
    ));
}

/// The hits are those whose walk begins at one of the sixteen cells.
proof fn lemma_hits_from_all(letters: Seq<char>, dict: Set<Seq<char>>, word: Seq<char>)
    ensures
        hits_from(letters, dict, 16).contains(word) <==> is_hit(letters, dict, word),
{
    let none = Seq::<Cell>::empty();
    if is_hit(letters, dict, word) {
        let cells = choose|cells: Seq<Cell>| traces(letters, cells, word);
        assert(cells.len() == word.len());
        let first = cells[0];
        assert(on_board(first));
        let s = 4 * first.0 + first.1;
        assert(cell_of(s) == first);
        assert(none + cells =~= cells);
        assert(continues(letters, dict, none, cell_of(s), cells, word));
        assert(hits_through(letters, dict, none, cell_of(s)).contains(word));
    }
    if hits_from(letters, dict, 16).contains(word) {
        let s = choose|s: int|
            0 <= s < 16 && #[trigger] hits_through(letters, dict, none, cell_of(s)).contains(word);
        let ext = choose|ext: Seq<Cell>| continues(letters, dict, none, cell_of(s), ext, word);
        assert(traces(letters, none + ext, word));
    }
}

/// Walks on from the cell in row `row` and column `col`, and adds to `found`
/// every hit whose walk begins with `trail` and goes on there. The path and
/// the marks are left as they were found.
fn dfs(
    row: usize,
    col: usize,
    path: &mut Vec<char>,
    visited: &mut [[bool; 4]; 4],
    grid: &Grid,
    node: &TrieNode,
    found: &mut WordSet,
    Ghost(trail): Ghost<Seq<Cell>>,
    Ghost(dict): Ghost<Set<Seq<char>>>,
)
    requires
        grid.wf(),
        old(found).wf(),
        on_walk(grid@, trail, old(path)@, *old(visited)),
        trail.len() > 0 ==> adjacent(trail.last(), (row as int, col as int)),
        hangs(*node, dict, old(path)@),
    ensures
        final(found).wf(),
        on_walk(grid@, trail, final(path)@, *final(visited)),
        final(found)@ == old(found)@ + hits_through(grid@, dict, trail, (row as int, col as int)),
    decreases 16 - trail.len(),
{
    let ghost here: Cell = (row as int, col as int);
    let ghost longer = trail.push(here);
    if row >= 4 || col >= 4 || visited[row][col] {
        proof {
            lemma_no_hit_at(grid@, dict, trail, here);
        }
        return ;
    }
    let c = match grid.get_char(row, col) {
        Some(c) => c,
        None => {
            return ;
        },
    };
    if c == BLANK {
        proof {
            lemma_no_hit_at(grid@, dict, trail, here);
        }
        return ;
    }
    let next = match node.child(c) {
        Some(next) => next,
        None => {
            proof {
                lemma_no_hit_pruned(grid@, dict, trail, here, *node);
            }
            return ;
        },
    };

    visited[row][col] = true;
    path.push(c);
    proof {
        lemma_walk_on(grid@, trail, here, old(path)@, *old(visited), *visited);
        lemma_hangs_child(*node, dict, old(path)@, c, *next);
        lemma_hits_beyond_step(grid@, dict, longer, 0);
    }

    if next.is_terminal() && path.len() >= MIN_WORD_LEN {
        found.insert(path);
    }
    let ghost base = found@;
    assert(base =~= old(found)@ + hit_at_end(grid@, dict, longer));

    let mut dr: i32 = -1;
    while dr <= 1
        invariant
            -1 <= dr <= 2,
            row < 4 && col < 4,
            grid.wf(),
            found.wf(),
            on_walk(grid@, longer, path@, *visited),
            longer == trail.push((row as int, col as int)),
            longer.len() <= 16,
            hangs(*next, dict, path@),
            found@ == base + hits_beyond(grid@, dict, longer, 3 * (dr + 1)),
        decreases 2 - dr,
    {
        let mut dc: i32 = -1;
        while dc <= 1
            invariant
                -1 <= dr <= 1,
                -1 <= dc <= 2,
                row < 4 && col < 4,
                grid.wf(),
                found.wf(),
                on_walk(grid@, longer, path@, *visited),
                longer == trail.push((row as int, col as int)),
                longer.len() <= 16,
                hangs(*next, dict, path@),
                found@ == base + hits_beyond(grid@, dict, longer, 3 * (dr + 1) + (dc + 1)),
            decreases 2 - dc,
        {
            let ghost k = 3 * (dr + 1) + (dc + 1);
            let ghost there = neighbor(longer.last(), k);
            proof {
                assert(there == (row + dr, col + dc));
                lemma_hits_beyond_step(grid@, dict, longer, k);
            }
            if !(dr == 0 && dc == 0) {
                let nr = row as i32 + dr;
                let nc = col as i32 + dc;
                if nr >= 0 && nr < 4 && nc >= 0 && nc < 4 {
                    dfs(
                        nr as usize,
                        nc as usize,
                        path,
                        visited,
                        grid,
                        next,
                        found,
                        Ghost(longer),
                        Ghost(dict),
                    );
                } else {
                    proof {
                        lemma_no_hit_at(grid@, dict, longer, there);
                    }
                }
                assert(found@ =~= base + hits_beyond(grid@, dict, longer, k + 1));
            }
            dc += 1;
        }
        dr += 1;
    }

    let ghost marked = *visited;
    visited[row][col] = false;
    path.pop();
    proof {
        lemma_walk_back(grid@, trail, here, spelled(grid@, longer), marked, *visited);
        lemma_hits_split(grid@, dict, trail, here);
        assert(found@ =~= old(found)@ + hits_through(grid@, dict, trail, here));
    }
}

/// Every dictionary word of at least three letters that a walk over touching
/// cells of the board spells, each once, longest first and words of one length
/// in dictionary order.
pub fn find_words(grid: &Grid, trie: &Trie) -> (words: Vec<String>)
    requires
        grid.wf(),
    ensures
        forall|w: Seq<char>| texts(words@).contains(w) <==> is_hit(grid@, trie@, w),
        is_ranked(texts(words@)),
        forall|i: int| 0 <= i < words.len() ==> (#[trigger] words[i])@.len() >= MIN_WORD_LEN,
        forall|i: int, j: int| 0 <= i < j < words.len() ==> words[i]@ != words[j]@,
        forall|i: int| 0 <= i < words.len() - 1 ==> in_order(words[i]@, #[trigger] words[i + 1]@),
        forall|i: int|
            0 <= i < words.len() ==> traceable(grid@, (#[trigger] words[i])@) && trie@.contains(
                words[i]@,
            ),
{
    let ghost dict = trie@;
    let ghost none = Seq::<Cell>::empty();
    let mut found = WordSet::new();
    let mut visited = [[false; 4]; 4];
    let root = trie.root();
    proof {
        assert forall|w: Seq<char>| #[trigger]
            root.accepts(w) == dict.contains(Seq::<char>::empty() + w) by {
            assert(Seq::<char>::empty() + w =~= w);
        }
        assert(spelled(grid@, none) =~= Seq::<char>::empty());
        lemma_hits_from_step(grid@, dict, 0);
        assert(found@ =~= hits_from(grid@, dict, 0));
    }

    let mut i: usize = 0;
    while i < 4
        invariant
            i <= 4,
            grid.wf(),
            found.wf(),
            none == Seq::<Cell>::empty(),
            on_walk(grid@, none, Seq::<char>::empty(), visited),
            hangs(*root, dict, Seq::<char>::empty()),
            found@ == hits_from(grid@, dict, 4 * i),
        decreases 4 - i,
    {
        let mut j: usize = 0;
        while j < 4
            invariant
                i < 4,
                j <= 4,
                grid.wf(),
                found.wf(),
                none == Seq::<Cell>::empty(),
                on_walk(grid@, none, Seq::<char>::empty(), visited),
                hangs(*root, dict, Seq::<char>::empty()),
                found@ == hits_from(grid@, dict, 4 * i + j),
            decreases 4 - j,
        {
            let mut path: Vec<char> = Vec::new();
            proof {
                assert(cell_of(4 * i + j) == (i as int, j as int));
                lemma_hits_from_step(grid@, dict, 4 * i + j);
            }
            dfs(i, j, &mut path, &mut visited, grid, root, &mut found, Ghost(none), Ghost(dict));
            j += 1;
        }
        i += 1;
    }

    let sorted = found.into_sorted();
    let mut words: Vec<String> = Vec::new();
    let mut k: usize = 0;
    while k < sorted.len()
        invariant
            k <= sorted.len(),
            texts(words@) == views(sorted@).take(k as int),
        decreases sorted.len() - k,
    {
        let word = text_of(&sorted[k]);
        let ghost before = texts(words@);
        words.push(word);
        proof {
            assert(texts(words@) =~= before.push(word@));
            assert(views(sorted@).take(k + 1) =~= views(sorted@).take(k as int).push(
                sorted@[k as int]@,
            ));
        }
        k += 1;
    }

    proof {
        assert(views(sorted@).take(sorted@.len() as int) =~= views(sorted@));
        assert forall|w: Seq<char>| texts(words@).contains(w) <==> is_hit(grid@, dict, w) by {
            assert(texts(words@).to_set().contains(w) <==> texts(words@).contains(w));
            lemma_hits_from_all(grid@, dict, w);
        }
        assert forall|i: int| 0 <= i < words.len() implies is_hit(
            grid@,
            dict,
            (#[trigger] words[i])@,
        ) by {
            assert(texts(words@)[i] == words[i]@);
            assert(texts(words@).contains(words[i]@));
        }
        assert forall|i: int, j: int| 0 <= i < j < words.len() implies words[i]@ != words[j]@ by {
            assert(ranks_before(texts(words@)[i], texts(words@)[j]));
            lemma_ranks_before_irreflexive(words[i]@);
        }
        assert forall|i: int| 0 <= i < words.len() - 1 implies in_order(
            words[i]@,
            #[trigger] words[i + 1]@,
        ) by {
            assert(ranks_before(texts(words@)[i], texts(words@)[i + 1]));
        }
    }
    words
}

/// The board and the dictionary decide the listing: two listings that hold
/// the hits and are ranked are the same listing.
pub proof fn lemma_listing_is_determined(
    letters: Seq<char>,
    dict: Set<Seq<char>>,
    a: Seq<Seq<char>>,
    b: Seq<Seq<char>>,
)
    requires
        forall|w: Seq<char>| a.contains(w) <==> is_hit(letters, dict, w),
        forall|w: Seq<char>| b.contains(w) <==> is_hit(letters, dict, w),
        is_ranked(a),
        is_ranked(b),
    ensures
        a == b,
{
    assert(a.to_set() =~= b.to_set());
    lemma_ranked_listing_is_unique(a, b);
}

} // verus!
