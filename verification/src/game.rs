//! The minesweeper game engine: a rectangular board of cells, lazily
//! randomized mine placement that keeps the first revealed cell safe,
//! flood-fill reveal, flag cycling, chording, and win/loss detection.

use vstd::prelude::*;

use rand::seq::SliceRandom;

use crate::counting::{
    count_matching, lemma_count_bounds, lemma_count_complement, lemma_count_le, lemma_count_lt,
    lemma_count_lt_len, lemma_count_none, lemma_count_pointwise, lemma_count_pos,
    lemma_count_take_all, lemma_count_take_step, lemma_count_update,
};

verus! {

/// The three fixed board presets.
#[derive(Clone, Copy, PartialEq, Eq, Structural, Debug)]
pub enum Difficulty {
    Beginner,
    Intermediate,
    Expert,
}

impl Difficulty {
    /// The (rows, cols, mines) triple of this preset.
    pub open spec fn spec_config(self) -> (u32, u32, u32) {
        match self {
            Difficulty::Beginner => (9, 9, 10),
            Difficulty::Intermediate => (16, 16, 40),
            Difficulty::Expert => (16, 30, 99),
        }
    }

    /// Board dimensions and mine count for this preset.
    pub fn config(&self) -> (cfg: (u32, u32, u32))
        ensures
            cfg == self.spec_config(),
            0 < cfg.2 < cfg.0 * cfg.1,
            1 <= cfg.0,
            1 <= cfg.1,
            cfg.0 * cfg.1 <= 480,
    {
        match self {
            Difficulty::Beginner => (9, 9, 10),
            Difficulty::Intermediate => (16, 16, 40),
            Difficulty::Expert => (16, 30, 99),
        }
    }
}

/// What a cell holds once mines are placed: nothing, a mine, or the
/// count of mines among its neighbors (always in 1..=8).
#[derive(Clone, Copy, PartialEq, Eq, Structural, Debug)]
pub enum CellContent {
    Empty,
    Mine,
    Number(u8),
}

/// What the player has done to a cell so far.
#[derive(Clone, Copy, PartialEq, Eq, Structural, Debug)]
pub enum CellState {
    Hidden,
    Revealed,
    Flagged,
    QuestionMark,
}

/// One grid position. `exploded` marks the single detonated mine after a
/// loss; `wrong_flag` marks a flagged non-mine cell after a loss.
#[derive(Clone, Copy, PartialEq, Eq, Structural, Debug)]
pub struct Cell {
    pub content: CellContent,
    pub state: CellState,
    pub exploded: bool,
    pub wrong_flag: bool,
}

impl Cell {
    /// The state every cell starts in: empty content, hidden, unmarked.
    pub open spec fn blank() -> Cell {
        Cell {
            content: CellContent::Empty,
            state: CellState::Hidden,
            exploded: false,
            wrong_flag: false,
        }
    }

    /// A fresh hidden, empty cell.
    pub fn new() -> (c: Cell)
        ensures
            c == Cell::blank(),
    {
        Cell {
            content: CellContent::Empty,
            state: CellState::Hidden,
            exploded: false,
            wrong_flag: false,
        }
    }
}

/// The lifecycle of one game. `Won` and `Lost` are terminal.
#[derive(PartialEq, Eq, Structural, Debug, Clone, Copy)]
pub enum GameStatus {
    NotStarted,
    Playing,
    Won,
    Lost,
}

/// `c` with its state replaced by `s`.
pub open spec fn with_state(c: Cell, s: CellState) -> Cell {
    Cell { state: s, ..c }
}

/// `c` with its content replaced by `k`.
pub open spec fn with_content(c: Cell, k: CellContent) -> Cell {
    Cell { content: k, ..c }
}

/// `c` revealed.
pub open spec fn reveal_cell(c: Cell) -> Cell {
    Cell { state: CellState::Revealed, ..c }
}

/// How a loss finalizes one cell: unflagged mines become visible, and a
/// flag on a non-mine is exposed as wrong. Flagged mines keep their flag.
pub open spec fn lost_cell(c: Cell) -> Cell {
    if c.content is Mine && !(c.state is Flagged) {
        Cell { state: CellState::Revealed, ..c }
    } else if !(c.content is Mine) && c.state is Flagged {
        Cell { state: CellState::Revealed, wrong_flag: true, ..c }
    } else {
        c
    }
}

/// How a win finalizes one cell: every mine ends up flagged.
pub open spec fn won_cell(c: Cell) -> Cell {
    if c.content is Mine {
        Cell { state: CellState::Flagged, ..c }
    } else {
        c
    }
}

/// The whole board after a loss, cell by cell.
pub open spec fn mines_shown(s: Seq<Cell>) -> Seq<Cell> {
    Seq::new(s.len(), |i: int| lost_cell(s[i]))
}

/// The whole board after a win, cell by cell.
pub open spec fn mines_flagged(s: Seq<Cell>) -> Seq<Cell> {
    Seq::new(s.len(), |i: int| won_cell(s[i]))
}

/// How many cells of `s` hold a mine.
pub open spec fn count_mines(s: Seq<Cell>) -> int {
    count_matching(s, |c: Cell| c.content is Mine)
}

/// How many cells of `s` are currently flagged.
pub open spec fn count_flagged(s: Seq<Cell>) -> int {
    count_matching(s, |c: Cell| c.state is Flagged)
}

/// How many cells of `s` are revealed.
pub open spec fn count_revealed(s: Seq<Cell>) -> int {
    count_matching(s, |c: Cell| c.state is Revealed)
}

/// Row-major index of position (r, c) on a board with `cols` columns.
pub open spec fn grid_idx(cols: int, r: int, c: int) -> int {
    r * cols + c
}

/// Whether (r, c) lies on an `rows` x `cols` board.
pub open spec fn grid_in_bounds(rows: int, cols: int, r: int, c: int) -> bool {
    0 <= r < rows && 0 <= c < cols
}

/// Whether (nr, nc) is one of the up to eight in-bounds neighbors of (r, c).
pub open spec fn adj(rows: int, cols: int, r: int, c: int, nr: int, nc: int) -> bool {
    &&& grid_in_bounds(rows, cols, nr, nc)
    &&& !(nr == r && nc == c)
    &&& -1 <= nr - r <= 1
    &&& -1 <= nc - c <= 1
}

/// The cell at position (r, c) of a flat row-major cell array.
pub open spec fn cell_at_pos(cells: Seq<Cell>, cols: int, r: int, c: int) -> Cell {
    cells[grid_idx(cols, r, c)]
}

/// 1 if (r, c) is an in-bounds mine cell, else 0.
pub open spec fn mine_at(cells: Seq<Cell>, rows: int, cols: int, r: int, c: int) -> int {
    if grid_in_bounds(rows, cols, r, c) && cell_at_pos(cells, cols, r, c).content is Mine {
        1
    } else {
        0
    }
}

/// The number of mines among the neighbors of (r, c).
pub open spec fn adjacent_mines(cells: Seq<Cell>, rows: int, cols: int, r: int, c: int) -> int {
    mine_at(cells, rows, cols, r - 1, c - 1) + mine_at(cells, rows, cols, r - 1, c) + mine_at(
        cells,
        rows,
        cols,
        r - 1,
        c + 1,
    ) + mine_at(cells, rows, cols, r, c - 1) + mine_at(cells, rows, cols, r, c + 1) + mine_at(
        cells,
        rows,
        cols,
        r + 1,
        c - 1,
    ) + mine_at(cells, rows, cols, r + 1, c) + mine_at(cells, rows, cols, r + 1, c + 1)
}

/// 1 if (r, c) is an in-bounds flagged cell, else 0.
pub open spec fn flag_at(cells: Seq<Cell>, rows: int, cols: int, r: int, c: int) -> int {
    if grid_in_bounds(rows, cols, r, c) && cell_at_pos(cells, cols, r, c).state is Flagged {
        1
    } else {
        0
    }
}

/// The number of flags among the neighbors of (r, c).
pub open spec fn adjacent_flags(cells: Seq<Cell>, rows: int, cols: int, r: int, c: int) -> int {
    flag_at(cells, rows, cols, r - 1, c - 1) + flag_at(cells, rows, cols, r - 1, c) + flag_at(
        cells,
        rows,
        cols,
        r - 1,
        c + 1,
    ) + flag_at(cells, rows, cols, r, c - 1) + flag_at(cells, rows, cols, r, c + 1) + flag_at(
        cells,
        rows,
        cols,
        r + 1,
        c - 1,
    ) + flag_at(cells, rows, cols, r + 1, c) + flag_at(cells, rows, cols, r + 1, c + 1)
}

/// The hint at one position is consistent: a non-mine cell holds
/// `Number(n)` when n > 0 mines are adjacent, `Empty` when none are.
pub open spec fn number_ok(cells: Seq<Cell>, rows: int, cols: int, r: int, c: int) -> bool {
    !(cell_at_pos(cells, cols, r, c).content is Mine) ==> cell_at_pos(cells, cols, r, c).content
        == (if adjacent_mines(cells, rows, cols, r, c) == 0 {
        CellContent::Empty
    } else {
        CellContent::Number(adjacent_mines(cells, rows, cols, r, c) as u8)
    })
}

/// Every non-mine cell's content records its neighbor mine count.
pub open spec fn numbers_correct(cells: Seq<Cell>, rows: int, cols: int) -> bool {
    forall|r: int, c: int|
        grid_in_bounds(rows, cols, r, c) ==> #[trigger] number_ok(cells, rows, cols, r, c)
}

/// No revealed cell holds a mine.
pub open spec fn revealed_safe(cells: Seq<Cell>) -> bool {
    forall|i: int|
        0 <= i < cells.len() ==> ((#[trigger] cells[i]).state is Revealed ==> !(
        cells[i].content is Mine))
}

/// No cell carries an end-of-game mark.
pub open spec fn no_marks(cells: Seq<Cell>) -> bool {
    forall|i: int|
        0 <= i < cells.len() ==> (!(#[trigger] cells[i]).exploded && !cells[i].wrong_flag)
}

/// Every cell is still empty, unrevealed and unmarked, as before the
/// first reveal; flags and question marks are allowed.
pub open spec fn all_unstarted(cells: Seq<Cell>) -> bool {
    forall|i: int|
        0 <= i < cells.len() ==> ((#[trigger] cells[i]).content is Empty
            && !(cells[i].state is Revealed) && !cells[i].exploded && !cells[i].wrong_flag)
}

/// A valid row-major index is decomposed by division into in-bounds
/// coordinates, and composition is the inverse of that decomposition.
pub proof fn lemma_grid_index_bounds(r: int, c: int, rows: int, cols: int)
    requires
        grid_in_bounds(rows, cols, r, c),
    ensures
        0 <= grid_idx(cols, r, c) < rows * cols,
{
    assert(0 <= r * cols + c < rows * cols) by (nonlinear_arith)
        requires
            0 <= r < rows,
            0 <= c < cols,
    ;
}

/// Distinct in-bounds positions get distinct row-major indices.
pub proof fn lemma_grid_index_injective(cols: int, r1: int, c1: int, r2: int, c2: int)
    requires
        0 <= r1,
        0 <= r2,
        0 <= c1 < cols,
        0 <= c2 < cols,
        grid_idx(cols, r1, c1) == grid_idx(cols, r2, c2),
    ensures
        r1 == r2 && c1 == c2,
{
    assert(r1 == r2 && c1 == c2) by (nonlinear_arith)
        requires
            0 <= r1,
            0 <= r2,
            0 <= c1 < cols,
            0 <= c2 < cols,
            r1 * cols + c1 == r2 * cols + c2,
    ;
}

/// Every index below rows * cols is the row-major index of the in-bounds
/// position obtained by dividing it by the column count.
pub proof fn lemma_grid_coords(i: int, rows: int, cols: int)
    requires
        0 < cols,
        0 <= i < rows * cols,
    ensures
        grid_in_bounds(rows, cols, i / cols, i % cols),
        grid_idx(cols, i / cols, i % cols) == i,
{
    assert(0 <= i % cols < cols && (i / cols) * cols + i % cols == i && 0 <= i / cols < rows)
        by (nonlinear_arith)
        requires
            0 < cols,
            0 <= i < rows * cols,
    ;
}

/// A mine either side: two boards whose cells agree on where the mines
/// are have the same mine indicator at every position.
pub proof fn lemma_mine_at_stable(a: Seq<Cell>, b: Seq<Cell>, rows: int, cols: int, r: int, c: int)
    requires
        a.len() == rows * cols,
        b.len() == a.len(),
        forall|i: int| 0 <= i < a.len() ==> ((#[trigger] a[i]).content is Mine <==> b[i].content is Mine),
    ensures
        mine_at(a, rows, cols, r, c) == mine_at(b, rows, cols, r, c),
{
    if grid_in_bounds(rows, cols, r, c) {
        lemma_grid_index_bounds(r, c, rows, cols);
    }
}

/// Two boards whose cells agree on where the mines are give every
/// position the same neighbor mine count.
pub proof fn lemma_adjacent_mines_stable(
    a: Seq<Cell>,
    b: Seq<Cell>,
    rows: int,
    cols: int,
    r: int,
    c: int,
)
    requires
        a.len() == rows * cols,
        b.len() == a.len(),
        forall|i: int| 0 <= i < a.len() ==> ((#[trigger] a[i]).content is Mine <==> b[i].content is Mine),
    ensures
        adjacent_mines(a, rows, cols, r, c) == adjacent_mines(b, rows, cols, r, c),
{
    lemma_mine_at_stable(a, b, rows, cols, r - 1, c - 1);
    lemma_mine_at_stable(a, b, rows, cols, r - 1, c);
    lemma_mine_at_stable(a, b, rows, cols, r - 1, c + 1);
    lemma_mine_at_stable(a, b, rows, cols, r, c - 1);
    lemma_mine_at_stable(a, b, rows, cols, r, c + 1);
    lemma_mine_at_stable(a, b, rows, cols, r + 1, c - 1);
    lemma_mine_at_stable(a, b, rows, cols, r + 1, c);
    lemma_mine_at_stable(a, b, rows, cols, r + 1, c + 1);
}

/// Hints stay correct on any board whose cells keep their contents,
/// whatever happens to the cells' player-visible state.
pub proof fn lemma_numbers_correct_stable(a: Seq<Cell>, b: Seq<Cell>, rows: int, cols: int)
    requires
        a.len() == rows * cols,
        b.len() == a.len(),
        forall|i: int| 0 <= i < a.len() ==> (#[trigger] b[i]).content == a[i].content,
        numbers_correct(a, rows, cols),
    ensures
        numbers_correct(b, rows, cols),
{
    assert forall|r: int, c: int|
        grid_in_bounds(rows, cols, r, c) implies #[trigger] number_ok(b, rows, cols, r, c) by {
        lemma_grid_index_bounds(r, c, rows, cols);
        assert(number_ok(a, rows, cols, r, c));
        lemma_adjacent_mines_stable(a, b, rows, cols, r, c);
    }
}

/// Position of the offset (nr - r, nc - c) in the row-major walk of the
/// 3 x 3 block around (r, c).
pub open spec fn offset_rank(r: int, c: int, nr: int, nc: int) -> int {
    (nr - r + 1) * 3 + (nc - c + 1)
}

/// How many cells of `s` are still hidden (the flood fill's termination
/// measure).
pub open spec fn count_hidden(s: Seq<Cell>) -> int {
    count_matching(s, |c: Cell| c.state is Hidden)
}

/// Membership in the flood-fill expansion region within n steps: (r, c)
/// is the start cell, or a hidden empty cell adjacent to a cell the
/// expansion reaches in fewer steps.
pub open spec fn expanded(
    cells: Seq<Cell>,
    rows: int,
    cols: int,
    sr: int,
    sc: int,
    r: int,
    c: int,
    n: nat,
) -> bool
    decreases n,
{
    (r == sr && c == sc) || (n > 0 && cell_at_pos(cells, cols, r, c).state is Hidden
        && cell_at_pos(cells, cols, r, c).content is Empty && exists|pr: int, pc: int|
        #[trigger] adj(rows, cols, pr, pc, r, c) && expanded(
            cells,
            rows,
            cols,
            sr,
            sc,
            pr,
            pc,
            (n - 1) as nat,
        ))
}

/// The region a flood fill from (sr, sc) expands: the start cell and
/// every hidden empty cell connected to it through hidden empty cells.
pub open spec fn in_component(
    cells: Seq<Cell>,
    rows: int,
    cols: int,
    sr: int,
    sc: int,
    r: int,
    c: int,
) -> bool {
    exists|n: nat| expanded(cells, rows, cols, sr, sc, r, c, n)
}

/// Whether a flood fill from (sr, sc) reveals the cell (r, c): it is
/// hidden and borders the expanded region.
pub open spec fn fill_reveals(
    cells: Seq<Cell>,
    rows: int,
    cols: int,
    sr: int,
    sc: int,
    r: int,
    c: int,
) -> bool {
    &&& cell_at_pos(cells, cols, r, c).state is Hidden
    &&& exists|pr: int, pc: int|
        #[trigger] adj(rows, cols, pr, pc, r, c) && in_component(cells, rows, cols, sr, sc, pr, pc)
}

/// The whole board after a flood fill from (sr, sc): exactly the hidden
/// cells bordering the expanded region — the region itself and the hint
/// cells on its rim — become revealed; nothing else changes.
pub open spec fn filled(cells: Seq<Cell>, rows: int, cols: int, sr: int, sc: int) -> Seq<Cell> {
    Seq::new(
        cells.len(),
        |i: int|
            if fill_reveals(cells, rows, cols, sr, sc, i / cols, i % cols) {
                reveal_cell(cells[i])
            } else {
                cells[i]
            },
    )
}

/// A cell bordering a cell whose mine hint is zero is not a mine.
pub proof fn lemma_no_adjacent_mine(
    cells: Seq<Cell>,
    rows: int,
    cols: int,
    pr: int,
    pc: int,
    r: int,
    c: int,
)
    requires
        cells.len() == rows * cols,
        adjacent_mines(cells, rows, cols, pr, pc) == 0,
        adj(rows, cols, pr, pc, r, c),
    ensures
        !(cell_at_pos(cells, cols, r, c).content is Mine),
{
    lemma_grid_index_bounds(r, c, rows, cols);
    assert(mine_at(cells, rows, cols, r, c) == 0);
}

/// Once the flood fill's work list is empty, every cell of the expanded
/// region has been revealed: by induction over the expansion depth,
/// using that each settled region cell has no hidden neighbors left.
pub proof fn lemma_component_revealed(
    pre: Seq<Cell>,
    now: Seq<Cell>,
    rows: int,
    cols: int,
    sr: int,
    sc: int,
    r: int,
    c: int,
    n: nat,
)
    requires
        pre.len() == rows * cols,
        now.len() == pre.len(),
        grid_in_bounds(rows, cols, sr, sc),
        cell_at_pos(pre, cols, sr, sc).content is Empty,
        cell_at_pos(now, cols, sr, sc).state is Revealed,
        forall|ar: int, ac: int|
            grid_in_bounds(rows, cols, ar, ac) ==> (#[trigger] cell_at_pos(now, cols, ar, ac)
                == cell_at_pos(pre, cols, ar, ac) || (cell_at_pos(
                pre,
                cols,
                ar,
                ac,
            ).state is Hidden && cell_at_pos(now, cols, ar, ac) == reveal_cell(
                cell_at_pos(pre, cols, ar, ac),
            ))),
        forall|ar: int, ac: int, qr: int, qc: int|
            grid_in_bounds(rows, cols, ar, ac) && ((ar == sr && ac == sc) || (cell_at_pos(
                pre,
                cols,
                ar,
                ac,
            ).state is Hidden && cell_at_pos(now, cols, ar, ac).state is Revealed && cell_at_pos(
                pre,
                cols,
                ar,
                ac,
            ).content is Empty)) && #[trigger] adj(rows, cols, ar, ac, qr, qc) ==> !(cell_at_pos(
                now,
                cols,
                qr,
                qc,
            ).state is Hidden),
        expanded(pre, rows, cols, sr, sc, r, c, n),
    ensures
        cell_at_pos(now, cols, r, c).state is Revealed,
    decreases n,
{
    if r == sr && c == sc {
    } else {
        let (pr, pc) = choose|pr: int, pc: int|
            #[trigger] adj(rows, cols, pr, pc, r, c) && expanded(
                pre,
                rows,
                cols,
                sr,
                sc,
                pr,
                pc,
                (n - 1) as nat,
            );
        lemma_component_revealed(pre, now, rows, cols, sr, sc, pr, pc, (n - 1) as nat);
        assert(!(cell_at_pos(now, cols, r, c).state is Hidden));
    }
}

/// How a non-losing reveal that produced the cell array `s` ends: if `s`
/// has every cell but the mines revealed, the game is won — the mines
/// are flagged and the flag counter lands on the mine count; otherwise
/// play continues with exactly `s` on the board.
pub open spec fn after_reveal_step(orig: Minesweeper, s: Seq<Cell>, post: Minesweeper) -> bool {
    if count_revealed(s) == orig.total() - orig.mines {
        &&& post.status is Won
        &&& post.flags_placed == orig.mines
        &&& revealed_safe(s)
        &&& post.cells@ == mines_flagged(s)
    } else {
        &&& post.status is Playing
        &&& post.flags_placed == orig.flags_placed
        &&& post.cells@ == s
    }
}

/// What a won move leaves behind: the board `mid` it completed — a
/// monotone extension of the original in which only hidden or
/// question-marked cells became revealed, no mine among them — has every
/// cell but the mines revealed, and the game finalizes it by flagging
/// the mines, with the flag counter set to the mine count.
pub open spec fn win_outcome(orig: Minesweeper, mid: Seq<Cell>, post: Minesweeper) -> bool {
    &&& mid.len() == orig.cells@.len()
    &&& forall|i: int|
        0 <= i < mid.len() ==> ((#[trigger] mid[i]) == orig.cells@[i] || ((
        orig.cells@[i].state is Hidden || orig.cells@[i].state is QuestionMark) && mid[i]
            == reveal_cell(orig.cells@[i])))
    &&& revealed_safe(mid)
    &&& count_revealed(mid) == orig.total() - orig.mines
    &&& post.cells@ == mines_flagged(mid)
    &&& post.flags_placed == orig.mines
}

/// What the first reveal of a game does: some generated board `mid` —
/// the old board with contents filled in so that exactly `mines` cells
/// hold mines, every hint is correct, and the clicked cell is safe —
/// undergoes the very same reveal step a reveal during play performs.
pub open spec fn first_reveal_outcome(
    orig: Minesweeper,
    mid: Seq<Cell>,
    r: int,
    c: int,
    post: Minesweeper,
) -> bool {
    let i0 = orig.idx(r, c);
    let revealed_cells = mid.update(i0, reveal_cell(mid[i0]));
    &&& mid.len() == orig.cells@.len()
    &&& forall|i: int|
        0 <= i < mid.len() ==> ((#[trigger] mid[i]).state == orig.cells@[i].state
            && mid[i].exploded == orig.cells@[i].exploded && mid[i].wrong_flag
            == orig.cells@[i].wrong_flag)
    &&& count_mines(mid) == orig.mines
    &&& numbers_correct(mid, orig.rows as int, orig.cols as int)
    &&& !(mid[i0].content is Mine)
    &&& (mid[i0].content is Number ==> after_reveal_step(orig, revealed_cells, post))
    &&& (mid[i0].content is Empty ==> after_reveal_step(
        orig,
        filled(revealed_cells, orig.rows as int, orig.cols as int, r, c),
        post,
    ))
}

/// A neighbor list is pinned by its contract: two sequences that each
/// hold exactly the members of one set of positions in the 3 x 3 block
/// around (row, col), both ordered by offset rank, are the same
/// sequence. With the contract of `neighbors`, this makes its result a
/// function of the board dimensions and the queried position alone.
pub proof fn lemma_neighbor_list_unique(
    row: int,
    col: int,
    m: spec_fn((u32, u32)) -> bool,
    s1: Seq<(u32, u32)>,
    s2: Seq<(u32, u32)>,
)
    requires
        forall|q: (u32, u32)|
            #[trigger] m(q) ==> -1 <= q.0 as int - row <= 1 && -1 <= q.1 as int - col <= 1,
        forall|k: int| 0 <= k < s1.len() ==> m(#[trigger] s1[k]),
        forall|q: (u32, u32)| #[trigger] m(q) ==> s1.contains(q),
        forall|k1: int, k2: int|
            0 <= k1 < k2 < s1.len() ==> offset_rank(
                row,
                col,
                (#[trigger] s1[k1]).0 as int,
                s1[k1].1 as int,
            ) < offset_rank(row, col, (#[trigger] s1[k2]).0 as int, s1[k2].1 as int),
        forall|k: int| 0 <= k < s2.len() ==> m(#[trigger] s2[k]),
        forall|q: (u32, u32)| #[trigger] m(q) ==> s2.contains(q),
        forall|k1: int, k2: int|
            0 <= k1 < k2 < s2.len() ==> offset_rank(
                row,
                col,
                (#[trigger] s2[k1]).0 as int,
                s2[k1].1 as int,
            ) < offset_rank(row, col, (#[trigger] s2[k2]).0 as int, s2[k2].1 as int),
    ensures
        s1 == s2,
    decreases s1.len(),
{
    if s1.len() == 0 {
        if s2.len() > 0 {
            assert(m(s2[0]));
            assert(s1.contains(s2[0]));
        }
        assert(s1 =~= s2);
    } else {
        assert(m(s1[0]));
        assert(s2.contains(s1[0]));
        assert(s2.len() > 0);
        // each head is the rank-minimal member, so the heads agree
        assert forall|q: (u32, u32)| #[trigger] m(q) implies offset_rank(
            row,
            col,
            s1[0].0 as int,
            s1[0].1 as int,
        ) <= offset_rank(row, col, q.0 as int, q.1 as int) by {
            assert(s1.contains(q));
            let k = choose|k: int| 0 <= k < s1.len() && s1[k] == q;
        }
        assert forall|q: (u32, u32)| #[trigger] m(q) implies offset_rank(
            row,
            col,
            s2[0].0 as int,
            s2[0].1 as int,
        ) <= offset_rank(row, col, q.0 as int, q.1 as int) by {
            assert(s2.contains(q));
            let k = choose|k: int| 0 <= k < s2.len() && s2[k] == q;
        }
        assert(m(s2[0]));
        assert(s1[0].0 as int == s2[0].0 as int && s1[0].1 as int == s2[0].1 as int);
        assert(s1[0] == s2[0]);
        // the tails list the remaining members, still in rank order
        let m2 = |q: (u32, u32)| m(q) && q != s1[0];
        let t1 = s1.drop_first();
        let t2 = s2.drop_first();
        assert forall|q: (u32, u32)| #[trigger] m2(q) implies t1.contains(q) by {
            assert(s1.contains(q));
            let k = choose|k: int| 0 <= k < s1.len() && s1[k] == q;
            assert(k != 0);
            assert(t1[k - 1] == q);
        }
        assert forall|q: (u32, u32)| #[trigger] m2(q) implies t2.contains(q) by {
            assert(s2.contains(q));
            let k = choose|k: int| 0 <= k < s2.len() && s2[k] == q;
            assert(k != 0);
            assert(t2[k - 1] == q);
        }
        assert forall|k: int| 0 <= k < t1.len() implies m2(#[trigger] t1[k]) by {
            assert(t1[k] == s1[k + 1]);
        }
        assert forall|k: int| 0 <= k < t2.len() implies m2(#[trigger] t2[k]) by {
            assert(t2[k] == s2[k + 1]);
        }
        lemma_neighbor_list_unique(row, col, m2, t1, t2);
        assert forall|k: int| 0 <= k < s1.len() implies #[trigger] s1[k] == s2[k] by {
            if k > 0 {
                assert(t1[k - 1] == t2[k - 1]);
            }
        }
        assert(s1 =~= s2);
    }
}

/// Whether a chord at (r, c) has a mine to hit: some neighbor that is
/// still hidden or question-marked holds a mine.
pub open spec fn chord_hits_mine(b: Minesweeper, r: int, c: int) -> bool {
    exists|qr: int, qc: int|
        #[trigger] b.is_neighbor(r, c, qr, qc) && (b.cell_at(qr, qc).state is Hidden || b.cell_at(
            qr,
            qc,
        ).state is QuestionMark) && b.cell_at(qr, qc).content is Mine
}

/// What a lost chord leaves behind: the safe reveals made before the
/// detonation form a monotone extension `mid` of the original board that
/// exposes no mine; the detonated cell (er, ec) is the first
/// still-unrevealed, unflagged mine neighbor in traversal order; and the
/// final board is the loss finalization of `mid` with that cell revealed
/// and marked exploded.
pub open spec fn chord_loss_outcome(
    orig: Minesweeper,
    r: int,
    c: int,
    er: int,
    ec: int,
    mid: Seq<Cell>,
    post: Minesweeper,
) -> bool {
    &&& orig.is_neighbor(r, c, er, ec)
    &&& orig.cell_at(er, ec).content is Mine
    &&& (orig.cell_at(er, ec).state is Hidden || orig.cell_at(er, ec).state is QuestionMark)
    &&& (forall|qr: int, qc: int|
        orig.is_neighbor(r, c, qr, qc) && ((#[trigger] orig.cell_at(qr, qc)).state is Hidden
            || orig.cell_at(qr, qc).state is QuestionMark) && orig.cell_at(qr, qc).content is Mine
            ==> offset_rank(r, c, er, ec) <= offset_rank(r, c, qr, qc))
    &&& mid.len() == orig.cells@.len()
    &&& forall|i: int|
        0 <= i < mid.len() ==> ((#[trigger] mid[i]) == orig.cells@[i] || ((
        orig.cells@[i].state is Hidden || orig.cells@[i].state is QuestionMark) && mid[i]
            == reveal_cell(orig.cells@[i])))
    &&& revealed_safe(mid)
    &&& post.cells@ == mines_shown(
        mid.update(
            orig.idx(er, ec),
            (Cell { state: CellState::Revealed, exploded: true, ..orig.cell_at(er, ec) }),
        ),
    )
    &&& post.flags_placed == orig.flags_placed
}

/// When the flags around a cell number as many as its adjacent mines,
/// yet some adjacent mine carries no flag, one of the flags must sit on
/// a non-mine neighbor.
pub proof fn lemma_wrong_flag_exists(
    cells: Seq<Cell>,
    rows: int,
    cols: int,
    r: int,
    c: int,
    qr: int,
    qc: int,
)
    requires
        cells.len() == rows * cols,
        adjacent_flags(cells, rows, cols, r, c) == adjacent_mines(cells, rows, cols, r, c),
        adj(rows, cols, r, c, qr, qc),
        mine_at(cells, rows, cols, qr, qc) == 1,
        flag_at(cells, rows, cols, qr, qc) == 0,
    ensures
        exists|pr: int, pc: int|
            #[trigger] adj(rows, cols, r, c, pr, pc) && flag_at(cells, rows, cols, pr, pc) == 1
                && mine_at(cells, rows, cols, pr, pc) == 0,
{
    if !(exists|pr: int, pc: int|
        #[trigger] adj(rows, cols, r, c, pr, pc) && flag_at(cells, rows, cols, pr, pc) == 1
            && mine_at(cells, rows, cols, pr, pc) == 0) {
        assert forall|pr: int, pc: int|
            #[trigger] adj(rows, cols, r, c, pr, pc) implies flag_at(cells, rows, cols, pr, pc)
            <= mine_at(cells, rows, cols, pr, pc) by {}
        assert(flag_at(cells, rows, cols, r - 1, c - 1) <= mine_at(cells, rows, cols, r - 1, c - 1)
            && flag_at(cells, rows, cols, r - 1, c) <= mine_at(cells, rows, cols, r - 1, c)
            && flag_at(cells, rows, cols, r - 1, c + 1) <= mine_at(cells, rows, cols, r - 1, c + 1)
            && flag_at(cells, rows, cols, r, c - 1) <= mine_at(cells, rows, cols, r, c - 1)
            && flag_at(cells, rows, cols, r, c + 1) <= mine_at(cells, rows, cols, r, c + 1)
            && flag_at(cells, rows, cols, r + 1, c - 1) <= mine_at(cells, rows, cols, r + 1, c - 1)
            && flag_at(cells, rows, cols, r + 1, c) <= mine_at(cells, rows, cols, r + 1, c)
            && flag_at(cells, rows, cols, r + 1, c + 1) <= mine_at(
            cells,
            rows,
            cols,
            r + 1,
            c + 1,
        )) by {
            assert forall|pr: int, pc: int|
                -1 <= pr - r <= 1 && -1 <= pc - c <= 1 && !(pr == r && pc == c) implies flag_at(
                cells,
                rows,
                cols,
                pr,
                pc,
            ) <= mine_at(cells, rows, cols, pr, pc) by {
                if grid_in_bounds(rows, cols, pr, pc) {
                    assert(adj(rows, cols, r, c, pr, pc));
                }
            }
        }
        assert(false);
    }
}

/// Winning is exact: a well-formed board in play whose revealed-cell
/// count has reached `rows * cols - mines` has every non-mine cell
/// revealed and no mine revealed, so the auto-flagging that `reveal_at`
/// performs on a win flags exactly the unrevealed remainder.
pub proof fn lemma_win_is_exact(b: Minesweeper)
    requires
        b.wf(),
        b.status is Playing,
        b.is_win(),
    ensures
        forall|i: int|
            0 <= i < b.cells@.len() ==> (!((#[trigger] b.cells@[i]).content is Mine)
                ==> b.cells@[i].state is Revealed),
        forall|i: int|
            0 <= i < b.cells@.len() ==> ((#[trigger] b.cells@[i]).content is Mine ==> !(
            b.cells@[i].state is Revealed)),
{
    let s = b.cells@;
    lemma_count_complement(s, |c: Cell| c.content is Mine, |c: Cell| !(c.content is Mine));
    lemma_count_le(s, |c: Cell| c.state is Revealed, |c: Cell| !(c.content is Mine));
    assert forall|i: int|
        0 <= i < s.len() && !((#[trigger] s[i]).content is Mine) implies s[i].state is Revealed by {
        if !(s[i].state is Revealed) {
            lemma_count_lt(s, |c: Cell| c.state is Revealed, |c: Cell| !(c.content is Mine), i);
        }
    }
}

/// While a game can still be played, the flag counter agrees exactly
/// with the number of cells currently flagged on the board.
pub proof fn lemma_flag_counter_exact(b: Minesweeper)
    requires
        b.wf(),
        b.status is NotStarted || b.status is Playing,
    ensures
        b.flags_placed == count_flagged(b.cells@),
{
}

/// The thread-local random generator of the `rand` crate, declared so
/// that a handle to it can pass through the engine.
#[verifier::external_type_specification]
#[verifier::external_body]
pub struct ExThreadRng(rand::rngs::ThreadRng);

/// Relies on rand::rng: it hands out the calling thread's generator. It
/// returns no data the contracts could speak of; it panics only when the
/// operating system cannot seed the generator.
#[verifier::external_body]
fn fresh_rng() -> rand::rngs::ThreadRng {
    rand::rng()
}

/// Relies on rand's SliceRandom::shuffle: it rearranges the slice in
/// place (a uniformly drawn permutation), so the new contents carry
/// exactly the old elements.
#[verifier::external_body]
fn shuffle_in_place(v: &mut Vec<usize>, rng: &mut rand::rngs::ThreadRng)
    ensures
        final(v)@.to_multiset() == old(v)@.to_multiset(),
{
    v.shuffle(rng);
}

/// The game engine: board dimensions, the flat cell array, the game
/// status, the flag counter, and the elapsed-seconds counter that an
/// external once-per-second timer advances through `tick`.
pub struct Minesweeper {
    pub rows: u32,
    pub cols: u32,
    pub mines: u32,
    pub cells: Vec<Cell>,
    pub status: GameStatus,
    pub flags_placed: u32,
    pub elapsed_seconds: u32,
}

impl Minesweeper {
    /// Number of cells on the board.
    pub open spec fn total(self) -> int {
        (self.rows as int) * (self.cols as int)
    }

    /// Row-major index of (r, c) on this board.
    pub open spec fn idx(self, r: int, c: int) -> int {
        grid_idx(self.cols as int, r, c)
    }

    /// Whether (r, c) lies on this board.
    pub open spec fn in_bounds(self, r: int, c: int) -> bool {
        grid_in_bounds(self.rows as int, self.cols as int, r, c)
    }

    /// The cell at (r, c).
    pub open spec fn cell_at(self, r: int, c: int) -> Cell {
        self.cells@[self.idx(r, c)]
    }

    /// Whether (nr, nc) is a neighbor of (r, c) on this board.
    pub open spec fn is_neighbor(self, r: int, c: int, nr: int, nc: int) -> bool {
        adj(self.rows as int, self.cols as int, r, c, nr, nc)
    }

    /// The number of flags among the neighbors of (r, c).
    pub open spec fn flag_hint(self, r: int, c: int) -> int {
        adjacent_flags(self.cells@, self.rows as int, self.cols as int, r, c)
    }

    /// The board has been generated: exactly `mines` mine cells, and all
    /// the numeric hints are consistent with them.
    pub open spec fn placed(self) -> bool {
        &&& count_mines(self.cells@) == self.mines
        &&& numbers_correct(self.cells@, self.rows as int, self.cols as int)
    }

    /// Whether the win condition holds of the current cell array: every
    /// cell except the mines is revealed.
    pub open spec fn is_win(self) -> bool {
        count_revealed(self.cells@) == self.total() - self.mines
    }

    /// The cell array has one cell per position and the board fits the
    /// 32-bit counters.
    pub open spec fn dims_ok(self) -> bool {
        &&& self.cells@.len() == self.total()
        &&& 1 <= self.rows
        &&& 1 <= self.cols
        &&& self.total() <= u32::MAX
    }

    /// The engine's well-formedness invariant. Every public operation
    /// requires it and preserves it.
    pub open spec fn wf(self) -> bool {
        &&& self.dims_ok()
        &&& 0 < self.mines < self.total()
        &&& self.elapsed_seconds <= 999
        &&& (self.status is NotStarted ==> all_unstarted(self.cells@))
        &&& (self.status is Playing ==> self.placed() && revealed_safe(self.cells@) && no_marks(
            self.cells@,
        ))
        &&& (self.status is NotStarted || self.status is Playing ==> self.flags_placed
            == count_flagged(self.cells@))
        &&& (self.status is Won ==> self.flags_placed == self.mines && self.placed())
        &&& (self.status is Lost ==> self.placed())
    }

    /// A fresh, not-yet-started game for the given preset: every cell
    /// blank and hidden, no mines placed, no flags, no elapsed time.
    pub fn new(difficulty: Difficulty) -> (game: Minesweeper)
        ensures
            game.wf(),
            0 < game.mines < game.rows * game.cols,
            game.status is NotStarted,
            game.flags_placed == 0,
            game.elapsed_seconds == 0,
            (game.rows, game.cols, game.mines) == difficulty.spec_config(),
            game.cells@.len() == game.total(),
            forall|i: int| 0 <= i < game.cells@.len() ==> game.cells@[i] == Cell::blank(),
    {
        let (rows, cols, mines) = difficulty.config();
        let total: u32 = rows * cols;
        let mut cells: Vec<Cell> = Vec::new();
        let mut i: u32 = 0;
        while i < total
            invariant
                i <= total,
                cells@.len() == i as int,
                forall|k: int| 0 <= k < i as int ==> cells@[k] == Cell::blank(),
            decreases total - i,
        {
            cells.push(Cell::new());
            i = i + 1;
        }
        proof {
            lemma_count_none(cells@, |c: Cell| c.state is Flagged);
        }
        Minesweeper {
            rows,
            cols,
            mines,
            cells,
            status: GameStatus::NotStarted,
            flags_placed: 0,
            elapsed_seconds: 0,
        }
    }

    /// Discard all state and start over with the given preset.
    pub fn reset(&mut self, difficulty: Difficulty)
        ensures
            final(self).wf(),
            final(self).status is NotStarted,
            final(self).flags_placed == 0,
            final(self).elapsed_seconds == 0,
            (final(self).rows, final(self).cols, final(self).mines) == difficulty.spec_config(),
            forall|i: int|
                0 <= i < final(self).cells@.len() ==> final(self).cells@[i] == Cell::blank(),
    {
        *self = Minesweeper::new(difficulty);
    }

    /// Row-major index of (row, col) into the cell array.
    pub fn index(&self, row: u32, col: u32) -> (i: usize)
        requires
            self.dims_ok(),
            row < self.rows,
            col < self.cols,
        ensures
            i == self.idx(row as int, col as int),
            i < self.cells@.len(),
    {
        proof {
            lemma_grid_index_bounds(row as int, col as int, self.rows as int, self.cols as int);
        }
        (row * self.cols + col) as usize
    }

    /// Advance the elapsed-seconds counter by one, capped at 999. Driven
    /// by the external once-per-second timer; counts only while playing.
    pub fn tick(&mut self)
        requires
            old(self).wf(),
        ensures
            final(self).wf(),
            final(self).rows == old(self).rows,
            final(self).cols == old(self).cols,
            final(self).mines == old(self).mines,
            final(self).cells@ == old(self).cells@,
            final(self).status == old(self).status,
            final(self).flags_placed == old(self).flags_placed,
            old(self).status is Playing ==> final(self).elapsed_seconds == (if old(self).elapsed_seconds < 999 {
                old(self).elapsed_seconds + 1
            } else {
                999
            }),
            !(old(self).status is Playing) ==> final(self).elapsed_seconds == old(self).elapsed_seconds,
    {
        if self.status == GameStatus::Playing {
            if self.elapsed_seconds < 999 {
                self.elapsed_seconds = self.elapsed_seconds + 1;
            }
        }
    }
}

impl Minesweeper {
    /// Whether (r, c), given in coordinates that may lie off the board,
    /// is an in-bounds cell holding a mine.
    fn has_mine(&self, r: i64, c: i64) -> (b: bool)
        requires
            self.dims_ok(),
        ensures
            b == (mine_at(self.cells@, self.rows as int, self.cols as int, r as int, c as int)
                == 1),
    {
        if r >= 0 && c >= 0 && r < self.rows as i64 && c < self.cols as i64 {
            proof {
                lemma_grid_index_bounds(r as int, c as int, self.rows as int, self.cols as int);
            }
            let i = ((r as u32) * self.cols + (c as u32)) as usize;
            self.cells[i].content == CellContent::Mine
        } else {
            false
        }
    }

    /// Whether (r, c), given in coordinates that may lie off the board,
    /// is an in-bounds flagged cell.
    fn has_flag(&self, r: i64, c: i64) -> (b: bool)
        requires
            self.dims_ok(),
        ensures
            b == (flag_at(self.cells@, self.rows as int, self.cols as int, r as int, c as int)
                == 1),
    {
        if r >= 0 && c >= 0 && r < self.rows as i64 && c < self.cols as i64 {
            proof {
                lemma_grid_index_bounds(r as int, c as int, self.rows as int, self.cols as int);
            }
            let i = ((r as u32) * self.cols + (c as u32)) as usize;
            self.cells[i].state == CellState::Flagged
        } else {
            false
        }
    }

    /// Count the mines among the neighbors of (row, col).
    fn count_adjacent_mines(&self, row: u32, col: u32) -> (n: u32)
        requires
            self.dims_ok(),
            row < self.rows,
            col < self.cols,
        ensures
            n == adjacent_mines(
                self.cells@,
                self.rows as int,
                self.cols as int,
                row as int,
                col as int,
            ),
            n <= 8,
    {
        let r = row as i64;
        let c = col as i64;
        let mut n: u32 = 0;
        if self.has_mine(r - 1, c - 1) {
            n = n + 1;
        }
        if self.has_mine(r - 1, c) {
            n = n + 1;
        }
        if self.has_mine(r - 1, c + 1) {
            n = n + 1;
        }
        if self.has_mine(r, c - 1) {
            n = n + 1;
        }
        if self.has_mine(r, c + 1) {
            n = n + 1;
        }
        if self.has_mine(r + 1, c - 1) {
            n = n + 1;
        }
        if self.has_mine(r + 1, c) {
            n = n + 1;
        }
        if self.has_mine(r + 1, c + 1) {
            n = n + 1;
        }
        n
    }

    /// Count the flags among the neighbors of (row, col).
    fn count_adjacent_flags(&self, row: u32, col: u32) -> (n: u32)
        requires
            self.dims_ok(),
            row < self.rows,
            col < self.cols,
        ensures
            n == adjacent_flags(
                self.cells@,
                self.rows as int,
                self.cols as int,
                row as int,
                col as int,
            ),
            n <= 8,
    {
        let r = row as i64;
        let c = col as i64;
        let mut n: u32 = 0;
        if self.has_flag(r - 1, c - 1) {
            n = n + 1;
        }
        if self.has_flag(r - 1, c) {
            n = n + 1;
        }
        if self.has_flag(r - 1, c + 1) {
            n = n + 1;
        }
        if self.has_flag(r, c - 1) {
            n = n + 1;
        }
        if self.has_flag(r, c + 1) {
            n = n + 1;
        }
        if self.has_flag(r + 1, c - 1) {
            n = n + 1;
        }
        if self.has_flag(r + 1, c) {
            n = n + 1;
        }
        if self.has_flag(r + 1, c + 1) {
            n = n + 1;
        }
        n
    }

    /// The up to eight valid positions in the 3 x 3 block around
    /// (row, col), excluding the center and anything off the board, in
    /// row-major order. Used by generation, chording, and the
    /// presentation layer's chord highlighting.
    pub fn neighbors(&self, row: u32, col: u32) -> (res: Vec<(u32, u32)>)
        requires
            self.dims_ok(),
            row < self.rows,
            col < self.cols,
        ensures
            forall|k: int|
                0 <= k < res@.len() ==> self.is_neighbor(
                    row as int,
                    col as int,
                    (#[trigger] res@[k]).0 as int,
                    res@[k].1 as int,
                ),
            forall|nr: u32, nc: u32|
                self.is_neighbor(row as int, col as int, nr as int, nc as int)
                    ==> #[trigger] res@.contains((nr, nc)),
            forall|k1: int, k2: int| 0 <= k1 < k2 < res@.len() ==> res@[k1] != res@[k2],
            forall|k1: int, k2: int|
                0 <= k1 < k2 < res@.len() ==> offset_rank(
                    row as int,
                    col as int,
                    (#[trigger] res@[k1]).0 as int,
                    res@[k1].1 as int,
                ) < offset_rank(
                    row as int,
                    col as int,
                    (#[trigger] res@[k2]).0 as int,
                    res@[k2].1 as int,
                ),
            res@.len() <= 8,
            self.rows >= 2 && self.cols >= 2 ==> res@.len() >= 3,
    {
        let mut res: Vec<(u32, u32)> = Vec::new();
        let mut d: u32 = 0;
        while d < 9
            invariant
                d <= 9,
                row < self.rows,
                col < self.cols,
                res@.len() + (if d > 4 {
                    1int
                } else {
                    0int
                }) <= d as int,
                forall|k1: int, k2: int|
                    0 <= k1 < k2 < res@.len() ==> offset_rank(
                        row as int,
                        col as int,
                        (#[trigger] res@[k1]).0 as int,
                        res@[k1].1 as int,
                    ) < offset_rank(
                        row as int,
                        col as int,
                        (#[trigger] res@[k2]).0 as int,
                        res@[k2].1 as int,
                    ),
                forall|k: int|
                    0 <= k < res@.len() ==> (self.is_neighbor(
                        row as int,
                        col as int,
                        (#[trigger] res@[k]).0 as int,
                        res@[k].1 as int,
                    ) && offset_rank(row as int, col as int, res@[k].0 as int, res@[k].1 as int)
                        < d as int),
                forall|nr: u32, nc: u32|
                    self.is_neighbor(row as int, col as int, nr as int, nc as int) && offset_rank(
                        row as int,
                        col as int,
                        nr as int,
                        nc as int,
                    ) < d as int ==> #[trigger] res@.contains((nr, nc)),
                forall|k1: int, k2: int| 0 <= k1 < k2 < res@.len() ==> res@[k1] != res@[k2],
            decreases 9 - d,
        {
            let ghost prev = res@;
            if d != 4 {
                let dr = (d / 3) as i64 - 1;
                let dc = (d % 3) as i64 - 1;
                let nr = row as i64 + dr;
                let nc = col as i64 + dc;
                if nr >= 0 && nr < self.rows as i64 && nc >= 0 && nc < self.cols as i64 {
                    res.push((nr as u32, nc as u32));
                    proof {
                        vstd::arithmetic::div_mod::lemma_fundamental_div_mod(d as int, 3);
                        vstd::arithmetic::div_mod::lemma_mod_bound(d as int, 3);
                        assert(offset_rank(row as int, col as int, nr as int, nc as int)
                            == d as int);
                        assert(self.is_neighbor(row as int, col as int, nr as int, nc as int));
                        assert(res@ == prev.push((nr as u32, nc as u32)));
                        assert forall|ar: u32, ac: u32|
                            self.is_neighbor(row as int, col as int, ar as int, ac as int)
                                && offset_rank(row as int, col as int, ar as int, ac as int)
                                < d as int + 1 implies #[trigger] res@.contains((ar, ac)) by {
                            if offset_rank(row as int, col as int, ar as int, ac as int)
                                < d as int {
                                assert(prev.contains((ar, ac)));
                                let j = choose|j: int| 0 <= j < prev.len() && prev[j] == (ar, ac);
                                assert(res@[j] == (ar, ac));
                            } else {
                                assert(ar as int == nr as int && ac as int == nc as int);
                                assert(res@[prev.len() as int] == (ar, ac));
                            }
                        }
                    }
                } else {
                    proof {
                        vstd::arithmetic::div_mod::lemma_fundamental_div_mod(d as int, 3);
                        vstd::arithmetic::div_mod::lemma_mod_bound(d as int, 3);
                        assert forall|ar: u32, ac: u32|
                            self.is_neighbor(row as int, col as int, ar as int, ac as int)
                                && offset_rank(row as int, col as int, ar as int, ac as int)
                                < d as int + 1 implies #[trigger] res@.contains((ar, ac)) by {
                            if offset_rank(row as int, col as int, ar as int, ac as int)
                                == d as int {
                                assert(ar as int == nr as int && ac as int == nc as int);
                            }
                            assert(offset_rank(row as int, col as int, ar as int, ac as int)
                                < d as int);
                            assert(prev.contains((ar, ac)));
                        }
                    }
                }
            } else {
                proof {
                    assert forall|ar: u32, ac: u32|
                        self.is_neighbor(row as int, col as int, ar as int, ac as int)
                            && offset_rank(row as int, col as int, ar as int, ac as int)
                            < d as int + 1 implies #[trigger] res@.contains((ar, ac)) by {
                        assert(offset_rank(row as int, col as int, ar as int, ac as int)
                            < d as int);
                        assert(prev.contains((ar, ac)));
                    }
                }
            }
            d = d + 1;
        }
        proof {
            if self.rows >= 2 && self.cols >= 2 {
                let ar: int = if row + 1 < self.rows {
                    row as int + 1
                } else {
                    row as int - 1
                };
                let ac: int = if col + 1 < self.cols {
                    col as int + 1
                } else {
                    col as int - 1
                };
                // three distinct neighbors always exist on a board with
                // at least two rows and two columns
                assert(res@.contains(((row), (ac as u32))));
                assert(res@.contains(((ar as u32), (col))));
                assert(res@.contains(((ar as u32), (ac as u32))));
                let j1 = choose|j: int| 0 <= j < res@.len() && res@[j] == ((row), (ac as u32));
                let j2 = choose|j: int| 0 <= j < res@.len() && res@[j] == ((ar as u32), (col));
                let j3 = choose|j: int|
                    0 <= j < res@.len() && res@[j] == ((ar as u32), (ac as u32));
                assert(j1 != j2 && j1 != j3 && j2 != j3);
            }
        }
        res
    }

    /// Finalize the board after a loss: show every unflagged mine and
    /// expose every flag that sat on a non-mine cell as wrong.
    fn reveal_all_mines(&mut self)
        ensures
            final(self).rows == old(self).rows,
            final(self).cols == old(self).cols,
            final(self).mines == old(self).mines,
            final(self).status == old(self).status,
            final(self).flags_placed == old(self).flags_placed,
            final(self).elapsed_seconds == old(self).elapsed_seconds,
            final(self).cells@ == mines_shown(old(self).cells@),
    {
        let ghost orig = *old(self);
        let n = self.cells.len();
        let mut i: usize = 0;
        while i < n
            invariant
                i <= n,
                n == self.cells@.len(),
                self.rows == orig.rows,
                self.cols == orig.cols,
                self.mines == orig.mines,
                self.status == orig.status,
                self.flags_placed == orig.flags_placed,
                self.elapsed_seconds == orig.elapsed_seconds,
                self.cells@.len() == orig.cells@.len(),
                forall|k: int| 0 <= k < i as int ==> self.cells@[k] == lost_cell(orig.cells@[k]),
                forall|k: int| i as int <= k < n as int ==> self.cells@[k] == orig.cells@[k],
            decreases n - i,
        {
            let cell = self.cells[i];
            if cell.content == CellContent::Mine {
                if !(cell.state == CellState::Flagged) {
                    let mut c2 = cell;
                    c2.state = CellState::Revealed;
                    self.cells.set(i, c2);
                }
            } else {
                if cell.state == CellState::Flagged {
                    let mut c2 = cell;
                    c2.state = CellState::Revealed;
                    c2.wrong_flag = true;
                    self.cells.set(i, c2);
                }
            }
            i = i + 1;
        }
        proof {
            assert(self.cells@ =~= mines_shown(orig.cells@));
        }
    }

    /// Finalize the board after a win: flag every mine and set the flag
    /// counter to the mine count.
    fn flag_all_mines(&mut self)
        requires
            old(self).dims_ok(),
        ensures
            final(self).rows == old(self).rows,
            final(self).cols == old(self).cols,
            final(self).mines == old(self).mines,
            final(self).status == old(self).status,
            final(self).elapsed_seconds == old(self).elapsed_seconds,
            final(self).cells@ == mines_flagged(old(self).cells@),
            final(self).flags_placed == final(self).mines,
    {
        let ghost orig = *old(self);
        self.flags_placed = 0;
        let n = self.cells.len();
        let mut i: usize = 0;
        while i < n
            invariant
                i <= n,
                n == self.cells@.len(),
                n <= u32::MAX,
                self.rows == orig.rows,
                self.cols == orig.cols,
                self.mines == orig.mines,
                self.status == orig.status,
                self.elapsed_seconds == orig.elapsed_seconds,
                self.flags_placed <= i,
                self.cells@.len() == orig.cells@.len(),
                forall|k: int| 0 <= k < i as int ==> self.cells@[k] == won_cell(orig.cells@[k]),
                forall|k: int| i as int <= k < n as int ==> self.cells@[k] == orig.cells@[k],
            decreases n - i,
        {
            let cell = self.cells[i];
            if cell.content == CellContent::Mine {
                let mut c2 = cell;
                c2.state = CellState::Flagged;
                self.cells.set(i, c2);
                self.flags_placed = self.flags_placed + 1;
            }
            i = i + 1;
        }
        // The win precondition leaves exactly the mines unrevealed, so the
        // counter always lands on the mine count; set it outright.
        self.flags_placed = self.mines;
        proof {
            assert(self.cells@ =~= mines_flagged(orig.cells@));
        }
    }

    /// After any non-losing reveal: if every cell except the mines is
    /// revealed, the game is won and the remaining mines are auto-flagged.
    fn check_win(&mut self)
        requires
            old(self).wf(),
            old(self).status is Playing,
        ensures
            final(self).rows == old(self).rows,
            final(self).cols == old(self).cols,
            final(self).mines == old(self).mines,
            final(self).elapsed_seconds == old(self).elapsed_seconds,
            !old(self).is_win() ==> *final(self) == *old(self),
            old(self).is_win() ==> final(self).status is Won
                && final(self).flags_placed == final(self).mines
                && final(self).cells@ == mines_flagged(old(self).cells@),
            final(self).wf(),
    {
        let ghost orig = *old(self);
        let n = self.cells.len();
        let mut revealed: u32 = 0;
        let mut i: usize = 0;
        while i < n
            invariant
                i <= n,
                *self == orig,
                n == self.cells@.len(),
                n <= u32::MAX,
                revealed == count_revealed(self.cells@.take(i as int)),
                revealed <= i,
            decreases n - i,
        {
            proof {
                lemma_count_take_step(self.cells@, |c: Cell| c.state is Revealed, i as int);
                lemma_count_bounds(self.cells@.take(i as int), |c: Cell| c.state is Revealed);
            }
            if self.cells[i].state == CellState::Revealed {
                revealed = revealed + 1;
            }
            i = i + 1;
        }
        proof {
            lemma_count_take_all(self.cells@, |c: Cell| c.state is Revealed);
            lemma_count_bounds(self.cells@, |c: Cell| c.state is Revealed);
        }
        let total = self.rows * self.cols;
        if revealed == total - self.mines {
            self.status = GameStatus::Won;
            self.flag_all_mines();
            proof {
                assert forall|k: int|
                    0 <= k < self.cells@.len() implies (#[trigger] self.cells@[k]).content
                    == orig.cells@[k].content by {
                    assert(self.cells@[k] == won_cell(orig.cells@[k]));
                }
                lemma_count_pointwise(orig.cells@, self.cells@, |cl: Cell| cl.content is Mine);
                lemma_numbers_correct_stable(
                    orig.cells@,
                    self.cells@,
                    orig.rows as int,
                    orig.cols as int,
                );
            }
        }
    }

    /// Expand a reveal that hit a zero-hint cell: walk the connected
    /// region of empty cells with an explicit work list, revealing every
    /// hidden cell on or bordering it. Iterative on purpose; recursion
    /// could overflow the call stack on a large board.
    fn flood_fill(&mut self, row: u32, col: u32)
        requires
            old(self).wf(),
            old(self).status is Playing,
            row < old(self).rows,
            col < old(self).cols,
            old(self).cell_at(row as int, col as int).state is Revealed,
            old(self).cell_at(row as int, col as int).content is Empty,
        ensures
            final(self).rows == old(self).rows,
            final(self).cols == old(self).cols,
            final(self).mines == old(self).mines,
            final(self).status == old(self).status,
            final(self).flags_placed == old(self).flags_placed,
            final(self).elapsed_seconds == old(self).elapsed_seconds,
            final(self).cells@ == filled(
                old(self).cells@,
                old(self).rows as int,
                old(self).cols as int,
                row as int,
                col as int,
            ),
            final(self).wf(),
    {
        let ghost orig = *old(self);
        let ghost pre = orig.cells@;
        let ghost ri = orig.rows as int;
        let ghost ci = orig.cols as int;
        let ghost sr = row as int;
        let ghost sc = col as int;
        let mut stack: Vec<(u32, u32)> = Vec::new();
        stack.push((row, col));
        proof {
            assert(expanded(pre, ri, ci, sr, sc, sr, sc, 0));
            assert(stack@[0] == (row, col));
            assert(stack@.contains((row, col)));
        }
        while stack.len() != 0
            invariant
                orig.wf(),
                orig.status is Playing,
                pre == orig.cells@,
                ri == orig.rows as int,
                ci == orig.cols as int,
                sr == row as int,
                sc == col as int,
                grid_in_bounds(ri, ci, sr, sc),
                cell_at_pos(pre, ci, sr, sc).state is Revealed,
                cell_at_pos(pre, ci, sr, sc).content is Empty,
                self.rows == orig.rows,
                self.cols == orig.cols,
                self.mines == orig.mines,
                self.status == orig.status,
                self.flags_placed == orig.flags_placed,
                self.elapsed_seconds == orig.elapsed_seconds,
                self.cells@.len() == pre.len(),
                cell_at_pos(self.cells@, ci, sr, sc).state is Revealed,
                forall|i: int|
                    0 <= i < pre.len() ==> ((#[trigger] self.cells@[i]) == pre[i] || (
                    pre[i].state is Hidden && self.cells@[i] == reveal_cell(pre[i]))),
                forall|ar: int, ac: int|
                    grid_in_bounds(ri, ci, ar, ac) ==> (#[trigger] cell_at_pos(
                        self.cells@,
                        ci,
                        ar,
                        ac,
                    ) == cell_at_pos(pre, ci, ar, ac) || (fill_reveals(pre, ri, ci, sr, sc, ar, ac)
                        && cell_at_pos(self.cells@, ci, ar, ac) == reveal_cell(
                        cell_at_pos(pre, ci, ar, ac),
                    ))),
                forall|k: int|
                    0 <= k < stack@.len() ==> {
                        let ar = (#[trigger] stack@[k]).0 as int;
                        let ac = stack@[k].1 as int;
                        &&& grid_in_bounds(ri, ci, ar, ac)
                        &&& in_component(pre, ri, ci, sr, sc, ar, ac)
                        &&& cell_at_pos(pre, ci, ar, ac).content is Empty
                        &&& cell_at_pos(self.cells@, ci, ar, ac).state is Revealed
                    },
                forall|ar: int, ac: int, qr: int, qc: int|
                    grid_in_bounds(ri, ci, ar, ac) && ((ar == sr && ac == sc) || (cell_at_pos(
                        pre,
                        ci,
                        ar,
                        ac,
                    ).state is Hidden && cell_at_pos(self.cells@, ci, ar, ac).state is Revealed
                        && cell_at_pos(pre, ci, ar, ac).content is Empty)) && !stack@.contains(
                        ((ar as u32), (ac as u32)),
                    ) && #[trigger] adj(ri, ci, ar, ac, qr, qc) ==> !(cell_at_pos(
                        self.cells@,
                        ci,
                        qr,
                        qc,
                    ).state is Hidden),
                revealed_safe(self.cells@),
                count_flagged(self.cells@) == count_flagged(pre),
            decreases count_hidden(self.cells@), stack@.len(),
        {
            let ghost h0 = count_hidden(self.cells@);
            let ghost s0 = stack@.len();
            let ghost stack_before = stack@;
            let popped = stack.pop();
            let (r, c) = match popped {
                Some(p) => p,
                None => {
                    proof {
                        assert(false);
                    }
                    (0, 0)
                },
            };
            proof {
                assert(stack_before[s0 - 1] == (r, c));
                assert(grid_in_bounds(ri, ci, r as int, c as int));
                // popping only drops the last entry; any pair absent from
                // the shorter list other than (r, c) was absent before
                assert forall|ar: int, ac: int|
                    grid_in_bounds(ri, ci, ar, ac) && !(ar == r as int && ac == c as int)
                        && !stack@.contains(((ar as u32), (ac as u32))) implies !stack_before
                    .contains(((ar as u32), (ac as u32))) by {
                    if stack_before.contains(((ar as u32), (ac as u32))) {
                        let j = choose|j: int|
                            0 <= j < stack_before.len() && stack_before[j] == (
                            (ar as u32),
                            (ac as u32),
                            );
                        if j < s0 - 1 {
                            assert(stack@[j] == ((ar as u32), (ac as u32)));
                        }
                    }
                }
                // the popped cell's hint is zero: it is empty and the
                // board's numbers are correct
                assert(number_ok(pre, ri, ci, r as int, c as int));
            }
            let ghost amz = adjacent_mines(pre, ri, ci, r as int, c as int);
            proof {
                assert(amz == 0);
            }
            let nbrs = self.neighbors(r, c);
            let mut j: usize = 0;
            while j < nbrs.len()
                invariant
                    orig.wf(),
                    orig.status is Playing,
                    pre == orig.cells@,
                    ri == orig.rows as int,
                    ci == orig.cols as int,
                    sr == row as int,
                    sc == col as int,
                    grid_in_bounds(ri, ci, sr, sc),
                    cell_at_pos(pre, ci, sr, sc).state is Revealed,
                    cell_at_pos(pre, ci, sr, sc).content is Empty,
                    self.rows == orig.rows,
                    self.cols == orig.cols,
                    self.mines == orig.mines,
                    self.status == orig.status,
                    self.flags_placed == orig.flags_placed,
                    self.elapsed_seconds == orig.elapsed_seconds,
                    self.cells@.len() == pre.len(),
                    cell_at_pos(self.cells@, ci, sr, sc).state is Revealed,
                    r < orig.rows,
                    c < orig.cols,
                    in_component(pre, ri, ci, sr, sc, r as int, c as int),
                    cell_at_pos(pre, ci, r as int, c as int).content is Empty,
                    adjacent_mines(pre, ri, ci, r as int, c as int) == 0,
                    j <= nbrs@.len(),
                    forall|k: int|
                        0 <= k < nbrs@.len() ==> adj(
                            ri,
                            ci,
                            r as int,
                            c as int,
                            (#[trigger] nbrs@[k]).0 as int,
                            nbrs@[k].1 as int,
                        ),
                    forall|qr: u32, qc: u32|
                        adj(ri, ci, r as int, c as int, qr as int, qc as int)
                            ==> #[trigger] nbrs@.contains((qr, qc)),
                    forall|k: int|
                        0 <= k < j as int ==> !(cell_at_pos(
                            self.cells@,
                            ci,
                            (#[trigger] nbrs@[k]).0 as int,
                            nbrs@[k].1 as int,
                        ).state is Hidden),
                    forall|i: int|
                        0 <= i < pre.len() ==> ((#[trigger] self.cells@[i]) == pre[i] || (
                        pre[i].state is Hidden && self.cells@[i] == reveal_cell(pre[i]))),
                    forall|ar: int, ac: int|
                        grid_in_bounds(ri, ci, ar, ac) ==> (#[trigger] cell_at_pos(
                            self.cells@,
                            ci,
                            ar,
                            ac,
                        ) == cell_at_pos(pre, ci, ar, ac) || (fill_reveals(
                            pre,
                            ri,
                            ci,
                            sr,
                            sc,
                            ar,
                            ac,
                        ) && cell_at_pos(self.cells@, ci, ar, ac) == reveal_cell(
                            cell_at_pos(pre, ci, ar, ac),
                        ))),
                    forall|k: int|
                        0 <= k < stack@.len() ==> {
                            let ar = (#[trigger] stack@[k]).0 as int;
                            let ac = stack@[k].1 as int;
                            &&& grid_in_bounds(ri, ci, ar, ac)
                            &&& in_component(pre, ri, ci, sr, sc, ar, ac)
                            &&& cell_at_pos(pre, ci, ar, ac).content is Empty
                            &&& cell_at_pos(self.cells@, ci, ar, ac).state is Revealed
                        },
                    forall|ar: int, ac: int, qr: int, qc: int|
                        grid_in_bounds(ri, ci, ar, ac) && !(ar == r as int && ac == c as int) && ((
                        ar == sr && ac == sc) || (cell_at_pos(pre, ci, ar, ac).state is Hidden
                            && cell_at_pos(self.cells@, ci, ar, ac).state is Revealed
                            && cell_at_pos(pre, ci, ar, ac).content is Empty)) && !stack@.contains(
                            ((ar as u32), (ac as u32)),
                        ) && #[trigger] adj(ri, ci, ar, ac, qr, qc) ==> !(cell_at_pos(
                            self.cells@,
                            ci,
                            qr,
                            qc,
                        ).state is Hidden),
                    revealed_safe(self.cells@),
                    count_flagged(self.cells@) == count_flagged(pre),
                    count_hidden(self.cells@) <= h0,
                    stack@.len() + count_hidden(self.cells@) <= s0 - 1 + h0,
                decreases nbrs@.len() - j,
            {
                let ghost cells_it = self.cells@;
                let ghost stack_it = stack@;
                let (nr, nc) = nbrs[j];
                let ni = self.index(nr, nc);
                let ncell = self.cells[ni];
                if ncell.state == CellState::Hidden {
                    let ghost prevc = self.cells@;
                    let mut c2 = ncell;
                    c2.state = CellState::Revealed;
                    self.cells.set(ni, c2);
                    proof {
                        let nri = nr as int;
                        let nci = nc as int;
                        lemma_grid_index_bounds(nri, nci, ri, ci);
                        lemma_count_update(prevc, |cl: Cell| cl.state is Flagged, ni as int, c2);
                        lemma_count_update(prevc, |cl: Cell| cl.state is Hidden, ni as int, c2);
                        lemma_count_bounds(prevc, |cl: Cell| cl.state is Hidden);
                        // the cell was untouched until now, so it was
                        // hidden before the fill began
                        assert(prevc[ni as int] == pre[ni as int]);
                        assert(cell_at_pos(pre, ci, nri, nci).state is Hidden);
                        // it borders the popped region cell, so the fill
                        // was bound to reveal it
                        assert(adj(ri, ci, r as int, c as int, nri, nci) && in_component(
                            pre,
                            ri,
                            ci,
                            sr,
                            sc,
                            r as int,
                            c as int,
                        ));
                        assert(fill_reveals(pre, ri, ci, sr, sc, nri, nci));
                        assert(self.cells@[ni as int] == reveal_cell(pre[ni as int]));
                        // it borders a zero-hint cell, so it is not a mine
                        lemma_no_adjacent_mine(pre, ri, ci, r as int, c as int, nri, nci);
                        assert forall|ar: int, ac: int|
                            grid_in_bounds(ri, ci, ar, ac) implies (#[trigger] cell_at_pos(
                            self.cells@,
                            ci,
                            ar,
                            ac,
                        ) == cell_at_pos(prevc, ci, ar, ac) || (ar == nri && ac == nci)) by {
                            lemma_grid_index_bounds(ar, ac, ri, ci);
                            if grid_idx(ci, ar, ac) == grid_idx(ci, nri, nci) {
                                lemma_grid_index_injective(ci, ar, ac, nri, nci);
                            }
                        }
                    }
                    if ncell.content == CellContent::Empty {
                        stack.push((nr, nc));
                        proof {
                            let nri = nr as int;
                            let nci = nc as int;
                            let n = choose|n: nat|
                                expanded(pre, ri, ci, sr, sc, r as int, c as int, n);
                            assert(expanded(pre, ri, ci, sr, sc, nri, nci, n + 1));
                            assert(in_component(pre, ri, ci, sr, sc, nri, nci));
                            assert(stack@[stack@.len() - 1] == (nr, nc));
                            assert(stack@.contains((nr, nc)));
                        }
                    }
                }
                proof {
                    // carry the completeness obligation across this step:
                    // a settled cell off the work list either was settled
                    // before the step, or is the cell just revealed — and
                    // an empty one of those goes straight onto the list
                    assert forall|ar: int, ac: int, qr: int, qc: int|
                        grid_in_bounds(ri, ci, ar, ac) && !(ar == r as int && ac == c as int) && ((
                        ar == sr && ac == sc) || (cell_at_pos(pre, ci, ar, ac).state is Hidden
                            && cell_at_pos(self.cells@, ci, ar, ac).state is Revealed
                            && cell_at_pos(pre, ci, ar, ac).content is Empty)) && !stack@.contains(
                            ((ar as u32), (ac as u32)),
                        ) && #[trigger] adj(ri, ci, ar, ac, qr, qc) implies !(cell_at_pos(
                        self.cells@,
                        ci,
                        qr,
                        qc,
                    ).state is Hidden) by {
                        lemma_grid_index_bounds(ar, ac, ri, ci);
                        lemma_grid_index_bounds(qr, qc, ri, ci);
                        lemma_grid_index_bounds(nr as int, nc as int, ri, ci);
                        if stack_it.contains(((ar as u32), (ac as u32))) {
                            let jx = choose|jx: int|
                                0 <= jx < stack_it.len() && stack_it[jx] == (
                                (ar as u32),
                                (ac as u32),
                                );
                            assert(stack@[jx] == ((ar as u32), (ac as u32)));
                        } else {
                            if (ar == sr && ac == sc) || cell_at_pos(
                                cells_it,
                                ci,
                                ar,
                                ac,
                            ).state is Revealed {
                                assert(!(cell_at_pos(cells_it, ci, qr, qc).state is Hidden));
                                if grid_idx(ci, qr, qc) == grid_idx(ci, nr as int, nc as int) {
                                    lemma_grid_index_injective(ci, qr, qc, nr as int, nc as int);
                                }
                            } else {
                                // (ar, ac) was revealed by this very step,
                                // so it is the empty cell just pushed
                                if grid_idx(ci, ar, ac) != grid_idx(ci, nr as int, nc as int) {
                                    assert(cell_at_pos(self.cells@, ci, ar, ac) == cell_at_pos(
                                        cells_it,
                                        ci,
                                        ar,
                                        ac,
                                    ));
                                } else {
                                    lemma_grid_index_injective(ci, ar, ac, nr as int, nc as int);
                                    assert(cell_at_pos(cells_it, ci, ar, ac)
                                        == pre[grid_idx(ci, ar, ac)]);
                                    assert(stack@.contains(((ar as u32), (ac as u32))));
                                }
                            }
                        }
                    }
                }
                j = j + 1;
            }
            proof {
                // every neighbor of the popped cell is now settled, so
                // its completeness obligation is met for good
                assert forall|ar: int, ac: int, qr: int, qc: int|
                    grid_in_bounds(ri, ci, ar, ac) && ((ar == sr && ac == sc) || (cell_at_pos(
                        pre,
                        ci,
                        ar,
                        ac,
                    ).state is Hidden && cell_at_pos(self.cells@, ci, ar, ac).state is Revealed
                        && cell_at_pos(pre, ci, ar, ac).content is Empty)) && !stack@.contains(
                        ((ar as u32), (ac as u32)),
                    ) && #[trigger] adj(ri, ci, ar, ac, qr, qc) implies !(cell_at_pos(
                    self.cells@,
                    ci,
                    qr,
                    qc,
                ).state is Hidden) by {
                    if ar == r as int && ac == c as int {
                        assert(nbrs@.contains(((qr as u32), (qc as u32))));
                        let k = choose|k: int|
                            0 <= k < nbrs@.len() && nbrs@[k] == ((qr as u32), (qc as u32));
                        assert(!(cell_at_pos(
                            self.cells@,
                            ci,
                            nbrs@[k].0 as int,
                            nbrs@[k].1 as int,
                        ).state is Hidden));
                    }
                }
                lemma_count_bounds(self.cells@, |cl: Cell| cl.state is Hidden);
            }
        }
        proof {
            // an empty work list settles the whole region: everything the
            // fill owes a reveal has received it, and nothing else moved
            assert forall|i: int|
                0 <= i < self.cells@.len() implies self.cells@[i] == filled(pre, ri, ci, sr, sc)[i]
                by {
                lemma_grid_coords(i, ri, ci);
                let ar = i / ci;
                let ac = i % ci;
                assert(cell_at_pos(self.cells@, ci, ar, ac) == self.cells@[i]);
                if fill_reveals(pre, ri, ci, sr, sc, ar, ac) {
                    let (pr, pc) = choose|pr: int, pc: int|
                        #[trigger] adj(ri, ci, pr, pc, ar, ac) && in_component(
                            pre,
                            ri,
                            ci,
                            sr,
                            sc,
                            pr,
                            pc,
                        );
                    let n = choose|n: nat| expanded(pre, ri, ci, sr, sc, pr, pc, n);
                    lemma_component_revealed(pre, self.cells@, ri, ci, sr, sc, pr, pc, n);
                    if !(pr == sr && pc == sc) {
                        assert(cell_at_pos(pre, ci, pr, pc).content is Empty);
                    }
                    assert(!(cell_at_pos(self.cells@, ci, ar, ac).state is Hidden));
                }
            }
            assert(self.cells@ =~= filled(pre, ri, ci, sr, sc));
            // well-formedness: contents never changed, and no revealed
            // cell is a mine
            assert forall|i: int|
                0 <= i < pre.len() implies (#[trigger] self.cells@[i]).content == pre[i].content
                    && self.cells@[i].exploded == pre[i].exploded && self.cells@[i].wrong_flag
                == pre[i].wrong_flag by {}
            lemma_count_pointwise(pre, self.cells@, |cl: Cell| cl.content is Mine);
            lemma_numbers_correct_stable(pre, self.cells@, ri, ci);
        }
    }

    /// Reveal a cell: the central move. The first reveal of a game
    /// generates the board with the clicked cell kept safe and starts
    /// play. Revealing a mine loses the game; revealing a zero-hint cell
    /// cascades through the empty region; any successful reveal may
    /// complete the board and win. Flagged and already-revealed cells,
    /// and finished games, are left alone.
    pub fn reveal_at(&mut self, row: u32, col: u32)
        requires
            old(self).wf(),
            row < old(self).rows,
            col < old(self).cols,
        ensures
            final(self).wf(),
            final(self).rows == old(self).rows,
            final(self).cols == old(self).cols,
            final(self).mines == old(self).mines,
            final(self).elapsed_seconds == old(self).elapsed_seconds,
            final(self).cells@.len() == old(self).cells@.len(),
            (old(self).status is Won || old(self).status is Lost) ==> *final(self) == *old(self),
            forall|i: int|
                0 <= i < old(self).cells@.len() ==> ((#[trigger] old(self).cells@[i]).state is Revealed ==> final(self).cells@[i].state is Revealed),
            old(self).status is NotStarted ==> ({
                let i0 = old(self).idx(row as int, col as int);
                &&& (final(self).status is Playing || final(self).status is Won)
                &&& final(self).placed()
                &&& !(final(self).cells@[i0].content is Mine)
                &&& forall|i: int|
                    0 <= i < final(self).cells@.len() ==> ((#[trigger] final(self).cells@[i]).state is Revealed ==> !(final(self).cells@[i].content is Mine))
                &&& (old(self).cells@[i0].state is Flagged ==> *final(self) == (Minesweeper {
                    status: GameStatus::Playing,
                    cells: final(self).cells,
                    ..*old(self)
                }) && forall|i: int|
                    0 <= i < old(self).cells@.len() ==> (#[trigger] final(self).cells@[i]).state
                        == old(self).cells@[i].state)
                &&& (!(old(self).cells@[i0].state is Flagged) ==> final(self).cells@[i0].state is Revealed)
                &&& (!(old(self).cells@[i0].state is Flagged) ==> exists|mid: Seq<Cell>|
                    #[trigger] first_reveal_outcome(
                        *old(self),
                        mid,
                        row as int,
                        col as int,
                        *final(self),
                    ))
            }),
            old(self).status is Playing ==> ({
                let i0 = old(self).idx(row as int, col as int);
                let c0 = old(self).cells@[i0];
                &&& forall|i: int|
                    0 <= i < old(self).cells@.len() ==> (#[trigger] final(self).cells@[i]).content
                        == old(self).cells@[i].content
                &&& ((c0.state is Flagged || c0.state is Revealed) ==> *final(self) == *old(self))
                &&& ((c0.state is Hidden || c0.state is QuestionMark) ==> ({
                    let revealed_cells = old(self).cells@.update(i0, reveal_cell(c0));
                    &&& (c0.content is Mine ==> final(self).status is Lost && final(self).cells@
                        == mines_shown(
                        old(self).cells@.update(
                            i0,
                            (Cell { state: CellState::Revealed, exploded: true, ..c0 }),
                        ),
                    ) && final(self).flags_placed == old(self).flags_placed)
                    &&& (c0.content is Number ==> after_reveal_step(
                        *old(self),
                        revealed_cells,
                        *final(self),
                    ))
                    &&& (c0.content is Empty ==> after_reveal_step(
                        *old(self),
                        filled(
                            revealed_cells,
                            old(self).rows as int,
                            old(self).cols as int,
                            row as int,
                            col as int,
                        ),
                        *final(self),
                    ))
                }))
            }),
            (old(self).status is Playing && final(self).status is Won) ==> exists|mid: Seq<Cell>|
                #[trigger] win_outcome(*old(self), mid, *final(self)),
            (old(self).status is Playing && final(self).status is Playing) ==> (final(self).flags_placed == old(self).flags_placed && forall|i: int|
                0 <= i < old(self).cells@.len() ==> ((#[trigger] final(self).cells@[i]) == old(self).cells@[i] || ((old(self).cells@[i].state is Hidden || old(self).cells@[i].state is QuestionMark) && final(self).cells@[i] == reveal_cell(
                    old(self).cells@[i],
                )))),
    {
        if self.status == GameStatus::Won || self.status == GameStatus::Lost {
            return ;
        }
        if self.status == GameStatus::NotStarted {
            self.place_mines(row, col);
            self.status = GameStatus::Playing;
            proof {
                lemma_count_pointwise(old(self).cells@, self.cells@, |cl: Cell| cl.state is Flagged);
                assert(self.wf());
            }
        }
        let ghost base = *self;
        let i = self.index(row, col);
        let cell = self.cells[i];
        if cell.state == CellState::Flagged || cell.state == CellState::Revealed {
            return ;
        }
        let mut c2 = cell;
        c2.state = CellState::Revealed;
        if cell.content == CellContent::Mine {
            c2.exploded = true;
            self.cells.set(i, c2);
            self.status = GameStatus::Lost;
            self.reveal_all_mines();
            proof {
                assert forall|k: int|
                    0 <= k < self.cells@.len() implies (#[trigger] self.cells@[k]).content
                    == base.cells@[k].content by {
                    assert(self.cells@[k] == lost_cell(base.cells@.update(i as int, c2)[k]));
                }
                lemma_count_pointwise(base.cells@, self.cells@, |cl: Cell| cl.content is Mine);
                lemma_numbers_correct_stable(
                    base.cells@,
                    self.cells@,
                    base.rows as int,
                    base.cols as int,
                );
                assert forall|k: int|
                    0 <= k < old(self).cells@.len() && (#[trigger] old(self).cells@[k]).state is Revealed implies self.cells@[k].state is Revealed by {
                    assert(self.cells@[k] == lost_cell(base.cells@.update(i as int, c2)[k]));
                }
            }
        } else {
            self.cells.set(i, c2);
            proof {
                lemma_count_update(base.cells@, |cl: Cell| cl.state is Flagged, i as int, c2);
                lemma_count_pointwise(base.cells@, self.cells@, |cl: Cell| cl.content is Mine);
                lemma_numbers_correct_stable(
                    base.cells@,
                    self.cells@,
                    base.rows as int,
                    base.cols as int,
                );
                assert(self.wf());
            }
            let ghost mid = *self;
            if cell.content == CellContent::Empty {
                self.flood_fill(row, col);
            }
            let ghost pre_win = *self;
            self.check_win();
            proof {
                let ff = pre_win.cells@;
                assert(revealed_safe(ff));
                assert forall|k: int|
                    0 <= k < old(self).cells@.len() && (#[trigger] old(self).cells@[k]).state is Revealed implies self.cells@[k].state is Revealed by {
                    if pre_win.is_win() {
                        assert(self.cells@[k] == won_cell(ff[k]));
                    }
                    if base.cells@[k].state is Revealed {
                        assert(ff[k].state is Revealed);
                    }
                }
                if old(self).status is NotStarted {
                    assert(first_reveal_outcome(
                        *old(self),
                        base.cells@,
                        row as int,
                        col as int,
                        *self,
                    ));
                    assert forall|k: int|
                        0 <= k < self.cells@.len() && (#[trigger] self.cells@[k]).state is Revealed implies !(self.cells@[k].content is Mine) by {
                        if pre_win.is_win() {
                            assert(self.cells@[k] == won_cell(ff[k]));
                        }
                    }
                    assert forall|k: int|
                        0 <= k < self.cells@.len() implies (#[trigger] self.cells@[k]).content == base.cells@[k].content by {
                        if pre_win.is_win() {
                            assert(self.cells@[k] == won_cell(ff[k]));
                        }
                    }
                    lemma_count_pointwise(
                        base.cells@,
                        self.cells@,
                        |cl: Cell| cl.content is Mine,
                    );
                    lemma_numbers_correct_stable(
                        base.cells@,
                        self.cells@,
                        base.rows as int,
                        base.cols as int,
                    );
                }
                if old(self).status is Playing {
                    assert forall|k: int|
                        0 <= k < old(self).cells@.len() implies ((#[trigger] ff[k]) == old(self).cells@[k] || ((old(self).cells@[k].state is Hidden || old(self).cells@[k].state is QuestionMark)
                        && ff[k] == reveal_cell(old(self).cells@[k]))) by {
                        lemma_grid_coords(k, base.rows as int, base.cols as int);
                        if cell.content == CellContent::Empty {
                            let upd = base.cells@.update(i as int, reveal_cell(base.cells@[i as int]));
                            assert(ff[k] == filled(
                                upd,
                                base.rows as int,
                                base.cols as int,
                                row as int,
                                col as int,
                            )[k]);
                        }
                    }
                    if self.status is Won {
                        assert(pre_win.is_win());
                        assert(win_outcome(*old(self), ff, *self));
                    }
                }
            }
        }
    }

    /// Cycle the marker on a cell: Hidden -> Flagged -> QuestionMark ->
    /// Hidden, keeping the flag counter in step. A no-op on revealed
    /// cells and once the game is over; allowed before the first reveal
    /// without starting the game.
    pub fn toggle_flag(&mut self, row: u32, col: u32)
        requires
            old(self).wf(),
            row < old(self).rows,
            col < old(self).cols,
        ensures
            final(self).wf(),
            final(self).rows == old(self).rows,
            final(self).cols == old(self).cols,
            final(self).mines == old(self).mines,
            final(self).status == old(self).status,
            final(self).elapsed_seconds == old(self).elapsed_seconds,
            !(old(self).status is NotStarted || old(self).status is Playing) ==> *final(self)
                == *old(self),
            (old(self).status is NotStarted || old(self).status is Playing) ==> ({
                let i0 = old(self).idx(row as int, col as int);
                let c0 = old(self).cells@[i0];
                &&& (c0.state is Revealed ==> *final(self) == *old(self))
                &&& (c0.state is Hidden ==> final(self).cells@ == old(self).cells@.update(
                    i0,
                    with_state(c0, CellState::Flagged),
                ) && final(self).flags_placed == old(self).flags_placed + 1)
                &&& (c0.state is Flagged ==> final(self).cells@ == old(self).cells@.update(
                    i0,
                    with_state(c0, CellState::QuestionMark),
                ) && final(self).flags_placed == old(self).flags_placed - 1)
                &&& (c0.state is QuestionMark ==> final(self).cells@ == old(self).cells@.update(
                    i0,
                    with_state(c0, CellState::Hidden),
                ) && final(self).flags_placed == old(self).flags_placed)
            }),
    {
        if !(self.status == GameStatus::Playing || self.status == GameStatus::NotStarted) {
            return ;
        }
        let i = self.index(row, col);
        let ghost orig = *old(self);
        let cell = self.cells[i];
        proof {
            lemma_count_bounds(orig.cells@, |c: Cell| c.state is Flagged);
        }
        match cell.state {
            CellState::Hidden => {
                proof {
                    lemma_count_lt_len(orig.cells@, |c: Cell| c.state is Flagged, i as int);
                    lemma_count_update(
                        orig.cells@,
                        |c: Cell| c.state is Flagged,
                        i as int,
                        with_state(cell, CellState::Flagged),
                    );
                }
                let mut c2 = cell;
                c2.state = CellState::Flagged;
                self.cells.set(i, c2);
                self.flags_placed = self.flags_placed + 1;
                proof {
                    self.lemma_toggle_keeps_wf(orig, i as int);
                }
            },
            CellState::Flagged => {
                proof {
                    lemma_count_pos(orig.cells@, |c: Cell| c.state is Flagged, i as int);
                    lemma_count_update(
                        orig.cells@,
                        |c: Cell| c.state is Flagged,
                        i as int,
                        with_state(cell, CellState::QuestionMark),
                    );
                }
                let mut c2 = cell;
                c2.state = CellState::QuestionMark;
                self.cells.set(i, c2);
                self.flags_placed = self.flags_placed - 1;
                proof {
                    self.lemma_toggle_keeps_wf(orig, i as int);
                }
            },
            CellState::QuestionMark => {
                proof {
                    lemma_count_update(
                        orig.cells@,
                        |c: Cell| c.state is Flagged,
                        i as int,
                        with_state(cell, CellState::Hidden),
                    );
                }
                let mut c2 = cell;
                c2.state = CellState::Hidden;
                self.cells.set(i, c2);
                proof {
                    self.lemma_toggle_keeps_wf(orig, i as int);
                }
            },
            CellState::Revealed => {},
        }
    }

    /// Reveal all unrevealed, unflagged neighbors of a revealed numbered
    /// cell at once, allowed exactly when the flags around it match its
    /// number. Returns whether it fired. The flags are taken at face
    /// value: a wrong flag that satisfies the count can detonate a mine.
    pub fn chord(&mut self, row: u32, col: u32) -> (fired: bool)
        requires
            old(self).wf(),
            row < old(self).rows,
            col < old(self).cols,
        ensures
            final(self).wf(),
            final(self).rows == old(self).rows,
            final(self).cols == old(self).cols,
            final(self).mines == old(self).mines,
            final(self).elapsed_seconds == old(self).elapsed_seconds,
            final(self).cells@.len() == old(self).cells@.len(),
            fired == ({
                let i0 = old(self).idx(row as int, col as int);
                let c0 = old(self).cells@[i0];
                &&& old(self).status is Playing
                &&& c0.state is Revealed
                &&& (c0.content matches CellContent::Number(n) && old(self).flag_hint(
                    row as int,
                    col as int,
                ) == n as int)
            }),
            !fired ==> *final(self) == *old(self),
            fired ==> ({
                &&& forall|i: int|
                    0 <= i < old(self).cells@.len() ==> (#[trigger] final(self).cells@[i]).content
                        == old(self).cells@[i].content
                &&& forall|i: int|
                    0 <= i < old(self).cells@.len() ==> ((#[trigger] old(self).cells@[i]).state is Revealed ==> final(self).cells@[i].state is Revealed)
                &&& (final(self).status is Playing ==> (final(self).flags_placed == old(self).flags_placed && (forall|i: int|
                    0 <= i < old(self).cells@.len() ==> ((#[trigger] final(self).cells@[i]) == old(self).cells@[i] || ((old(self).cells@[i].state is Hidden || old(self).cells@[i].state is QuestionMark) && final(self).cells@[i] == reveal_cell(
                        old(self).cells@[i],
                    )))) && (forall|qr: int, qc: int|
                    old(self).is_neighbor(row as int, col as int, qr, qc) && ((#[trigger] cell_at_pos(
                        old(self).cells@,
                        old(self).cols as int,
                        qr,
                        qc,
                    )).state is Hidden || cell_at_pos(
                        old(self).cells@,
                        old(self).cols as int,
                        qr,
                        qc,
                    ).state is QuestionMark) ==> cell_at_pos(
                        final(self).cells@,
                        old(self).cols as int,
                        qr,
                        qc,
                    ).state is Revealed)))
                &&& (final(self).status is Playing || final(self).status is Won || final(self).status is Lost)
                &&& (final(self).status is Lost <==> chord_hits_mine(
                    *old(self),
                    row as int,
                    col as int,
                ))
                &&& (final(self).status is Lost ==> exists|er: int, ec: int, mid: Seq<Cell>|
                    #[trigger] chord_loss_outcome(
                        *old(self),
                        row as int,
                        col as int,
                        er,
                        ec,
                        mid,
                        *final(self),
                    ))
                &&& (final(self).status is Won ==> exists|mid: Seq<Cell>| #[trigger] win_outcome(
                    *old(self),
                    mid,
                    *final(self),
                ))
            }),
    {
        if !(self.status == GameStatus::Playing) {
            return false;
        }
        let i = self.index(row, col);
        let cell = self.cells[i];
        if !(cell.state == CellState::Revealed) {
            return false;
        }
        if let CellContent::Number(n) = cell.content {
            let flags = self.count_adjacent_flags(row, col);
            if flags == n as u32 {
                let ghost orig = *old(self);
                let ghost ri = orig.rows as int;
                let ghost ci = orig.cols as int;
                let nbrs = self.neighbors(row, col);
                let mut j: usize = 0;
                while j < nbrs.len()
                    invariant
                        orig.wf(),
                        orig.status is Playing,
                        orig.rows == self.rows,
                        orig.cols == self.cols,
                        orig.mines == self.mines,
                        orig.elapsed_seconds == self.elapsed_seconds,
                        ri == orig.rows as int,
                        ci == orig.cols as int,
                        row < orig.rows,
                        col < orig.cols,
                        self.wf(),
                        self.status is Playing || self.status is Won || self.status is Lost,
                        self.status is Lost ==> exists|er: int, ec: int, mid: Seq<Cell>|
                            #[trigger] chord_loss_outcome(
                                orig,
                                row as int,
                                col as int,
                                er,
                                ec,
                                mid,
                                *self,
                            ),
                        self.status is Won ==> exists|mid: Seq<Cell>| #[trigger] win_outcome(
                            orig,
                            mid,
                            *self,
                        ),
                        self.cells@.len() == orig.cells@.len(),
                        j <= nbrs@.len(),
                        forall|k: int|
                            0 <= k < nbrs@.len() ==> adj(
                                ri,
                                ci,
                                row as int,
                                col as int,
                                (#[trigger] nbrs@[k]).0 as int,
                                nbrs@[k].1 as int,
                            ),
                        forall|qr: u32, qc: u32|
                            adj(ri, ci, row as int, col as int, qr as int, qc as int)
                                ==> #[trigger] nbrs@.contains((qr, qc)),
                        forall|k1: int, k2: int|
                            0 <= k1 < k2 < nbrs@.len() ==> offset_rank(
                                row as int,
                                col as int,
                                (#[trigger] nbrs@[k1]).0 as int,
                                nbrs@[k1].1 as int,
                            ) < offset_rank(
                                row as int,
                                col as int,
                                (#[trigger] nbrs@[k2]).0 as int,
                                nbrs@[k2].1 as int,
                            ),
                        forall|i2: int|
                            0 <= i2 < orig.cells@.len() ==> (#[trigger] self.cells@[i2]).content
                                == orig.cells@[i2].content,
                        forall|i2: int|
                            0 <= i2 < orig.cells@.len() ==> ((#[trigger] orig.cells@[i2]).state is Revealed
                                ==> self.cells@[i2].state is Revealed),
                        self.status is Playing ==> (self.flags_placed == orig.flags_placed && (
                        forall|i2: int|
                            0 <= i2 < orig.cells@.len() ==> ((#[trigger] self.cells@[i2])
                                == orig.cells@[i2] || ((orig.cells@[i2].state is Hidden
                                || orig.cells@[i2].state is QuestionMark) && self.cells@[i2]
                                == reveal_cell(orig.cells@[i2])))) && (forall|k: int|
                            0 <= k < j as int ==> (((#[trigger] cell_at_pos(
                                orig.cells@,
                                ci,
                                nbrs@[k].0 as int,
                                nbrs@[k].1 as int,
                            )).state is Hidden || cell_at_pos(
                                orig.cells@,
                                ci,
                                nbrs@[k].0 as int,
                                nbrs@[k].1 as int,
                            ).state is QuestionMark) ==> cell_at_pos(
                                self.cells@,
                                ci,
                                nbrs@[k].0 as int,
                                nbrs@[k].1 as int,
                            ).state is Revealed))),
                    decreases nbrs@.len() - j,
                {
                    let ghost before = *self;
                    let (nr, nc) = nbrs[j];
                    let ni = self.index(nr, nc);
                    let st = self.cells[ni].state;
                    if st == CellState::Hidden || st == CellState::QuestionMark {
                        self.reveal_at(nr, nc);
                        proof {
                            lemma_grid_index_bounds(nr as int, nc as int, ri, ci);
                            if !(before.status is Playing) {
                                assert(*self == before);
                            }
                            if before.status is Playing && self.status is Lost {
                                let ti = before.idx(nr as int, nc as int);
                                // the target still carried its original
                                // cell, and only a mine reveal loses
                                assert(before.cells@[ti] == orig.cells@[ti]);
                                assert(orig.cells@[ti].content is Mine);
                                // no earlier neighbor was a pending mine:
                                // it would have ended the game already
                                assert forall|qr: int, qc: int|
                                    orig.is_neighbor(row as int, col as int, qr, qc) && ((
                                    #[trigger] orig.cell_at(qr, qc)).state is Hidden || orig.cell_at(
                                    qr,
                                    qc,
                                ).state is QuestionMark) && orig.cell_at(qr, qc).content is Mine implies offset_rank(
                                    row as int,
                                    col as int,
                                    nr as int,
                                    nc as int,
                                ) <= offset_rank(row as int, col as int, qr, qc) by {
                                    if offset_rank(row as int, col as int, qr, qc) < offset_rank(
                                        row as int,
                                        col as int,
                                        nr as int,
                                        nc as int,
                                    ) {
                                        lemma_grid_index_bounds(qr, qc, ri, ci);
                                        assert(nbrs@.contains(((qr as u32), (qc as u32))));
                                        let kq = choose|kq: int|
                                            0 <= kq < nbrs@.len() && nbrs@[kq] == (
                                            (qr as u32),
                                            (qc as u32),
                                            );
                                        assert(cell_at_pos(orig.cells@, ci, nbrs@[kq].0 as int, nbrs@[kq].1 as int)
                                            == cell_at_pos(orig.cells@, ci, qr, qc));
                                        if kq >= j as int {
                                            assert(false);
                                        } else {
                                            assert(cell_at_pos(before.cells@, ci, nbrs@[kq].0 as int, nbrs@[kq].1 as int).state is Revealed);
                                            assert(false);
                                        }
                                    }
                                }
                                assert(chord_loss_outcome(
                                    orig,
                                    row as int,
                                    col as int,
                                    nr as int,
                                    nc as int,
                                    before.cells@,
                                    *self,
                                ));
                            }
                            if before.status is Playing && self.status is Won {
                                let mid0 = choose|mid0: Seq<Cell>|
                                    win_outcome(before, mid0, *self);
                                assert forall|i2: int|
                                    0 <= i2 < mid0.len() implies ((#[trigger] mid0[i2])
                                    == orig.cells@[i2] || ((orig.cells@[i2].state is Hidden
                                    || orig.cells@[i2].state is QuestionMark) && mid0[i2]
                                    == reveal_cell(orig.cells@[i2]))) by {
                                    assert(mid0[i2] == before.cells@[i2] || ((
                                    before.cells@[i2].state is Hidden
                                        || before.cells@[i2].state is QuestionMark) && mid0[i2]
                                        == reveal_cell(before.cells@[i2])));
                                }
                                assert(win_outcome(orig, mid0, *self));
                            }
                            if self.status is Playing {
                                assert(before.status is Playing);
                                assert(cell_at_pos(self.cells@, ci, nr as int, nc as int)
                                    == self.cells@[before.idx(nr as int, nc as int)]);
                                // still playing, so the reveal neither hit
                                // a mine nor ended the game: the cell is
                                // now revealed
                                assert(self.cells@[before.idx(nr as int, nc as int)].state
                                    is Revealed);
                                // compose the per-step change description
                                assert forall|i2: int|
                                    0 <= i2 < orig.cells@.len() implies ((
                                #[trigger] self.cells@[i2]) == orig.cells@[i2] || ((
                                orig.cells@[i2].state is Hidden
                                    || orig.cells@[i2].state is QuestionMark) && self.cells@[i2]
                                    == reveal_cell(orig.cells@[i2]))) by {
                                    assert(self.cells@[i2] == before.cells@[i2] || ((
                                    before.cells@[i2].state is Hidden
                                        || before.cells@[i2].state is QuestionMark)
                                        && self.cells@[i2] == reveal_cell(before.cells@[i2])));
                                }
                            }
                        }
                    }
                    proof {
                        if self.status is Playing {
                            assert forall|k: int|
                                0 <= k < j as int + 1 implies (((#[trigger] cell_at_pos(
                                orig.cells@,
                                ci,
                                nbrs@[k].0 as int,
                                nbrs@[k].1 as int,
                            )).state is Hidden || cell_at_pos(
                                orig.cells@,
                                ci,
                                nbrs@[k].0 as int,
                                nbrs@[k].1 as int,
                            ).state is QuestionMark) ==> cell_at_pos(
                                self.cells@,
                                ci,
                                nbrs@[k].0 as int,
                                nbrs@[k].1 as int,
                            ).state is Revealed) by {
                                lemma_grid_index_bounds(nbrs@[k].0 as int, nbrs@[k].1 as int, ri, ci);
                                if k < j as int && (cell_at_pos(
                                    orig.cells@,
                                    ci,
                                    nbrs@[k].0 as int,
                                    nbrs@[k].1 as int,
                                ).state is Hidden || cell_at_pos(
                                    orig.cells@,
                                    ci,
                                    nbrs@[k].0 as int,
                                    nbrs@[k].1 as int,
                                ).state is QuestionMark) {
                                    assert(before.status is Playing);
                                    assert(cell_at_pos(before.cells@, ci, nbrs@[k].0 as int, nbrs@[k].1 as int).state is Revealed);
                                }
                            }
                        }
                    }
                    j = j + 1;
                }
                proof {
                    if self.status is Playing {
                        assert forall|qr: int, qc: int|
                            orig.is_neighbor(row as int, col as int, qr, qc) && ((
                            #[trigger] cell_at_pos(
                                orig.cells@,
                                ci,
                                qr,
                                qc,
                            )).state is Hidden || cell_at_pos(
                                orig.cells@,
                                ci,
                                qr,
                                qc,
                            ).state is QuestionMark) implies cell_at_pos(
                            self.cells@,
                            ci,
                            qr,
                            qc,
                        ).state is Revealed by {
                            assert(nbrs@.contains(((qr as u32), (qc as u32))));
                            let k = choose|k: int|
                                0 <= k < nbrs@.len() && nbrs@[k] == ((qr as u32), (qc as u32));
                            assert(cell_at_pos(
                                orig.cells@,
                                ci,
                                nbrs@[k].0 as int,
                                nbrs@[k].1 as int,
                            ) == cell_at_pos(orig.cells@, ci, qr, qc));
                        }
                    }
                    if self.status is Lost {
                        let (er, ec, midl) = choose|er: int, ec: int, midl: Seq<Cell>|
                            chord_loss_outcome(orig, row as int, col as int, er, ec, midl, *self);
                        assert(orig.is_neighbor(row as int, col as int, er, ec) && (orig.cell_at(
                            er,
                            ec,
                        ).state is Hidden || orig.cell_at(er, ec).state is QuestionMark)
                            && orig.cell_at(er, ec).content is Mine);
                        assert(chord_hits_mine(orig, row as int, col as int));
                    }
                    if chord_hits_mine(orig, row as int, col as int) && !(self.status is Lost) {
                        let (qr, qc) = choose|qr: int, qc: int|
                            #[trigger] orig.is_neighbor(row as int, col as int, qr, qc) && (
                            orig.cell_at(qr, qc).state is Hidden || orig.cell_at(
                                qr,
                                qc,
                            ).state is QuestionMark) && orig.cell_at(qr, qc).content is Mine;
                        lemma_grid_index_bounds(qr, qc, ri, ci);
                        if self.status is Playing {
                            // every neighbor has been settled, so the
                            // pending mine would stand revealed in play
                            assert(cell_at_pos(self.cells@, ci, qr, qc).state is Revealed);
                            assert(false);
                        } else {
                            // a win is impossible with a pending mine:
                            // the matching flag count then contains a
                            // wrong flag, which never gets revealed
                            let mid0 = choose|mid0: Seq<Cell>| win_outcome(orig, mid0, *self);
                            assert(number_ok(orig.cells@, ri, ci, row as int, col as int));
                            assert(flag_at(orig.cells@, ri, ci, qr, qc) == 0);
                            assert(mine_at(orig.cells@, ri, ci, qr, qc) == 1);
                            lemma_wrong_flag_exists(
                                orig.cells@,
                                ri,
                                ci,
                                row as int,
                                col as int,
                                qr,
                                qc,
                            );
                            let (pr, pc) = choose|pr: int, pc: int|
                                #[trigger] adj(ri, ci, row as int, col as int, pr, pc) && flag_at(
                                    orig.cells@,
                                    ri,
                                    ci,
                                    pr,
                                    pc,
                                ) == 1 && mine_at(orig.cells@, ri, ci, pr, pc) == 0;
                            lemma_grid_index_bounds(pr, pc, ri, ci);
                            let ip = grid_idx(ci, pr, pc);
                            assert(mid0[ip] == orig.cells@[ip]);
                            lemma_count_pointwise(orig.cells@, mid0, |cl: Cell| cl.content is Mine);
                            lemma_count_complement(
                                mid0,
                                |cl: Cell| cl.content is Mine,
                                |cl: Cell| !(cl.content is Mine),
                            );
                            lemma_count_le(
                                mid0,
                                |cl: Cell| cl.state is Revealed,
                                |cl: Cell| !(cl.content is Mine),
                            );
                            lemma_count_lt(
                                mid0,
                                |cl: Cell| cl.state is Revealed,
                                |cl: Cell| !(cl.content is Mine),
                                ip,
                            );
                            assert(false);
                        }
                    }
                }
                return true;
            }
        }
        false
    }

    /// A single-cell state change that neither reveals the cell nor
    /// touches its content keeps everything in the invariant except the
    /// flag count, which each caller re-establishes on its own.
    proof fn lemma_toggle_keeps_wf(self, orig: Minesweeper, i0: int)
        requires
            orig.wf(),
            orig.status is NotStarted || orig.status is Playing,
            0 <= i0 < orig.cells@.len(),
            self.rows == orig.rows,
            self.cols == orig.cols,
            self.mines == orig.mines,
            self.status == orig.status,
            self.elapsed_seconds == orig.elapsed_seconds,
            self.cells@.len() == orig.cells@.len(),
            forall|k: int|
                0 <= k < orig.cells@.len() && k != i0 ==> self.cells@[k] == orig.cells@[k],
            self.cells@[i0].content == orig.cells@[i0].content,
            self.cells@[i0].exploded == orig.cells@[i0].exploded,
            self.cells@[i0].wrong_flag == orig.cells@[i0].wrong_flag,
            !(self.cells@[i0].state is Revealed),
            !(orig.cells@[i0].state is Revealed),
            self.flags_placed == count_flagged(self.cells@),
        ensures
            self.wf(),
    {
        assert forall|i: int|
            0 <= i < self.cells@.len() implies (#[trigger] self.cells@[i]).content
            == orig.cells@[i].content by {}
        if orig.status is Playing {
            lemma_count_pointwise(orig.cells@, self.cells@, |c: Cell| c.content is Mine);
            lemma_numbers_correct_stable(
                orig.cells@,
                self.cells@,
                orig.rows as int,
                orig.cols as int,
            );
        }
    }

    /// Generate the board on the first reveal: draw `mines` distinct cell
    /// indices uniformly from all indices except the safe cell's, mark
    /// them as mines, and write every non-mine cell's neighbor count.
    fn place_mines(&mut self, safe_row: u32, safe_col: u32)
        requires
            old(self).wf(),
            old(self).status is NotStarted,
            safe_row < old(self).rows,
            safe_col < old(self).cols,
        ensures
            final(self).rows == old(self).rows,
            final(self).cols == old(self).cols,
            final(self).mines == old(self).mines,
            final(self).status == old(self).status,
            final(self).flags_placed == old(self).flags_placed,
            final(self).elapsed_seconds == old(self).elapsed_seconds,
            final(self).cells@.len() == old(self).cells@.len(),
            forall|i: int|
                0 <= i < old(self).cells@.len() ==> ((#[trigger] final(self).cells@[i]).state
                    == old(self).cells@[i].state && final(self).cells@[i].exploded == old(self).cells@[i].exploded && final(self).cells@[i].wrong_flag == old(self).cells@[i].wrong_flag),
            final(self).placed(),
            !(final(self).cell_at(safe_row as int, safe_col as int).content is Mine),
    {
        let ghost orig = *old(self);
        let safe_index = self.index(safe_row, safe_col);
        let total = self.rows * self.cols;
        let total_us = total as usize;

        // Candidate mine positions: every index but the safe one.
        let mut indices: Vec<usize> = Vec::new();
        let mut i: usize = 0;
        while i < total_us
            invariant
                i <= total_us,
                safe_index < total_us,
                indices@.len() == i - (if i > safe_index {
                    1int
                } else {
                    0int
                }),
                forall|k: int|
                    0 <= k < indices@.len() ==> (#[trigger] indices@[k]) < i && indices@[k]
                        != safe_index,
                forall|k1: int, k2: int|
                    0 <= k1 < k2 < indices@.len() ==> indices@[k1] < indices@[k2],
            decreases total_us - i,
        {
            if i != safe_index {
                indices.push(i);
            }
            i = i + 1;
        }

        let ghost pre_shuffle = indices@;
        let mut rng = fresh_rng();
        shuffle_in_place(&mut indices, &mut rng);
        proof {
            vstd::seq_lib::to_multiset_len(pre_shuffle);
            vstd::seq_lib::to_multiset_len(indices@);
            assert(indices@.len() == pre_shuffle.len());
            assert forall|k: int| 0 <= k < indices@.len() implies (#[trigger] indices@[k])
                < total_us && indices@[k] != safe_index by {
                let x = indices@[k];
                assert(indices@.contains(x));
                vstd::seq_lib::to_multiset_contains(indices@, x);
                vstd::seq_lib::to_multiset_contains(pre_shuffle, x);
                let j = choose|j: int| 0 <= j < pre_shuffle.len() && pre_shuffle[j] == x;
            }
            assert(pre_shuffle.no_duplicates());
            pre_shuffle.lemma_multiset_has_no_duplicates();
            indices@.lemma_multiset_has_no_duplicates_conv();
            assert(indices@.no_duplicates());
        }

        // Mark the first `mines` drawn indices as mines.
        proof {
            lemma_count_none(self.cells@, |c: Cell| c.content is Mine);
        }
        let m = self.mines as usize;
        let mut k: usize = 0;
        while k < m
            invariant
                k <= m,
                m < total_us,
                total_us == orig.total(),
                m == orig.mines,
                indices@.len() == total_us - 1,
                indices@.no_duplicates(),
                forall|j: int|
                    0 <= j < indices@.len() ==> (#[trigger] indices@[j]) < total_us && indices@[j]
                        != safe_index,
                safe_index < total_us,
                self.rows == orig.rows,
                self.cols == orig.cols,
                self.mines == orig.mines,
                self.status == orig.status,
                self.flags_placed == orig.flags_placed,
                self.elapsed_seconds == orig.elapsed_seconds,
                self.cells@.len() == orig.cells@.len(),
                orig.cells@.len() == total_us,
                forall|i: int|
                    0 <= i < orig.cells@.len() ==> ((#[trigger] self.cells@[i]).state
                        == orig.cells@[i].state && self.cells@[i].exploded
                        == orig.cells@[i].exploded && self.cells@[i].wrong_flag
                        == orig.cells@[i].wrong_flag),
                forall|i: int|
                    0 <= i < self.cells@.len() ==> ((#[trigger] self.cells@[i]).content is Mine
                        <==> exists|j: int| 0 <= j < k && indices@[j] == i),
                forall|i: int|
                    0 <= i < self.cells@.len() ==> ((#[trigger] self.cells@[i]).content is Mine
                        || self.cells@[i].content is Empty),
                count_mines(self.cells@) == k,
            decreases m - k,
        {
            let idx = indices[k];
            let ghost prev = self.cells@;
            let mut cell = self.cells[idx];
            proof {
                assert(!(prev[idx as int].content is Mine));
                lemma_count_update(
                    prev,
                    |c: Cell| c.content is Mine,
                    idx as int,
                    with_content(prev[idx as int], CellContent::Mine),
                );
            }
            cell.content = CellContent::Mine;
            self.cells.set(idx, cell);
            k = k + 1;
        }
        proof {
            assert(!(self.cells@[safe_index as int].content is Mine));
        }

        // Write the numeric hints from the final mine layout.
        let ghost mined = self.cells@;
        proof {
            let rows_i = orig.rows as int;
            let cols_i = orig.cols as int;
            assert forall|rr: int, cc: int|
                grid_in_bounds(rows_i, cols_i, rr, cc) implies (!((#[trigger] cell_at_pos(
                self.cells@,
                cols_i,
                rr,
                cc,
            )).content is Mine) ==> cell_at_pos(self.cells@, cols_i, rr, cc).content is Empty) by {
                lemma_grid_index_bounds(rr, cc, rows_i, cols_i);
            }
        }
        let mut r: u32 = 0;
        while r < self.rows
            invariant
                r <= self.rows,
                self.rows == orig.rows,
                self.cols == orig.cols,
                self.mines == orig.mines,
                self.status == orig.status,
                self.flags_placed == orig.flags_placed,
                self.elapsed_seconds == orig.elapsed_seconds,
                self.cells@.len() == orig.cells@.len(),
                orig.cells@.len() == orig.total(),
                orig.dims_ok(),
                forall|i: int|
                    0 <= i < orig.cells@.len() ==> ((#[trigger] self.cells@[i]).state
                        == orig.cells@[i].state && self.cells@[i].exploded
                        == orig.cells@[i].exploded && self.cells@[i].wrong_flag
                        == orig.cells@[i].wrong_flag),
                mined.len() == self.cells@.len(),
                forall|i: int|
                    0 <= i < self.cells@.len() ==> ((#[trigger] self.cells@[i]).content is Mine
                        <==> mined[i].content is Mine),
                forall|i: int|
                    0 <= i < self.cells@.len() ==> ((#[trigger] self.cells@[i]).content is Mine
                        || self.cells@[i].content is Empty || self.cells@[i].content is Number),
                forall|rr: int, cc: int|
                    grid_in_bounds(orig.rows as int, orig.cols as int, rr, cc) && rr < r as int
                        ==> number_ok(self.cells@, orig.rows as int, orig.cols as int, rr, cc),
                forall|rr: int, cc: int|
                    grid_in_bounds(orig.rows as int, orig.cols as int, rr, cc) && rr >= r as int
                        ==> (!((#[trigger] cell_at_pos(
                        self.cells@,
                        orig.cols as int,
                        rr,
                        cc,
                    )).content is Mine) ==> cell_at_pos(
                        self.cells@,
                        orig.cols as int,
                        rr,
                        cc,
                    ).content is Empty),
            decreases self.rows - r,
        {
            let mut c: u32 = 0;
            while c < self.cols
                invariant
                    r < self.rows,
                    c <= self.cols,
                    self.rows == orig.rows,
                    self.cols == orig.cols,
                    self.mines == orig.mines,
                    self.status == orig.status,
                    self.flags_placed == orig.flags_placed,
                    self.elapsed_seconds == orig.elapsed_seconds,
                    self.cells@.len() == orig.cells@.len(),
                    orig.cells@.len() == orig.total(),
                    orig.dims_ok(),
                    forall|i: int|
                        0 <= i < orig.cells@.len() ==> ((#[trigger] self.cells@[i]).state
                            == orig.cells@[i].state && self.cells@[i].exploded
                            == orig.cells@[i].exploded && self.cells@[i].wrong_flag
                            == orig.cells@[i].wrong_flag),
                    mined.len() == self.cells@.len(),
                    forall|i: int|
                        0 <= i < self.cells@.len() ==> ((#[trigger] self.cells@[i]).content is Mine
                            <==> mined[i].content is Mine),
                    forall|rr: int, cc: int|
                        grid_in_bounds(orig.rows as int, orig.cols as int, rr, cc) && (rr
                            < r as int || (rr == r as int && cc < c as int)) ==> number_ok(
                            self.cells@,
                            orig.rows as int,
                            orig.cols as int,
                            rr,
                            cc,
                        ),
                    forall|rr: int, cc: int|
                        grid_in_bounds(orig.rows as int, orig.cols as int, rr, cc) && (rr
                            > r as int || (rr == r as int && cc >= c as int)) ==> (!((
                        #[trigger] cell_at_pos(
                            self.cells@,
                            orig.cols as int,
                            rr,
                            cc,
                        )).content is Mine) ==> cell_at_pos(
                            self.cells@,
                            orig.cols as int,
                            rr,
                            cc,
                        ).content is Empty),
                decreases self.cols - c,
            {
                let i = self.index(r, c);
                let cur = self.cells[i];
                let ghost prev = self.cells@;
                if !(cur.content == CellContent::Mine) {
                    let n = self.count_adjacent_mines(r, c);
                    if n > 0 {
                        let mut cell = cur;
                        cell.content = CellContent::Number(n as u8);
                        self.cells.set(i, cell);
                    }
                }
                proof {
                    let rows_i = orig.rows as int;
                    let cols_i = orig.cols as int;
                    assert forall|rr: int, cc: int|
                        grid_in_bounds(rows_i, cols_i, rr, cc) && (rr < r as int || (rr == r as int
                            && cc <= c as int)) implies number_ok(
                        self.cells@,
                        rows_i,
                        cols_i,
                        rr,
                        cc,
                    ) by {
                        let pcell = cell_at_pos(prev, cols_i, rr, cc);
                        let pok = number_ok(prev, rows_i, cols_i, rr, cc);
                        lemma_grid_index_bounds(rr, cc, rows_i, cols_i);
                        lemma_grid_index_bounds(r as int, c as int, rows_i, cols_i);
                        if grid_idx(cols_i, rr, cc) == grid_idx(cols_i, r as int, c as int) {
                            lemma_grid_index_injective(cols_i, rr, cc, r as int, c as int);
                        }
                        lemma_adjacent_mines_stable(prev, self.cells@, rows_i, cols_i, rr, cc);
                    }
                    assert forall|rr: int, cc: int|
                        grid_in_bounds(rows_i, cols_i, rr, cc) && (rr > r as int || (rr == r as int
                            && cc > c as int)) implies (!((#[trigger] cell_at_pos(
                        self.cells@,
                        cols_i,
                        rr,
                        cc,
                    )).content is Mine) ==> cell_at_pos(
                        self.cells@,
                        cols_i,
                        rr,
                        cc,
                    ).content is Empty) by {
                        let pcell = cell_at_pos(prev, cols_i, rr, cc);
                        lemma_grid_index_bounds(rr, cc, rows_i, cols_i);
                        lemma_grid_index_bounds(r as int, c as int, rows_i, cols_i);
                        if grid_idx(cols_i, rr, cc) == grid_idx(cols_i, r as int, c as int) {
                            lemma_grid_index_injective(cols_i, rr, cc, r as int, c as int);
                        }
                    }
                    assert forall|i2: int| 0 <= i2 < self.cells@.len() implies ((
                    #[trigger] self.cells@[i2]).content is Mine <==> mined[i2].content is Mine) by {
                    }
                }
                c = c + 1;
            }
            r = r + 1;
        }
        proof {
            let rows_i = orig.rows as int;
            let cols_i = orig.cols as int;
            lemma_count_pointwise(
                mined,
                self.cells@,
                |c: Cell| c.content is Mine,
            );
            assert(count_mines(self.cells@) == orig.mines);
            assert(numbers_correct(self.cells@, rows_i, cols_i));
            lemma_grid_index_bounds(safe_row as int, safe_col as int, rows_i, cols_i);
            assert(!(self.cells@[grid_idx(cols_i, safe_row as int, safe_col as int)].content
                is Mine));
        }
    }
}

} // verus!
