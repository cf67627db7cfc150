//! Behavioral tests for the minesweeper engine, run against the real
//! random generator.

use minesweeper::game::{Cell, CellContent, CellState, Difficulty, GameStatus, Minesweeper};

fn blank_cells(n: usize) -> Vec<Cell> {
    let mut cells = Vec::new();
    for _ in 0..n {
        cells.push(Cell::new());
    }
    cells
}

/// 3x3 board, mines at (0,0) and (2,2), numbers written by hand:
///   M 1 .
///   1 2 1
///   . 1 M
fn board_3x3_two_mines() -> Minesweeper {
    let mut cells = blank_cells(9);
    cells[0].content = CellContent::Mine;
    cells[1].content = CellContent::Number(1);
    cells[3].content = CellContent::Number(1);
    cells[4].content = CellContent::Number(2);
    cells[5].content = CellContent::Number(1);
    cells[7].content = CellContent::Number(1);
    cells[8].content = CellContent::Mine;
    Minesweeper {
        rows: 3,
        cols: 3,
        mines: 2,
        cells,
        status: GameStatus::Playing,
        flags_placed: 0,
        elapsed_seconds: 0,
    }
}

/// 3x3 board with a single mine in the corner:
///   M 1 .
///   1 1 .
///   . . .
fn board_3x3_one_mine() -> Minesweeper {
    let mut cells = blank_cells(9);
    cells[0].content = CellContent::Mine;
    cells[1].content = CellContent::Number(1);
    cells[3].content = CellContent::Number(1);
    cells[4].content = CellContent::Number(1);
    Minesweeper {
        rows: 3,
        cols: 3,
        mines: 1,
        cells,
        status: GameStatus::Playing,
        flags_placed: 0,
        elapsed_seconds: 0,
    }
}

/// 4x4 board with mines at (0,3) and (3,3); the empty region on the left
/// is separated from the hidden cells (1,3) and (2,3) by number cells.
///   . . 1 M
///   . . 1 1
///   . . 1 1
///   . . 1 M
fn board_4x4_two_mines() -> Minesweeper {
    let mut cells = blank_cells(16);
    let num = |n: u8| CellContent::Number(n);
    cells[3].content = CellContent::Mine;
    cells[15].content = CellContent::Mine;
    cells[2].content = num(1);
    cells[6].content = num(1);
    cells[7].content = num(1);
    cells[10].content = num(1);
    cells[11].content = num(1);
    cells[14].content = num(1);
    Minesweeper {
        rows: 4,
        cols: 4,
        mines: 2,
        cells,
        status: GameStatus::Playing,
        flags_placed: 0,
        elapsed_seconds: 0,
    }
}

#[test]
fn new_board_is_blank_for_every_difficulty() {
    let presets = [
        (Difficulty::Beginner, 9, 9, 10),
        (Difficulty::Intermediate, 16, 16, 40),
        (Difficulty::Expert, 16, 30, 99),
    ];
    for (d, rows, cols, mines) in presets {
        let game = Minesweeper::new(d);
        assert_eq!(game.rows, rows);
        assert_eq!(game.cols, cols);
        assert_eq!(game.mines, mines);
        assert!(game.rows * game.cols > game.mines && game.mines > 0);
        assert_eq!(game.status, GameStatus::NotStarted);
        assert_eq!(game.flags_placed, 0);
        assert_eq!(game.elapsed_seconds, 0);
        assert_eq!(game.cells.len(), (rows * cols) as usize);
        for cell in &game.cells {
            assert_eq!(cell.content, CellContent::Empty);
            assert_eq!(cell.state, CellState::Hidden);
            assert!(!cell.exploded);
            assert!(!cell.wrong_flag);
        }
    }
}

#[test]
fn config_matches_presets() {
    assert_eq!(Difficulty::Beginner.config(), (9, 9, 10));
    assert_eq!(Difficulty::Intermediate.config(), (16, 16, 40));
    assert_eq!(Difficulty::Expert.config(), (16, 30, 99));
}

#[test]
fn first_reveal_is_never_a_mine() {
    for d in [Difficulty::Beginner, Difficulty::Intermediate, Difficulty::Expert] {
        for trial in 0..20u32 {
            let mut game = Minesweeper::new(d);
            let r = trial % game.rows;
            let c = (trial * 7) % game.cols;
            game.reveal_at(r, c);
            let idx = game.index(r, c);
            assert_ne!(game.cells[idx].content, CellContent::Mine);
            assert_ne!(game.status, GameStatus::Lost);
        }
    }
}

#[test]
fn first_click_safe_on_all_beginner_positions() {
    for r in 0..9u32 {
        for c in 0..9u32 {
            let mut game = Minesweeper::new(Difficulty::Beginner);
            game.reveal_at(r, c);
            let idx = game.index(r, c);
            assert_ne!(game.cells[idx].content, CellContent::Mine);
            assert_ne!(game.status, GameStatus::Lost);
            let mines = game
                .cells
                .iter()
                .filter(|cell| cell.content == CellContent::Mine)
                .count();
            assert_eq!(mines, 10);
        }
    }
}

#[test]
fn numbers_equal_exact_neighbor_mine_counts() {
    let mut game = Minesweeper::new(Difficulty::Beginner);
    game.reveal_at(4, 4);
    for r in 0..game.rows {
        for c in 0..game.cols {
            let idx = game.index(r, c);
            if game.cells[idx].content == CellContent::Mine {
                continue;
            }
            let count = game
                .neighbors(r, c)
                .iter()
                .filter(|&&(nr, nc)| {
                    let n_idx = (nr * game.cols + nc) as usize;
                    game.cells[n_idx].content == CellContent::Mine
                })
                .count();
            if count == 0 {
                assert_eq!(game.cells[idx].content, CellContent::Empty);
            } else {
                assert_eq!(game.cells[idx].content, CellContent::Number(count as u8));
            }
        }
    }
}

#[test]
fn neighbors_of_corner_edge_and_center() {
    let game = Minesweeper::new(Difficulty::Beginner);
    let corner = game.neighbors(0, 0);
    assert_eq!(corner.len(), 3);
    assert!(corner.contains(&(0, 1)));
    assert!(corner.contains(&(1, 0)));
    assert!(corner.contains(&(1, 1)));
    let edge = game.neighbors(0, 4);
    assert_eq!(edge.len(), 5);
    let center = game.neighbors(4, 4);
    assert_eq!(center.len(), 8);
    for (nr, nc) in center {
        assert!(nr >= 3 && nr <= 5 && nc >= 3 && nc <= 5);
        assert!(!(nr == 4 && nc == 4));
    }
}

#[test]
fn index_is_row_major() {
    let game = Minesweeper::new(Difficulty::Expert);
    assert_eq!(game.index(0, 0), 0);
    assert_eq!(game.index(0, 29), 29);
    assert_eq!(game.index(1, 0), 30);
    assert_eq!(game.index(15, 29), 479);
}

#[test]
fn flood_fill_reveals_exactly_the_component_and_its_border() {
    let mut game = board_4x4_two_mines();
    game.reveal_at(0, 0);
    assert_eq!(game.status, GameStatus::Playing);
    let revealed: Vec<(u32, u32)> = vec![
        (0, 0),
        (0, 1),
        (0, 2),
        (1, 0),
        (1, 1),
        (1, 2),
        (2, 0),
        (2, 1),
        (2, 2),
        (3, 0),
        (3, 1),
        (3, 2),
    ];
    for r in 0..4u32 {
        for c in 0..4u32 {
            let idx = game.index(r, c);
            if revealed.contains(&(r, c)) {
                assert_eq!(game.cells[idx].state, CellState::Revealed, "({r},{c})");
            } else {
                assert_eq!(game.cells[idx].state, CellState::Hidden, "({r},{c})");
            }
        }
    }
}

#[test]
fn flood_fill_does_not_pass_flagged_cells() {
    let mut game = board_4x4_two_mines();
    game.toggle_flag(2, 0);
    game.toggle_flag(2, 1);
    game.reveal_at(0, 0);
    assert_eq!(game.status, GameStatus::Playing);
    // the flags cut row 3 off from the flooded region
    let idx_30 = game.index(3, 0);
    let idx_31 = game.index(3, 1);
    let idx_32 = game.index(3, 2);
    assert_eq!(game.cells[idx_30].state, CellState::Hidden);
    assert_eq!(game.cells[idx_31].state, CellState::Hidden);
    assert_eq!(game.cells[idx_32].state, CellState::Hidden);
    let idx_20 = game.index(2, 0);
    let idx_21 = game.index(2, 1);
    assert_eq!(game.cells[idx_20].state, CellState::Flagged);
    assert_eq!(game.cells[idx_21].state, CellState::Flagged);
    let idx_00 = game.index(0, 0);
    let idx_12 = game.index(1, 2);
    assert_eq!(game.cells[idx_00].state, CellState::Revealed);
    assert_eq!(game.cells[idx_12].state, CellState::Revealed);
}

#[test]
fn question_mark_does_not_block_reveal() {
    let mut game = board_3x3_two_mines();
    game.toggle_flag(1, 1);
    game.toggle_flag(1, 1);
    let idx = game.index(1, 1);
    assert_eq!(game.cells[idx].state, CellState::QuestionMark);
    game.reveal_at(1, 1);
    assert_eq!(game.cells[idx].state, CellState::Revealed);
}

#[test]
fn flag_blocks_reveal() {
    let mut game = board_3x3_two_mines();
    game.toggle_flag(1, 1);
    game.reveal_at(1, 1);
    let idx = game.index(1, 1);
    assert_eq!(game.cells[idx].state, CellState::Flagged);
    assert_eq!(game.status, GameStatus::Playing);
}

#[test]
fn winning_reveal_autoflags_mines() {
    let mut game = board_3x3_one_mine();
    game.reveal_at(2, 2);
    assert_eq!(game.status, GameStatus::Won);
    assert_eq!(game.flags_placed, 1);
    let mine_idx = game.index(0, 0);
    assert_eq!(game.cells[mine_idx].state, CellState::Flagged);
    for r in 0..3u32 {
        for c in 0..3u32 {
            let idx = game.index(r, c);
            if game.cells[idx].content != CellContent::Mine {
                assert_eq!(game.cells[idx].state, CellState::Revealed);
            }
        }
    }
}

#[test]
fn losing_reveal_marks_the_whole_board() {
    let mut game = board_3x3_two_mines();
    game.toggle_flag(0, 0);
    game.toggle_flag(0, 1);
    assert_eq!(game.flags_placed, 2);
    game.reveal_at(2, 2);
    assert_eq!(game.status, GameStatus::Lost);
    let idx_22 = game.index(2, 2);
    assert_eq!(game.cells[idx_22].state, CellState::Revealed);
    assert!(game.cells[idx_22].exploded);
    // the correctly flagged mine keeps its flag
    let idx_00 = game.index(0, 0);
    assert_eq!(game.cells[idx_00].state, CellState::Flagged);
    assert!(!game.cells[idx_00].wrong_flag);
    // the wrong flag is exposed
    let idx_01 = game.index(0, 1);
    assert_eq!(game.cells[idx_01].state, CellState::Revealed);
    assert!(game.cells[idx_01].wrong_flag);
    // only the detonated cell is marked exploded
    for r in 0..3u32 {
        for c in 0..3u32 {
            let idx = game.index(r, c);
            if (r, c) != (2, 2) {
                assert!(!game.cells[idx].exploded, "({r},{c})");
            }
        }
    }
    // mutators are no-ops after the loss
    game.toggle_flag(2, 0);
    assert_eq!(game.flags_placed, 2);
    game.reveal_at(1, 1);
    let idx_11 = game.index(1, 1);
    assert_ne!(game.cells[idx_11].state, CellState::Revealed);
    assert!(!game.chord(1, 1));
}

#[test]
fn losing_reveal_shows_unflagged_mines() {
    let mut game = board_3x3_two_mines();
    game.reveal_at(0, 0);
    assert_eq!(game.status, GameStatus::Lost);
    let idx_00 = game.index(0, 0);
    let idx_22 = game.index(2, 2);
    assert!(game.cells[idx_00].exploded);
    assert_eq!(game.cells[idx_00].state, CellState::Revealed);
    // the other, unflagged mine is shown too, without exploding
    assert_eq!(game.cells[idx_22].state, CellState::Revealed);
    assert!(!game.cells[idx_22].exploded);
}

#[test]
fn toggle_flag_cycles_and_counts() {
    let mut game = Minesweeper::new(Difficulty::Beginner);
    let idx = game.index(3, 3);
    assert_eq!(game.cells[idx].state, CellState::Hidden);
    game.toggle_flag(3, 3);
    assert_eq!(game.cells[idx].state, CellState::Flagged);
    assert_eq!(game.flags_placed, 1);
    game.toggle_flag(3, 3);
    assert_eq!(game.cells[idx].state, CellState::QuestionMark);
    assert_eq!(game.flags_placed, 0);
    game.toggle_flag(3, 3);
    assert_eq!(game.cells[idx].state, CellState::Hidden);
    assert_eq!(game.flags_placed, 0);
    // flagging before the first reveal does not start the game
    assert_eq!(game.status, GameStatus::NotStarted);
    // the counter always equals the number of flagged cells
    game.toggle_flag(0, 0);
    game.toggle_flag(8, 8);
    let flagged = game
        .cells
        .iter()
        .filter(|cell| cell.state == CellState::Flagged)
        .count();
    assert_eq!(game.flags_placed as usize, flagged);
}

#[test]
fn toggle_flag_ignores_revealed_cells() {
    let mut game = board_3x3_one_mine();
    game.reveal_at(0, 1);
    let idx = game.index(0, 1);
    assert_eq!(game.cells[idx].state, CellState::Revealed);
    game.toggle_flag(0, 1);
    assert_eq!(game.cells[idx].state, CellState::Revealed);
    assert_eq!(game.flags_placed, 0);
}

#[test]
fn chord_without_matching_flags_changes_nothing() {
    let mut game = board_3x3_two_mines();
    game.reveal_at(1, 1);
    game.toggle_flag(0, 0);
    // one flag, but the cell reads 2
    let before: Vec<(CellContent, CellState)> = game
        .cells
        .iter()
        .map(|cell| (cell.content, cell.state))
        .collect();
    assert!(!game.chord(1, 1));
    let after: Vec<(CellContent, CellState)> = game
        .cells
        .iter()
        .map(|cell| (cell.content, cell.state))
        .collect();
    assert_eq!(before, after);
    assert_eq!(game.status, GameStatus::Playing);
    assert_eq!(game.flags_placed, 1);
}

#[test]
fn chord_on_hidden_or_empty_cell_does_not_fire() {
    let mut game = board_3x3_two_mines();
    assert!(!game.chord(1, 1));
    game.reveal_at(0, 2);
    assert!(!game.chord(0, 2));
    let mut fresh = Minesweeper::new(Difficulty::Beginner);
    assert!(!fresh.chord(0, 0));
    assert_eq!(fresh.status, GameStatus::NotStarted);
}

#[test]
fn chord_with_matching_flags_reveals_the_rest() {
    let mut game = board_3x3_two_mines();
    game.reveal_at(1, 1);
    game.toggle_flag(0, 0);
    game.toggle_flag(2, 2);
    assert!(game.chord(1, 1));
    // both flags were right: every other neighbor opens, which wins
    for r in 0..3u32 {
        for c in 0..3u32 {
            let idx = game.index(r, c);
            if game.cells[idx].content == CellContent::Mine {
                assert_eq!(game.cells[idx].state, CellState::Flagged);
            } else {
                assert_eq!(game.cells[idx].state, CellState::Revealed);
            }
        }
    }
    assert_eq!(game.status, GameStatus::Won);
    assert_eq!(game.flags_placed, 2);
}

#[test]
fn chord_with_wrong_flags_can_lose() {
    let mut game = board_3x3_two_mines();
    game.reveal_at(1, 1);
    game.toggle_flag(0, 1);
    game.toggle_flag(1, 0);
    // two flags satisfy Number(2), but both are wrong
    assert!(game.chord(1, 1));
    assert_eq!(game.status, GameStatus::Lost);
    let idx_00 = game.index(0, 0);
    assert!(game.cells[idx_00].exploded);
    let idx_01 = game.index(0, 1);
    assert!(game.cells[idx_01].wrong_flag);
}

#[test]
fn beginner_game_played_to_a_win() {
    let mut game = Minesweeper::new(Difficulty::Beginner);
    assert_eq!(game.flags_placed, 0);
    assert_eq!(game.status, GameStatus::NotStarted);
    game.reveal_at(4, 4);
    let idx = game.index(4, 4);
    assert_ne!(game.cells[idx].content, CellContent::Mine);
    assert!(game.status == GameStatus::Playing || game.status == GameStatus::Won);
    for r in 0..9u32 {
        for c in 0..9u32 {
            if game.status != GameStatus::Playing {
                break;
            }
            let i = game.index(r, c);
            if game.cells[i].content != CellContent::Mine {
                game.reveal_at(r, c);
            }
        }
    }
    assert_eq!(game.status, GameStatus::Won);
    assert_eq!(game.flags_placed, 10);
    for cell in &game.cells {
        if cell.content == CellContent::Mine {
            assert_eq!(cell.state, CellState::Flagged);
        } else {
            assert_eq!(cell.state, CellState::Revealed);
        }
    }
}

#[test]
fn reset_returns_to_a_fresh_board() {
    let mut game = Minesweeper::new(Difficulty::Beginner);
    game.reveal_at(0, 0);
    game.toggle_flag(5, 5);
    game.reset(Difficulty::Intermediate);
    assert_eq!(game.rows, 16);
    assert_eq!(game.cols, 16);
    assert_eq!(game.mines, 40);
    assert_eq!(game.status, GameStatus::NotStarted);
    assert_eq!(game.flags_placed, 0);
    assert_eq!(game.elapsed_seconds, 0);
    for cell in &game.cells {
        assert_eq!(cell.content, CellContent::Empty);
        assert_eq!(cell.state, CellState::Hidden);
    }
}

#[test]
fn tick_counts_seconds_only_in_play_and_caps() {
    let mut game = Minesweeper::new(Difficulty::Beginner);
    game.tick();
    assert_eq!(game.elapsed_seconds, 0);
    game.reveal_at(4, 4);
    if game.status == GameStatus::Playing {
        game.tick();
        assert_eq!(game.elapsed_seconds, 1);
        game.elapsed_seconds = 998;
        game.tick();
        assert_eq!(game.elapsed_seconds, 999);
        game.tick();
        assert_eq!(game.elapsed_seconds, 999);
    }
}

#[test]
fn reveal_on_revealed_cell_is_a_no_op() {
    let mut game = board_3x3_two_mines();
    game.reveal_at(1, 1);
    let before: Vec<(CellContent, CellState)> = game
        .cells
        .iter()
        .map(|cell| (cell.content, cell.state))
        .collect();
    game.reveal_at(1, 1);
    let after: Vec<(CellContent, CellState)> = game
        .cells
        .iter()
        .map(|cell| (cell.content, cell.state))
        .collect();
    assert_eq!(before, after);
    assert_eq!(game.status, GameStatus::Playing);
}
