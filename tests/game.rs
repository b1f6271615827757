use minesweeper::minesweeper::{elapsed_seconds, new, GameStatus, Minesweeper, Settings};

fn game(dx: usize, dy: usize, mines: Vec<usize>) -> Minesweeper {
    let mut g = new(Settings { dx, dy, mine_count: mines.len() });
    g.restart_with_mines(&mines);
    g
}

fn revealed_cells(g: &Minesweeper) -> usize {
    g.board_clone().iter().map(|r| r.iter().filter(|f| f.is_revealed()).count()).sum()
}

#[test]
fn two_by_two_numbered_cell_does_not_flood() {
    let mut g = game(2, 2, vec![0]);
    g.reveal_cell(1, 1);
    let b = g.board_clone();
    assert!(b[1][1].is_revealed());
    assert_eq!(b[1][1].adjacent_mines(), 1);
    assert_eq!(revealed_cells(&g), 1);
    assert_eq!(g.status(), GameStatus::Running);
    g.reveal_cell(0, 1);
    g.reveal_cell(1, 0);
    g.flag(0, 0);
    assert_eq!(g.status(), GameStatus::Win);
}

#[test]
fn flagging_twice_restores_the_board() {
    let mut g = game(3, 3, vec![0, 8]);
    let before = g.board_clone();
    g.flag(1, 1);
    g.flag(1, 1);
    assert_eq!(g.board_clone(), before);
    assert_eq!(g.flagged_count(), 0);
    assert_eq!(g.status(), GameStatus::Running);
}

#[test]
fn two_by_two_win_by_flag_alone() {
    let mut g = game(2, 2, vec![0]);
    g.reveal_cell(1, 1);
    g.flag(0, 0);
    assert_eq!(g.flagged_count(), 1);
    assert_eq!(g.status(), GameStatus::Win);
}

#[test]
fn empty_board_floods_in_one_call() {
    let mut g = game(3, 3, vec![]);
    g.reveal_cell(1, 1);
    assert_eq!(revealed_cells(&g), 9);
    assert_eq!(g.status(), GameStatus::Win);
}

#[test]
fn flood_stops_at_numbered_border() {
    // mine in the top right corner of a 4 x 4 board
    let mut g = game(4, 4, vec![3]);
    g.reveal_cell(0, 3);
    let b = g.board_clone();
    assert_eq!(revealed_cells(&g), 15);
    assert!(!b[0][3].is_revealed());
    assert_eq!(b[0][2].adjacent_mines(), 1);
    assert_eq!(b[1][3].adjacent_mines(), 1);
    assert_eq!(b[1][2].adjacent_mines(), 1);
    assert_eq!(g.status(), GameStatus::Win);
}

#[test]
fn flood_is_blocked_by_flags() {
    let mut g = game(5, 1, vec![4]);
    g.flag(1, 0);
    g.reveal_cell(0, 0);
    let b = g.board_clone();
    assert!(b[0][0].is_revealed());
    assert!(!b[0][1].is_revealed());
    assert!(!b[0][2].is_revealed());
    assert_eq!(g.status(), GameStatus::Running);
}

#[test]
fn hidden_cells_give_nothing_away() {
    let g = game(2, 2, vec![0]);
    for row in g.board_clone() {
        for f in row {
            assert!(!f.is_mine());
            assert_eq!(f.adjacent_mines(), 0);
        }
    }
}

#[test]
fn revealing_a_mine_ends_the_game() {
    let mut g = game(2, 2, vec![0]);
    g.reveal_cell(0, 0);
    assert_eq!(g.status(), GameStatus::GameOver);
    let before = g.board_clone();
    assert!(before[0][0].is_mine());
    g.reveal_cell(1, 1);
    g.flag(1, 0);
    assert_eq!(g.board_clone(), before);
    assert_eq!(g.status(), GameStatus::GameOver);
}

#[test]
fn flag_and_reveal_exclude_each_other() {
    let mut g = game(3, 3, vec![0, 8]);
    g.flag(1, 1);
    g.reveal_cell(1, 1);
    assert!(!g.board_clone()[1][1].is_revealed());
    g.flag(1, 1);
    g.reveal_cell(1, 1);
    assert!(g.board_clone()[1][1].is_revealed());
    g.flag(1, 1);
    assert!(!g.board_clone()[1][1].is_flagged());
    assert_eq!(g.flagged_count(), 0);
}

#[test]
fn flag_counter_follows_toggles() {
    let mut g = game(3, 3, vec![0, 8]);
    g.flag(1, 0);
    g.flag(2, 0);
    assert_eq!(g.flagged_count(), 2);
    g.flag(1, 0);
    assert_eq!(g.flagged_count(), 1);
    assert_eq!(g.status(), GameStatus::Running);
}

#[test]
fn flagging_every_mine_wins() {
    let mut g = game(3, 3, vec![0, 8]);
    g.flag(0, 0);
    assert_eq!(g.status(), GameStatus::Running);
    g.flag(2, 2);
    assert_eq!(g.status(), GameStatus::Win);
}

#[test]
fn revealing_every_safe_cell_wins() {
    let mut g = game(3, 1, vec![1]);
    g.reveal_cell(0, 0);
    assert_eq!(g.status(), GameStatus::Running);
    g.reveal_cell(2, 0);
    assert_eq!(g.status(), GameStatus::Win);
}

#[test]
fn repeated_reveal_changes_nothing() {
    let mut g = game(3, 1, vec![1]);
    g.reveal_cell(0, 0);
    let before = g.board_clone();
    g.reveal_cell(0, 0);
    assert_eq!(g.board_clone(), before);
}

#[test]
fn off_board_moves_are_ignored() {
    let mut g = game(2, 2, vec![0]);
    g.reveal_cell(5, 0);
    g.flag(0, 7);
    assert_eq!(revealed_cells(&g), 0);
    assert_eq!(g.flagged_count(), 0);
}

#[test]
fn random_restart_keeps_settings() {
    let mut g = new(Settings::beginner());
    assert_eq!(g.mine_count(), 10);
    assert_eq!(g.board_clone().len(), 8);
    assert_eq!(g.board_clone()[0].len(), 8);
    g.restart();
    assert_eq!(g.status(), GameStatus::Running);
    assert_eq!(revealed_cells(&g), 0);
    let _ = g.seconds_running();
    assert_eq!(elapsed_seconds(1000, 3999), 2);
    assert_eq!(elapsed_seconds(5000, 4000), 0);
    assert_eq!(elapsed_seconds(0, 0), 0);
    let e = Settings::expert();
    assert_eq!((e.dx, e.dy, e.mine_count), (30, 16, 99));
    let i = Settings::intermediate();
    assert_eq!((i.dx, i.dy, i.mine_count), (16, 16, 40));
}

#[test]
fn random_mines_match_the_count() {
    // random placement on 1 x 4 with 3 mines: flagging every cell flags all three
    // mines, whichever cells they are on, and wins
    let mut g = new(Settings { dx: 4, dy: 1, mine_count: 3 });
    for x in 0..4 {
        g.flag(x, 0);
    }
    assert_eq!(g.status(), GameStatus::Win);
}
