use minesweeper::{GameError, Minesweeper, Position};

fn cell_at(board: &Minesweeper, row: usize, col: usize) -> char {
    let text = board.render();
    let line = text.lines().nth(row).expect("row out of range");
    line.chars().nth(col).expect("column out of range")
}

#[test]
fn game_test() {
    let mut game = Minesweeper::new(5, 5, 3).unwrap();
    game.open(Position(2, 2));
    println!("{}", game.render());
}

#[test]
fn neighbors_test() {
    let game = Minesweeper::new(5, 8, 3).unwrap();
    println!("{:?}", game.neighbors(Position(0, 1)));
    println!("{:?}", game.neighbors(Position(3, 7)));
    println!("{:?}", game.neighbors(Position(4, 7)));
}

#[test]
fn flag_test() {
    let mut game = Minesweeper::new(5, 5, 4).unwrap();
    game.flag(Position(2, 2));
    game.flag(Position(2, 4));
    println!("{}", game.render());
}

#[test]
fn invalid_configuration_rejected() {
    assert_eq!(
        Minesweeper::new(2, 2, 4).unwrap_err(),
        GameError::InvalidConfiguration
    );
    assert_eq!(
        Minesweeper::new(0, 5, 0).unwrap_err(),
        GameError::InvalidConfiguration
    );
    assert_eq!(
        Minesweeper::new(5, 0, 0).unwrap_err(),
        GameError::InvalidConfiguration
    );
    let board = Minesweeper::new(2, 2, 3).unwrap();
    assert_eq!(board.remaining_safe(), 1);
}

#[test]
fn explicit_mine_list_validated() {
    // a position off the grid is rejected
    assert_eq!(
        Minesweeper::with_mines(2, 2, &vec![Position(2, 0)]).unwrap_err(),
        GameError::InvalidConfiguration
    );
    // a repeated position is rejected
    assert_eq!(
        Minesweeper::with_mines(3, 3, &vec![Position(1, 1), Position(1, 1)]).unwrap_err(),
        GameError::InvalidConfiguration
    );
    // as many mines as cells is rejected
    assert_eq!(
        Minesweeper::with_mines(1, 2, &vec![Position(0, 0), Position(0, 1)]).unwrap_err(),
        GameError::InvalidConfiguration
    );
    let board = Minesweeper::with_mines(2, 2, &vec![Position(0, 1)]).unwrap();
    assert_eq!(board.remaining_safe(), 3);
    assert!(!board.has_ended());
}

#[test]
fn random_board_counts_safe_cells() {
    let board = Minesweeper::new(5, 5, 3).unwrap();
    assert_eq!(board.remaining_safe(), 22);
    assert!(!board.has_ended());
    // every cell starts closed
    assert_eq!(board.render(), "#####\n#####\n#####\n#####\n#####\n");
}

#[test]
fn direct_hit_detonates() {
    let mut board = Minesweeper::with_mines(3, 3, &vec![Position(1, 1)]).unwrap();
    board.open(Position(1, 1));
    assert!(board.has_ended());
    assert_eq!(cell_at(&board, 1, 1), '*');
    // the rest of the board is untouched
    assert_eq!(board.render(), "###\n#*#\n###\n");
}

#[test]
fn counter_drops_by_newly_revealed_cells() {
    let mut board = Minesweeper::with_mines(1, 4, &vec![Position(0, 3)]).unwrap();
    assert_eq!(board.remaining_safe(), 3);
    board.open(Position(0, 2));
    // only (0,2) is revealed: its count of 1 blocks expansion
    assert_eq!(board.remaining_safe(), 2);
    board.open(Position(0, 0));
    // the zero region reveals (0,0) and (0,1): two cells, and the game is won
    assert_eq!(board.remaining_safe(), 0);
    assert!(board.has_ended());
}

#[test]
fn reveal_twice_is_noop() {
    let mut board = Minesweeper::with_mines(3, 3, &vec![Position(1, 1)]).unwrap();
    board.open(Position(0, 0));
    let first = board.render();
    let remaining = board.remaining_safe();
    board.open(Position(0, 0));
    assert_eq!(board.render(), first);
    assert_eq!(board.remaining_safe(), remaining);
    assert!(!board.has_ended());
}

#[test]
fn flood_fill_never_opens_a_mine() {
    let mut board = Minesweeper::with_mines(1, 4, &vec![Position(0, 3)]).unwrap();
    board.open(Position(0, 0));
    // the fill sweeps the whole safe region and wins, but the mine stays closed
    assert!(board.has_ended());
    assert_eq!(board.render(), "..1#\n");
}

#[test]
fn flag_toggle_is_its_own_inverse() {
    let mut board = Minesweeper::with_mines(2, 2, &vec![Position(0, 0)]).unwrap();
    let before = board.render();
    board.flag(Position(1, 1));
    assert_eq!(cell_at(&board, 1, 1), 'F');
    board.flag(Position(1, 1));
    assert_eq!(board.render(), before);
    assert_eq!(board.remaining_safe(), 3);
    assert!(!board.has_ended());
}

#[test]
fn flag_on_revealed_cell_is_noop() {
    let mut board = Minesweeper::with_mines(3, 3, &vec![Position(1, 1)]).unwrap();
    board.open(Position(0, 0));
    let before = board.render();
    board.flag(Position(0, 0));
    assert_eq!(board.render(), before);
}

#[test]
fn one_reveal_wins_empty_two_by_two() {
    let mut board = Minesweeper::new(2, 2, 0).unwrap();
    board.open(Position(0, 1));
    assert_eq!(board.render(), "..\n..\n");
    assert!(board.has_ended());
    assert_eq!(board.remaining_safe(), 0);
}

#[test]
fn one_by_one_board_wins_at_once() {
    let mut board = Minesweeper::new(1, 1, 0).unwrap();
    board.open(Position(0, 0));
    assert_eq!(cell_at(&board, 0, 0), '.');
    assert_eq!(board.remaining_safe(), 0);
    assert!(board.has_ended());
}

#[test]
fn nonzero_count_blocks_expansion() {
    let mut board = Minesweeper::with_mines(3, 3, &vec![Position(1, 1)]).unwrap();
    board.open(Position(0, 0));
    assert_eq!(cell_at(&board, 0, 0), '1');
    assert_eq!(board.render(), "1##\n###\n###\n");
    assert!(!board.has_ended());
}

#[test]
fn flagged_mine_still_detonates() {
    let mut board = Minesweeper::with_mines(2, 2, &vec![Position(0, 0)]).unwrap();
    board.flag(Position(0, 0));
    assert_eq!(cell_at(&board, 0, 0), 'F');
    board.open(Position(0, 0));
    assert!(board.has_ended());
    assert_eq!(cell_at(&board, 0, 0), '*');
}

#[test]
fn win_clears_remaining_flags() {
    let mut board = Minesweeper::with_mines(1, 4, &vec![Position(0, 3)]).unwrap();
    board.flag(Position(0, 3));
    board.open(Position(0, 0));
    assert!(board.has_ended());
    // the flag on the mine is cosmetic and cleared on the win
    assert_eq!(board.render(), "..1#\n");
}

#[test]
fn neighbor_counts_render_as_digits() {
    // center cell surrounded by eight mines
    let ring = vec![
        Position(0, 0),
        Position(0, 1),
        Position(0, 2),
        Position(1, 0),
        Position(1, 2),
        Position(2, 0),
        Position(2, 1),
        Position(2, 2),
    ];
    let mut board = Minesweeper::with_mines(3, 3, &ring).unwrap();
    board.open(Position(1, 1));
    assert_eq!(cell_at(&board, 1, 1), '8');
    assert!(board.has_ended());

    // a cell between two mines counts both
    let mut line = Minesweeper::with_mines(1, 5, &vec![Position(0, 0), Position(0, 2)]).unwrap();
    line.open(Position(0, 1));
    assert_eq!(cell_at(&line, 0, 1), '2');
}
