use minesweeper::GameError;
use minesweeper::Minesweeper;
use minesweeper::OpenResult;
use minesweeper::random_range;

#[test]
fn lib_test() {
    let mut ms: Minesweeper = Minesweeper::new(10, 10, 5).unwrap();
    ms.open((5, 5)).unwrap();
    println!("{}", ms.render());
}

#[test]
fn minesweeper_test() {
    let mut ms: Minesweeper = Minesweeper::new(10, 10, 5).unwrap();
    ms.open((5, 5)).unwrap();
    ms.toggle_flag((6, 6)).unwrap();
    ms.open((6, 6)).unwrap();
    println!("{}", ms.render());
}

#[test]
fn constructed_board_has_exact_mines_in_bounds() {
    let b = Minesweeper::new(7, 4, 9).unwrap();
    assert_eq!(b.width(), 7);
    assert_eq!(b.height(), 4);
    assert_eq!(b.mine_total(), 9);
    let mut counted = 0;
    for y in 0..4 {
        for x in 0..7 {
            if b.is_mine((x, y)) {
                counted += 1;
            }
        }
    }
    assert_eq!(counted, 9);
}

#[test]
fn constructed_board_with_zero_mines() {
    let b = Minesweeper::new(3, 3, 0).unwrap();
    assert_eq!(b.mine_total(), 0);
}

#[test]
fn random_range_stays_in_range() {
    assert_eq!(random_range(0, 1), 0);
    for _ in 0..50 {
        let r = random_range(3, 10);
        assert!((3..10).contains(&r));
    }
}

#[test]
fn neighbors_corner_edge_interior() {
    let b = Minesweeper::new(3, 3, 0).unwrap();
    assert_eq!(b.iter_neighbors((0, 0)).len(), 3);
    assert_eq!(b.iter_neighbors((1, 0)).len(), 5);
    assert_eq!(b.iter_neighbors((1, 1)).len(), 8);
    let n = b.iter_neighbors((1, 1));
    assert!(!n.contains(&(1, 1)));
    for &(x, y) in &n {
        assert!(x < 3 && y < 3);
    }
    let mut a = b.iter_neighbors((2, 2));
    let mut c = b.iter_neighbors((2, 2));
    a.sort();
    c.sort();
    assert_eq!(a, c);
    assert_eq!(a.len(), 3);
}

#[test]
fn zero_region_cascades_in_one_call() {
    let mut b = Minesweeper::new_with_mines(4, 4, &vec![(3, 3)]);
    let r = b.open((0, 0)).unwrap().unwrap();
    assert_eq!(r, OpenResult::NoMine(0));
    for y in 0..4 {
        for x in 0..4 {
            if (x, y) == (3, 3) {
                assert!(!b.is_revealed((x, y)));
            } else {
                assert!(b.is_revealed((x, y)));
            }
        }
    }
    assert!(!b.is_lost());
}

#[test]
fn opening_flagged_cell_is_noop() {
    let mut b = Minesweeper::new_with_mines(3, 1, &vec![(2, 0)]);
    b.toggle_flag((0, 0)).unwrap();
    assert_eq!(b.open((0, 0)).unwrap(), None);
    assert!(!b.is_revealed((0, 0)));
    assert!(b.is_flagged((0, 0)));
}

#[test]
fn flagging_revealed_cell_is_noop() {
    let mut b = Minesweeper::new_with_mines(3, 1, &vec![(2, 0)]);
    b.open((0, 0)).unwrap();
    assert!(b.is_revealed((0, 0)));
    b.toggle_flag((0, 0)).unwrap();
    assert!(!b.is_flagged((0, 0)));
}

#[test]
fn toggling_flag_twice_restores_hidden_cell() {
    let mut b = Minesweeper::new_with_mines(3, 1, &vec![(2, 0)]);
    assert!(!b.is_flagged((1, 0)));
    b.toggle_flag((1, 0)).unwrap();
    assert!(b.is_flagged((1, 0)));
    b.toggle_flag((1, 0)).unwrap();
    assert!(!b.is_flagged((1, 0)));
}

#[test]
fn opening_mine_loses_and_freezes_board() {
    let mut b = Minesweeper::new_with_mines(3, 1, &vec![(2, 0)]);
    assert_eq!(b.open((2, 0)).unwrap(), Some(OpenResult::Mine));
    assert!(b.is_lost());
    assert_eq!(b.open((0, 0)).unwrap(), None);
    assert!(!b.is_revealed((0, 0)));
    b.toggle_flag((0, 0)).unwrap();
    assert!(!b.is_flagged((0, 0)));
    assert!(b.is_mine((2, 0)));
    assert_eq!(b.mine_total(), 1);
}

#[test]
fn chording_reveals_unflagged_neighbors() {
    let mut b = Minesweeper::new_with_mines(3, 3, &vec![(0, 0)]);
    assert_eq!(b.open((1, 1)).unwrap(), Some(OpenResult::NoMine(1)));
    assert!(b.is_revealed((1, 1)));
    assert!(!b.is_revealed((2, 2)));
    b.toggle_flag((0, 0)).unwrap();
    assert_eq!(b.open((1, 1)).unwrap(), Some(OpenResult::NoMine(1)));
    for y in 0..3 {
        for x in 0..3 {
            if (x, y) == (0, 0) {
                assert!(!b.is_revealed((x, y)));
                assert!(b.is_flagged((x, y)));
            } else {
                assert!(b.is_revealed((x, y)));
            }
        }
    }
    assert!(!b.is_lost());
}

#[test]
fn chording_with_wrong_flag_hits_mine() {
    let mut b = Minesweeper::new_with_mines(3, 3, &vec![(0, 0)]);
    b.open((1, 1)).unwrap();
    b.toggle_flag((1, 0)).unwrap();
    assert_eq!(b.open((1, 1)).unwrap(), None);
    assert!(b.is_lost());
}

#[test]
fn chord_without_matching_flags_changes_nothing() {
    let mut b = Minesweeper::new_with_mines(3, 3, &vec![(0, 0)]);
    b.open((1, 1)).unwrap();
    assert_eq!(b.open((1, 1)).unwrap(), Some(OpenResult::NoMine(1)));
    assert!(!b.is_revealed((2, 2)));
    assert!(!b.is_lost());
}

#[test]
fn one_by_three_board_cascade_stops_before_mine() {
    let mut b = Minesweeper::new_with_mines(3, 1, &vec![(2, 0)]);
    let r = b.open((0, 0)).unwrap().unwrap();
    assert_eq!(r, OpenResult::NoMine(0));
    assert!(b.is_revealed((0, 0)));
    assert!(b.is_revealed((1, 0)));
    assert!(!b.is_revealed((2, 0)));
    assert!(!b.is_lost());
    assert_eq!(b.neighboring_mines((1, 0)), 1);
}

#[test]
fn one_by_three_board_opening_the_mine_loses() {
    let mut b = Minesweeper::new_with_mines(3, 1, &vec![(2, 0)]);
    assert_eq!(b.open((2, 0)).unwrap(), Some(OpenResult::Mine));
    assert!(b.is_lost());
    assert!(b.is_revealed((2, 0)));
    assert!(!b.is_revealed((0, 0)));
    assert!(!b.is_revealed((1, 0)));
}

#[test]
fn invalid_configurations_are_rejected() {
    assert_eq!(Minesweeper::new(0, 5, 0).unwrap_err(), GameError::InvalidConfiguration);
    assert_eq!(Minesweeper::new(5, 0, 0).unwrap_err(), GameError::InvalidConfiguration);
    assert_eq!(Minesweeper::new(3, 3, 9).unwrap_err(), GameError::InvalidConfiguration);
    assert_eq!(Minesweeper::new(3, 3, 10).unwrap_err(), GameError::InvalidConfiguration);
    assert!(Minesweeper::new(3, 3, 8).is_ok());
}

#[test]
fn out_of_bounds_coordinates_are_rejected() {
    let mut b = Minesweeper::new_with_mines(3, 1, &vec![(2, 0)]);
    assert_eq!(b.open((3, 0)).unwrap_err(), GameError::OutOfBounds);
    assert_eq!(b.open((0, 1)).unwrap_err(), GameError::OutOfBounds);
    assert_eq!(b.toggle_flag((7, 7)).unwrap_err(), GameError::OutOfBounds);
    assert!(!b.is_revealed((0, 0)));
    assert!(!b.is_flagged((0, 0)));
}

#[test]
fn render_shows_counts_hidden_flags_and_mines() {
    let mut b = Minesweeper::new_with_mines(3, 1, &vec![(2, 0)]);
    assert_eq!(b.render(), "###\n");
    b.open((0, 0)).unwrap();
    assert_eq!(b.render(), ".1#\n");
    b.toggle_flag((2, 0)).unwrap();
    assert_eq!(b.render(), ".1F\n");
}

#[test]
fn render_reveals_all_mines_on_loss() {
    let mut b = Minesweeper::new_with_mines(4, 1, &vec![(2, 0), (3, 0)]);
    assert_eq!(b.open((3, 0)).unwrap(), Some(OpenResult::Mine));
    assert_eq!(b.render(), "##**\n");
}

#[test]
fn render_detonated_mine_cell() {
    let mut b = Minesweeper::new_with_mines(3, 1, &vec![(2, 0)]);
    b.open((2, 0)).unwrap();
    assert_eq!(b.render(), "##*\n");
}
