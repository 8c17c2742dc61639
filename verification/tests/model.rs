//! Tests of the puzzle model: positions, groups, constraint rules, the
//! builder, and clue validation.

use sudoku::typedefs::{CellPosition, Constraint, Group, Position, Puzzle, PuzzleBuilder, PuzzleError};

fn pos(row: u8, col: u8) -> Position {
    Position::new(row, col).unwrap()
}

#[test]
fn position_new_in_range() {
    let p = pos(3, 7);
    assert_eq!(p.row(), 3);
    assert_eq!(p.col(), 7);
}

#[test]
fn position_new_out_of_range() {
    assert!(matches!(Position::new(9, 0), Err(PuzzleError::OutOfRange)));
    assert!(matches!(Position::new(0, 9), Err(PuzzleError::OutOfRange)));
    assert!(matches!(Position::new(200, 200), Err(PuzzleError::OutOfRange)));
}

#[test]
fn group_row_positions() {
    let g = Group::row(2);
    let ps = g.positions();
    assert_eq!(ps.len(), 9);
    for (c, p) in ps.iter().enumerate() {
        assert_eq!(p.row(), 2);
        assert_eq!(p.col(), c as u8);
    }
}

#[test]
fn group_col_positions() {
    let g = Group::col(5);
    let ps = g.positions();
    assert_eq!(ps.len(), 9);
    for (r, p) in ps.iter().enumerate() {
        assert_eq!(p.row(), r as u8);
        assert_eq!(p.col(), 5);
    }
}

#[test]
fn group_cell_positions() {
    let g = Group::cell(CellPosition::MIDDLE, CellPosition::END);
    let ps = g.positions();
    assert_eq!(ps.len(), 9);
    for (i, p) in ps.iter().enumerate() {
        assert_eq!(p.row(), 3 + (i as u8) / 3);
        assert_eq!(p.col(), 6 + (i as u8) % 3);
    }
}

#[test]
fn group_diag_positions() {
    let main = Group::diag(true);
    for (i, p) in main.positions().iter().enumerate() {
        assert_eq!(p.row(), i as u8);
        assert_eq!(p.col(), i as u8);
    }
    let anti = Group::diag(false);
    for (i, p) in anti.positions().iter().enumerate() {
        assert_eq!(p.row(), 8 - i as u8);
        assert_eq!(p.col(), i as u8);
    }
}

#[test]
fn constraint_row_groups_for() {
    let g = Constraint::Row.groups_for(&pos(4, 1));
    assert_eq!(g.len(), 1);
    for p in g[0].positions().iter() {
        assert_eq!(p.row(), 4);
    }
}

#[test]
fn constraint_column_groups_for() {
    let g = Constraint::Column.groups_for(&pos(4, 1));
    assert_eq!(g.len(), 1);
    for p in g[0].positions().iter() {
        assert_eq!(p.col(), 1);
    }
}

#[test]
fn constraint_cell_groups_for() {
    let g = Constraint::Cell.groups_for(&pos(4, 7));
    assert_eq!(g.len(), 1);
    for p in g[0].positions().iter() {
        assert!(p.row() >= 3 && p.row() < 6);
        assert!(p.col() >= 6);
    }
}

#[test]
fn constraint_diagonal_groups_for() {
    // centre cell lies on both diagonals
    assert_eq!(Constraint::Diagonal.groups_for(&pos(4, 4)).len(), 2);
    // corner cells lie on exactly one
    assert_eq!(Constraint::Diagonal.groups_for(&pos(0, 0)).len(), 1);
    assert_eq!(Constraint::Diagonal.groups_for(&pos(0, 8)).len(), 1);
    // an off-diagonal cell lies on none
    assert_eq!(Constraint::Diagonal.groups_for(&pos(1, 2)).len(), 0);
}

#[test]
fn standard_puzzle_has_27_groups() {
    let pz = Puzzle::standard(vec![]).unwrap();
    assert_eq!(pz.group_count(), 27);
}

#[test]
fn add_constraint_builds_standard_groups() {
    let mut b = PuzzleBuilder::new();
    b.add_constraint(Constraint::Row);
    b.add_constraint(Constraint::Column);
    b.add_constraint(Constraint::Cell);
    b.add_constraint(Constraint::Diagonal);
    let pz = b.build().unwrap();
    assert_eq!(pz.group_count(), 29);
}

#[test]
fn add_clue_stores_and_overwrites() {
    let mut b = PuzzleBuilder::new();
    b.add_clue(pos(3, 4), 7);
    b.add_clue(pos(3, 4), 2);
    let pz = b.build().unwrap();
    assert_eq!(pz.clue_at(&pos(3, 4)), 2);
    assert_eq!(pz.clue_at(&pos(0, 0)), 0);
}

#[test]
fn add_clues_applies_in_order() {
    let mut b = PuzzleBuilder::new();
    b.add_clues(vec![(pos(1, 1), 4), (pos(2, 2), 5), (pos(1, 1), 6)]);
    let pz = b.build().unwrap();
    assert_eq!(pz.clue_at(&pos(1, 1)), 6);
    assert_eq!(pz.clue_at(&pos(2, 2)), 5);
}

#[test]
fn duplicate_in_row_rejected() {
    let r = Puzzle::standard(vec![(pos(0, 1), 5), (pos(0, 7), 5)]);
    assert!(matches!(r, Err(PuzzleError::InvalidPuzzle { .. })));
}

#[test]
fn duplicate_in_col_rejected() {
    let r = Puzzle::standard(vec![(pos(1, 3), 9), (pos(8, 3), 9)]);
    assert!(matches!(r, Err(PuzzleError::InvalidPuzzle { .. })));
}

#[test]
fn duplicate_in_box_rejected() {
    // same 3x3 box, different row and column
    let r = Puzzle::standard(vec![(pos(0, 0), 3), (pos(1, 1), 3)]);
    assert!(matches!(r, Err(PuzzleError::InvalidPuzzle { .. })));
}

#[test]
fn distinct_digits_in_group_accepted() {
    let r = Puzzle::standard(vec![(pos(0, 0), 3), (pos(0, 1), 4), (pos(1, 1), 5)]);
    assert!(r.is_ok());
}

#[test]
fn invalid_puzzle_reports_offending_cells() {
    let r = Puzzle::standard(vec![(pos(0, 1), 5), (pos(0, 7), 5)]);
    match r {
        Err(PuzzleError::InvalidPuzzle { group: _, first, second }) => {
            assert_eq!(first, 1);
            assert_eq!(second, 7);
        },
        _ => panic!("expected InvalidPuzzle"),
    }
}
