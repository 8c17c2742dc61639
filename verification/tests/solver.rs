//! Tests of the solver: propagation, search, rollback, and the outcomes the
//! contract promises.

use sudoku::solve::{assign, solve};
use sudoku::state::SolverState;
use sudoku::typedefs::{Constraint, Position, Puzzle, PuzzleBuilder, PuzzleError, SolveOutcome};

fn pos(row: u8, col: u8) -> Position {
    Position::new(row, col).unwrap()
}

/// Turns an 81-character digit string (`0` for an empty cell) into clues.
fn clues_of(text: &str) -> Vec<(Position, u8)> {
    let mut clues = Vec::new();
    for (i, ch) in text.chars().enumerate() {
        let d = ch.to_digit(10).unwrap() as u8;
        if d != 0 {
            clues.push((pos((i / 9) as u8, (i % 9) as u8), d));
        }
    }
    clues
}

fn grid_text(elements: &[u8]) -> String {
    let mut s = String::new();
    for d in elements {
        s.push(char::from_digit(*d as u32, 10).unwrap());
    }
    s
}

/// A classical minimal 17-clue puzzle with a known unique solution.
const P17: &str = "000000010400000000020000000000050407008000300001090000300400200050100000000806000";

const P17_SOLUTION: &str =
    "693784512487512936125963874932651487568247391741398625319475268856129743274836159";

/// A complete, valid grid.
const COMPLETE: &str =
    "123456789456789123789123456234567891567891234891234567345678912678912345912345678";

#[test]
fn seventeen_clue_puzzle_solved_exactly() {
    let pz = Puzzle::standard(clues_of(P17)).unwrap();
    match solve(pz) {
        SolveOutcome::Solved(sol) => {
            assert_eq!(grid_text(&sol.elements), P17_SOLUTION);
        },
        SolveOutcome::Unsatisfiable => panic!("expected a solution"),
    }
}

#[test]
fn solver_is_deterministic() {
    let first = match solve(Puzzle::standard(clues_of(P17)).unwrap()) {
        SolveOutcome::Solved(sol) => sol.elements,
        SolveOutcome::Unsatisfiable => panic!("expected a solution"),
    };
    let second = match solve(Puzzle::standard(clues_of(P17)).unwrap()) {
        SolveOutcome::Solved(sol) => sol.elements,
        SolveOutcome::Unsatisfiable => panic!("expected a solution"),
    };
    assert_eq!(first, second);
}

#[test]
fn solved_groups_hold_each_digit_once() {
    let pz = Puzzle::standard(clues_of(P17)).unwrap();
    let sol = match solve(pz) {
        SolveOutcome::Solved(sol) => sol.elements,
        SolveOutcome::Unsatisfiable => panic!("expected a solution"),
    };
    let mut groups: Vec<Vec<usize>> = Vec::new();
    for r in 0..9 {
        groups.push((0..9).map(|c| r * 9 + c).collect());
    }
    for c in 0..9 {
        groups.push((0..9).map(|r| r * 9 + c).collect());
    }
    for bi in 0..3 {
        for bj in 0..3 {
            let mut g = Vec::new();
            for dr in 0..3 {
                for dc in 0..3 {
                    g.push((bi * 3 + dr) * 9 + bj * 3 + dc);
                }
            }
            groups.push(g);
        }
    }
    for g in groups {
        let mut digits: Vec<u8> = g.iter().map(|&i| sol[i]).collect();
        digits.sort();
        assert_eq!(digits, vec![1, 2, 3, 4, 5, 6, 7, 8, 9]);
    }
}

#[test]
fn clues_preserved_in_solution() {
    let clues = clues_of(P17);
    let pz = Puzzle::standard(clues_of(P17)).unwrap();
    let sol = match solve(pz) {
        SolveOutcome::Solved(sol) => sol.elements,
        SolveOutcome::Unsatisfiable => panic!("expected a solution"),
    };
    for (p, d) in clues {
        assert_eq!(sol[(p.row() as usize) * 9 + p.col() as usize], d);
    }
}

#[test]
fn complete_grid_returned_unchanged() {
    let pz = Puzzle::standard(clues_of(COMPLETE)).unwrap();
    match solve(pz) {
        SolveOutcome::Solved(sol) => {
            assert_eq!(grid_text(&sol.elements), COMPLETE);
        },
        SolveOutcome::Unsatisfiable => panic!("expected a solution"),
    }
}

#[test]
fn propagation_contradiction_is_unsatisfiable() {
    // Row 0 holds 1..8 in its first eight cells; the 9 sits elsewhere in the
    // top-right box.  No two clues share a digit within a group, so the
    // puzzle builds, yet cell (0, 8) loses every digit during propagation.
    let mut clues = Vec::new();
    for c in 0..8u8 {
        clues.push((pos(0, c), c + 1));
    }
    clues.push((pos(2, 8), 9));
    let pz = Puzzle::standard(clues).unwrap();
    assert!(matches!(solve(pz), SolveOutcome::Unsatisfiable));
}

#[test]
fn empty_puzzle_is_solvable() {
    let pz = Puzzle::standard(vec![]).unwrap();
    match solve(pz) {
        SolveOutcome::Solved(sol) => {
            assert_eq!(sol.elements.len(), 81);
            let mut row0: Vec<u8> = sol.elements[0..9].to_vec();
            row0.sort();
            assert_eq!(row0, vec![1, 2, 3, 4, 5, 6, 7, 8, 9]);
        },
        SolveOutcome::Unsatisfiable => panic!("expected a solution"),
    }
}

#[test]
fn diagonal_duplicate_rejected_only_with_diagonal_rule() {
    // Two equal digits on the main diagonal, in different rows, columns and
    // boxes: rejected under the diagonal variant, accepted under standard.
    let clue_list = vec![(pos(0, 0), 5), (pos(4, 4), 5)];

    let mut b = PuzzleBuilder::new();
    b.add_row_groups();
    b.add_col_groups();
    b.add_cell_groups();
    b.add_diag_groups();
    b.add_clues(clue_list.clone());
    assert!(matches!(b.build(), Err(PuzzleError::InvalidPuzzle { .. })));

    assert!(Puzzle::standard(clue_list).is_ok());
}

#[test]
fn diagonal_variant_solution_respects_diagonals() {
    let mut b = PuzzleBuilder::new();
    b.add_constraint(Constraint::Row);
    b.add_constraint(Constraint::Column);
    b.add_constraint(Constraint::Cell);
    b.add_constraint(Constraint::Diagonal);
    let pz = b.build().unwrap();
    match solve(pz) {
        SolveOutcome::Solved(sol) => {
            let mut main: Vec<u8> = (0..9).map(|i| sol.elements[i * 10]).collect();
            main.sort();
            assert_eq!(main, vec![1, 2, 3, 4, 5, 6, 7, 8, 9]);
            let mut anti: Vec<u8> = (0..9).map(|i| sol.elements[(8 - i) * 9 + i]).collect();
            anti.sort();
            assert_eq!(anti, vec![1, 2, 3, 4, 5, 6, 7, 8, 9]);
        },
        SolveOutcome::Unsatisfiable => panic!("expected a solution"),
    }
}

#[test]
fn solution_keeps_its_puzzle() {
    let pz = Puzzle::standard(clues_of(P17)).unwrap();
    match solve(pz) {
        SolveOutcome::Solved(sol) => {
            assert_eq!(sol.puzzle.group_count(), 27);
            assert_eq!(sol.puzzle.clue_at(&pos(0, 7)), 1);
        },
        SolveOutcome::Unsatisfiable => panic!("expected a solution"),
    }
}

#[test]
fn rollback_restores_candidates_exactly() {
    let mut st = SolverState::new();
    assert!(st.has(0, 1));
    assert!(st.has(80, 9));
    let m = st.checkpoint();
    assert_eq!(m, 0);
    st.eliminate(0, 1);
    st.eliminate(80, 9);
    st.eliminate(40, 5);
    assert!(!st.has(0, 1));
    assert!(!st.has(80, 9));
    assert!(!st.has(40, 5));
    st.rollback(m);
    assert!(st.has(0, 1));
    assert!(st.has(80, 9));
    assert!(st.has(40, 5));
}

#[test]
fn nested_checkpoints_roll_back_in_layers() {
    let mut st = SolverState::new();
    let m0 = st.checkpoint();
    st.eliminate(3, 2);
    let m1 = st.checkpoint();
    st.eliminate(3, 4);
    st.rollback(m1);
    assert!(!st.has(3, 2));
    assert!(st.has(3, 4));
    st.rollback(m0);
    assert!(st.has(3, 2));
    assert!(st.has(3, 4));
}

#[test]
fn restrict_cell_leaves_single_candidate() {
    let mut st = SolverState::new();
    let ok = st.restrict_cell(10, 4);
    assert!(ok);
    for d in 1..=9u8 {
        assert_eq!(st.has(10, d), d == 4);
    }
}

#[test]
fn assign_eliminates_digit_from_peers() {
    let pz = Puzzle::standard(vec![]).unwrap();
    let mut st = SolverState::new();
    let ok = assign(&pz, &mut st, 0, 5);
    assert!(ok);
    for d in 1..=9u8 {
        assert_eq!(st.has(0, d), d == 5);
    }
    // same row, same column, same box lose the digit
    assert!(!st.has(8, 5));
    assert!(!st.has(72, 5));
    assert!(!st.has(10, 5));
    // an unrelated cell keeps it
    assert!(st.has(30, 5));
}

#[test]
fn assign_fails_on_eliminated_digit() {
    let pz = Puzzle::standard(vec![]).unwrap();
    let mut st = SolverState::new();
    assert!(assign(&pz, &mut st, 0, 5));
    // the same digit elsewhere in the row is no longer possible
    assert!(!assign(&pz, &mut st, 3, 5));
}
