//! Core puzzle model: cell positions, groups of nine cells, the closed set of
//! constraint rules, and the validated puzzle built from groups plus clues.

use vstd::prelude::*;

verus! {

/// Errors arising while building a puzzle.
#[derive(Clone, Copy, Debug, PartialEq, Eq, Structural)]
pub enum PuzzleError {
    /// A position was constructed with a row or column outside `0..9`.
    OutOfRange,
    /// Two clues in the same group carry equal digits; the payload names the
    /// group and the two offending cell indices (`row * 9 + col`).
    InvalidPuzzle { group: usize, first: usize, second: usize },
}

/// A cell coordinate on the 9x9 board: `row` and `col` each in `0..9`.
#[derive(Clone, Copy, Debug, PartialEq, Eq, Structural)]
pub struct Position {
    pub row: u8,
    pub col: u8,
}

impl Position {
    /// Both coordinates lie in `0..9`.
    pub open spec fn wf(self) -> bool {
        self.row < 9 && self.col < 9
    }

    /// The flat cell index `row * 9 + col`, in `0..81` for well-formed positions.
    pub open spec fn idx(self) -> int {
        self.row * 9 + self.col
    }

    /// Builds a position, rejecting coordinates outside `0..9`.
    pub fn new(row: u8, col: u8) -> (r: Result<Position, PuzzleError>)
        ensures
            r is Ok <==> (row < 9 && col < 9),
            r matches Ok(p) ==> p == (Position { row, col }) && p.wf(),
            r matches Err(e) ==> e == PuzzleError::OutOfRange,
    {
        if row < 9 && col < 9 {
            Ok(Position { row, col })
        } else {
            Err(PuzzleError::OutOfRange)
        }
    }

    /// The row coordinate.
    pub fn row(&self) -> (r: u8)
        ensures
            r == self.row,
    {
        self.row
    }

    /// The column coordinate.
    pub fn col(&self) -> (r: u8)
        ensures
            r == self.col,
    {
        self.col
    }
}

/// The coarse location of a coordinate within its band of three rows or
/// columns: which 3-wide stripe of the board it falls in.
#[derive(Clone, Copy, Debug, PartialEq, Eq, Structural)]
#[allow(non_camel_case_types)]
pub enum CellPosition {
    START,
    MIDDLE,
    END,
}

impl CellPosition {
    /// The first coordinate of the stripe this variant denotes.
    pub open spec fn spec_offset(self) -> int {
        match self {
            CellPosition::START => 0,
            CellPosition::MIDDLE => 3,
            CellPosition::END => 6,
        }
    }

    fn offset(&self) -> (r: u8)
        ensures
            r == self.spec_offset(),
    {
        match self {
            CellPosition::START => 0,
            CellPosition::MIDDLE => 3,
            CellPosition::END => 6,
        }
    }

    fn for_coord(coord: u8) -> (r: CellPosition)
        requires
            coord < 9,
        ensures
            r == (if coord < 3 {
                CellPosition::START
            } else if coord < 6 {
                CellPosition::MIDDLE
            } else {
                CellPosition::END
            }),
    {
        if coord < 3 {
            CellPosition::START
        } else if coord < 6 {
            CellPosition::MIDDLE
        } else {
            CellPosition::END
        }
    }

    fn for_position(pos: &Position) -> (r: (CellPosition, CellPosition))
        requires
            pos.wf(),
        ensures
            r.0 == (if pos.row < 3 {
                CellPosition::START
            } else if pos.row < 6 {
                CellPosition::MIDDLE
            } else {
                CellPosition::END
            }),
            r.1 == (if pos.col < 3 {
                CellPosition::START
            } else if pos.col < 6 {
                CellPosition::MIDDLE
            } else {
                CellPosition::END
            }),
    {
        (Self::for_coord(pos.row), Self::for_coord(pos.col))
    }
}

/// The cell indices of a row group: cells `(r, 0) .. (r, 8)`.
pub open spec fn row_idxs(r: int) -> Seq<int> {
    Seq::new(9, |a: int| r * 9 + a)
}

/// The cell indices of a column group: cells `(0, c) .. (8, c)`.
pub open spec fn col_idxs(c: int) -> Seq<int> {
    Seq::new(9, |a: int| a * 9 + c)
}

/// The cell indices of a 3x3 box group whose top-left corner is at
/// `(ro, co)`, listed row by row.
pub open spec fn cell_idxs(ro: int, co: int) -> Seq<int> {
    Seq::new(9, |a: int| (ro + a / 3) * 9 + co + a % 3)
}

/// The cell indices of the main diagonal, `(0, 0) .. (8, 8)`.
pub open spec fn main_diag_idxs() -> Seq<int> {
    Seq::new(9, |a: int| a * 10)
}

/// The cell indices of the anti-diagonal, `(0, 8) .. (8, 0)`.
pub open spec fn anti_diag_idxs() -> Seq<int> {
    Seq::new(9, |a: int| 72 - a * 8)
}

/// An ordered set of exactly nine distinct positions that must jointly hold
/// each digit 1 through 9 exactly once.
pub struct Group {
    pub positions: Vec<Position>,
}

impl Group {
    /// The flat cell indices of the group's positions, in order.
    pub open spec fn idxs(self) -> Seq<int> {
        Seq::new(self.positions@.len(), |a: int| self.positions@[a].idx())
    }

    /// Exactly nine in-range positions, no two equal.
    pub open spec fn wf(self) -> bool {
        &&& self.positions@.len() == 9
        &&& forall|a: int| 0 <= a < 9 ==> (#[trigger] self.positions@[a]).wf()
        &&& forall|a: int, b: int|
            0 <= a < 9 && 0 <= b < 9 && a != b ==> self.idxs()[a] != self.idxs()[b]
    }

    /// The positions of the group, in order.
    pub fn positions(&self) -> (r: &Vec<Position>)
        ensures
            r@ == self.positions@,
    {
        &self.positions
    }

    /// The group of the nine cells of row `row`.
    #[verifier::loop_isolation(false)]
    pub fn row(row: u8) -> (r: Group)
        requires
            row < 9,
        ensures
            r.wf(),
            r.idxs() == row_idxs(row as int),
    {
        let mut positions: Vec<Position> = Vec::new();
        for col in 0..9u8
            invariant
                row < 9,
                positions@.len() == col,
                forall|a: int|
                    0 <= a < col ==> #[trigger] positions@[a] == (Position { row, col: a as u8 }),
        {
            positions.push(Position { row, col });
        }
        let g = Group { positions };
        proof {
            assert(g.idxs() =~= row_idxs(row as int));
        }
        g
    }

    /// The group of the nine cells of column `col`.
    #[verifier::loop_isolation(false)]
    pub fn col(col: u8) -> (r: Group)
        requires
            col < 9,
        ensures
            r.wf(),
            r.idxs() == col_idxs(col as int),
    {
        let mut positions: Vec<Position> = Vec::new();
        for row in 0..9u8
            invariant
                col < 9,
                positions@.len() == row,
                forall|a: int|
                    0 <= a < row ==> #[trigger] positions@[a] == (Position { row: a as u8, col }),
        {
            positions.push(Position { row, col });
        }
        let g = Group { positions };
        proof {
            assert(g.idxs() =~= col_idxs(col as int));
        }
        g
    }

    /// The 3x3 box group whose rows start at the stripe `row_pos` and whose
    /// columns start at the stripe `col_pos`.
    #[verifier::loop_isolation(false)]
    pub fn cell(row_pos: CellPosition, col_pos: CellPosition) -> (r: Group)
        ensures
            r.wf(),
            r.idxs() == cell_idxs(row_pos.spec_offset(), col_pos.spec_offset()),
    {
        let ro = row_pos.offset();
        let co = col_pos.offset();
        let mut positions: Vec<Position> = Vec::new();
        for row in 0..3u8
            invariant
                ro == row_pos.spec_offset(),
                co == col_pos.spec_offset(),
                positions@.len() == 3 * row,
                forall|a: int|
                    0 <= a < 3 * row ==> #[trigger] positions@[a] == (Position {
                        row: (ro + a / 3) as u8,
                        col: (co + a % 3) as u8,
                    }),
        {
            for col in 0..3u8
                invariant
                    ro == row_pos.spec_offset(),
                    co == col_pos.spec_offset(),
                    row < 3,
                    positions@.len() == 3 * row + col,
                    forall|a: int|
                        0 <= a < 3 * row + col ==> #[trigger] positions@[a] == (Position {
                            row: (ro + a / 3) as u8,
                            col: (co + a % 3) as u8,
                        }),
            {
                positions.push(Position { row: ro + row, col: co + col });
                proof {
                    let a = 3 * row + col;
                    assert(a / 3 == row && a % 3 == col) by (nonlinear_arith)
                        requires
                            0 <= row < 3,
                            0 <= col < 3,
                            a == 3 * row + col,
                    ;
                }
            }
        }
        let g = Group { positions };
        proof {
            assert forall|a: int| 0 <= a < 9 implies (#[trigger] g.positions@[a]).wf() by {
                assert(0 <= a / 3 < 3 && 0 <= a % 3 < 3) by (nonlinear_arith)
                    requires
                        0 <= a < 9,
                ;
            }
            assert(g.idxs() =~= cell_idxs(row_pos.spec_offset(), col_pos.spec_offset())) by {
                assert forall|a: int| 0 <= a < 9 implies g.idxs()[a] == cell_idxs(
                    row_pos.spec_offset(),
                    col_pos.spec_offset(),
                )[a] by {
                    assert(0 <= a / 3 < 3 && 0 <= a % 3 < 3) by (nonlinear_arith)
                        requires
                            0 <= a < 9,
                    ;
                }
            }
            assert forall|a: int, b: int|
                0 <= a < 9 && 0 <= b < 9 && a != b implies g.idxs()[a] != g.idxs()[b] by {
                assert(a == 3 * (a / 3) + a % 3 && 0 <= a % 3 < 3) by (nonlinear_arith)
                    requires
                        0 <= a < 9,
                ;
                assert(b == 3 * (b / 3) + b % 3 && 0 <= b % 3 < 3) by (nonlinear_arith)
                    requires
                        0 <= b < 9,
                ;
            }
        }
        g
    }

    /// A diagonal group: the main diagonal if `top` holds, the anti-diagonal
    /// otherwise.
    #[verifier::loop_isolation(false)]
    pub fn diag(top: bool) -> (r: Group)
        ensures
            r.wf(),
            top ==> r.idxs() == main_diag_idxs(),
            !top ==> r.idxs() == anti_diag_idxs(),
    {
        let mut positions: Vec<Position> = Vec::new();
        for col in 0..9u8
            invariant
                positions@.len() == col,
                forall|a: int|
                    0 <= a < col ==> #[trigger] positions@[a] == (Position {
                        row: if top {
                            a as u8
                        } else {
                            (8 - a) as u8
                        },
                        col: a as u8,
                    }),
        {
            let row = if top {
                col
            } else {
                8 - col
            };
            positions.push(Position { row, col });
        }
        let g = Group { positions };
        proof {
            if top {
                assert(g.idxs() =~= main_diag_idxs());
            } else {
                assert(g.idxs() =~= anti_diag_idxs());
            }
        }
        g
    }
}

/// The board-wide stripe whose first coordinate is `3 * i`.
fn stripe(i: u8) -> (r: CellPosition)
    requires
        i < 3,
    ensures
        r.spec_offset() == 3 * i,
{
    match i {
        0 => CellPosition::START,
        1 => CellPosition::MIDDLE,
        _ => CellPosition::END,
    }
}

/// A closed rule describing which groups constrain a cell.
#[derive(Clone, Copy, Debug, PartialEq, Eq, Structural)]
pub enum Constraint {
    Row,
    Column,
    Cell,
    Diagonal,
}

impl Constraint {
    /// The groups this rule imposes on `pos`: row, column and box rules yield
    /// one group each; the diagonal rule yields the main diagonal only when
    /// `row == col`, the anti-diagonal only when `row + col == 8`, and nothing
    /// otherwise.
    pub fn groups_for(&self, pos: &Position) -> (r: Vec<Group>)
        requires
            pos.wf(),
        ensures
            forall|j: int| 0 <= j < r@.len() ==> (#[trigger] r@[j]).wf(),
            self is Row ==> r@.len() == 1 && r@[0].idxs() == row_idxs(pos.row as int),
            self is Column ==> r@.len() == 1 && r@[0].idxs() == col_idxs(pos.col as int),
            self is Cell ==> r@.len() == 1 && r@[0].idxs() == cell_idxs(
                3 * (pos.row as int / 3),
                3 * (pos.col as int / 3),
            ),
            self is Diagonal ==> {
                &&& r@.len() == (if pos.row == pos.col && pos.row + pos.col == 8 {
                    2int
                } else if pos.row == pos.col || pos.row + pos.col == 8 {
                    1int
                } else {
                    0int
                })
                &&& pos.row == pos.col ==> r@[0].idxs() == main_diag_idxs()
                &&& (pos.row != pos.col && pos.row + pos.col == 8) ==> r@[0].idxs()
                    == anti_diag_idxs()
                &&& (pos.row == pos.col && pos.row + pos.col == 8) ==> r@[1].idxs()
                    == anti_diag_idxs()
            },
    {
        match self {
            Constraint::Row => {
                let mut v: Vec<Group> = Vec::new();
                v.push(Group::row(pos.row));
                v
            },
            Constraint::Column => {
                let mut v: Vec<Group> = Vec::new();
                v.push(Group::col(pos.col));
                v
            },
            Constraint::Cell => {
                let (rp, cp) = CellPosition::for_position(pos);
                let mut v: Vec<Group> = Vec::new();
                v.push(Group::cell(rp, cp));
                proof {
                    assert(rp.spec_offset() == 3 * (pos.row as int / 3));
                    assert(cp.spec_offset() == 3 * (pos.col as int / 3));
                }
                v
            },
            Constraint::Diagonal => {
                let mut v: Vec<Group> = Vec::new();
                if pos.row == pos.col {
                    v.push(Group::diag(true));
                }
                if pos.row + pos.col == 8 {
                    v.push(Group::diag(false));
                }
                v
            },
        }
    }
}

/// The clue board holding no clue at all.
pub open spec fn empty_clues() -> Seq<u8> {
    Seq::new(81, |p: int| 0u8)
}

/// The clue board after recording `es` in order on `cs`: each entry overwrites
/// the cell at its position, later entries winning.
pub open spec fn apply_clues(cs: Seq<u8>, es: Seq<(Position, u8)>) -> Seq<u8>
    decreases es.len(),
{
    if es.len() == 0 {
        cs
    } else {
        apply_clues(cs, es.take(es.len() - 1)).update(es.last().0.idx(), es.last().1)
    }
}

/// Two cells of group `k` carry the same non-absent clue digit.
pub open spec fn group_conflict(groups: Seq<Group>, clues: Seq<u8>, k: int, a: int, b: int) -> bool {
    &&& 0 <= k < groups.len()
    &&& 0 <= a < 9
    &&& 0 <= b < 9
    &&& a != b
    &&& clues[groups[k].idxs()[a]] != 0
    &&& clues[groups[k].idxs()[a]] == clues[groups[k].idxs()[b]]
}

/// Some group holds two equal clue digits.
pub open spec fn has_conflict(groups: Seq<Group>, clues: Seq<u8>) -> bool {
    exists|k: int, a: int, b: int| group_conflict(groups, clues, k, a, b)
}

/// Group `k` holds equal clue digits at the cells `first` and `second`.
pub open spec fn conflict_witness(
    groups: Seq<Group>,
    clues: Seq<u8>,
    k: int,
    first: int,
    second: int,
) -> bool {
    exists|a: int, b: int|
        group_conflict(groups, clues, k, a, b) && groups[k].idxs()[a] == first
            && groups[k].idxs()[b] == second
}

/// A validated, immutable puzzle: the groups of its variant plus the clues.
pub struct Puzzle {
    pub groups: Vec<Group>,
    pub clues: Vec<u8>,
}

impl Puzzle {
    /// The groups of the puzzle.
    pub open spec fn spec_groups(self) -> Seq<Group> {
        self.groups@
    }

    /// The clue digit at flat cell index `p`, with `0` meaning no clue.
    pub open spec fn spec_clues(self) -> Seq<u8> {
        self.clues@
    }

    /// Eighty-one clue slots holding digits or zero, and well-formed groups.
    pub open spec fn wf(self) -> bool {
        &&& self.clues@.len() == 81
        &&& forall|p: int| 0 <= p < 81 ==> #[trigger] self.clues@[p] <= 9
        &&& forall|k: int| 0 <= k < self.groups@.len() ==> (#[trigger] self.groups@[k]).wf()
    }

    /// How many groups the puzzle has.
    pub fn group_count(&self) -> (r: usize)
        ensures
            r == self.groups@.len(),
    {
        self.groups.len()
    }

    /// The clue digit at `pos`, with `0` meaning no clue.
    pub fn clue_at(&self, pos: &Position) -> (r: u8)
        requires
            self.wf(),
            pos.wf(),
        ensures
            r == self.clues@[pos.idx()],
    {
        self.clues[(pos.row as usize) * 9 + (pos.col as usize)]
    }
}

/// Accumulates groups and clues, then validates them into a [`Puzzle`].
pub struct PuzzleBuilder {
    pub groups: Vec<Group>,
    pub clues: Vec<u8>,
}

impl PuzzleBuilder {
    /// Well-formed groups and eighty-one clue slots holding digits or zero.
    pub open spec fn wf(self) -> bool {
        &&& self.clues@.len() == 81
        &&& forall|p: int| 0 <= p < 81 ==> #[trigger] self.clues@[p] <= 9
        &&& forall|k: int| 0 <= k < self.groups@.len() ==> (#[trigger] self.groups@[k]).wf()
    }

    /// An empty builder: no groups, no clues.
    #[verifier::loop_isolation(false)]
    pub fn new() -> (r: PuzzleBuilder)
        ensures
            r.wf(),
            r.groups@.len() == 0,
            r.clues@ == empty_clues(),
    {
        let mut clues: Vec<u8> = Vec::new();
        for p in 0..81usize
            invariant
                clues@.len() == p,
                forall|q: int| 0 <= q < p ==> #[trigger] clues@[q] == 0,
        {
            clues.push(0);
        }
        let r = PuzzleBuilder { groups: Vec::new(), clues };
        proof {
            assert(r.clues@ =~= empty_clues());
        }
        r
    }

    /// Appends one group.
    pub fn add_group(&mut self, g: Group)
        requires
            old(self).wf(),
            g.wf(),
        ensures
            final(self).wf(),
            final(self).groups@ == old(self).groups@.push(g),
            final(self).clues@ == old(self).clues@,
    {
        self.groups.push(g);
    }

    /// Appends the nine row groups.
    #[verifier::loop_isolation(false)]
    pub fn add_row_groups(&mut self)
        requires
            old(self).wf(),
        ensures
            final(self).wf(),
            final(self).groups@.len() == old(self).groups@.len() + 9,
            final(self).clues@ == old(self).clues@,
            forall|k: int|
                0 <= k < old(self).groups@.len() ==> final(self).groups@[k] == old(
                    self,
                ).groups@[k],
            forall|k: int|
                old(self).groups@.len() <= k < final(self).groups@.len() ==> (
                #[trigger] final(self).groups@[k]).idxs() == row_idxs(k - old(self).groups@.len()),
    {
        let ghost n0 = self.groups@.len() as int;
        for row in 0..9u8
            invariant
                self.wf(),
                self.groups@.len() == n0 + row,
                self.clues@ == old(self).clues@,
                forall|k: int| 0 <= k < n0 ==> self.groups@[k] == old(self).groups@[k],
                forall|k: int|
                    n0 <= k < n0 + row ==> (#[trigger] self.groups@[k]).idxs() == row_idxs(k - n0),
        {
            self.add_group(Group::row(row));
        }
    }

    /// Appends the nine column groups.
    #[verifier::loop_isolation(false)]
    pub fn add_col_groups(&mut self)
        requires
            old(self).wf(),
        ensures
            final(self).wf(),
            final(self).groups@.len() == old(self).groups@.len() + 9,
            final(self).clues@ == old(self).clues@,
            forall|k: int|
                0 <= k < old(self).groups@.len() ==> final(self).groups@[k] == old(
                    self,
                ).groups@[k],
            forall|k: int|
                old(self).groups@.len() <= k < final(self).groups@.len() ==> (
                #[trigger] final(self).groups@[k]).idxs() == col_idxs(k - old(self).groups@.len()),
    {
        let ghost n0 = self.groups@.len() as int;
        for col in 0..9u8
            invariant
                self.wf(),
                self.groups@.len() == n0 + col,
                self.clues@ == old(self).clues@,
                forall|k: int| 0 <= k < n0 ==> self.groups@[k] == old(self).groups@[k],
                forall|k: int|
                    n0 <= k < n0 + col ==> (#[trigger] self.groups@[k]).idxs() == col_idxs(k - n0),
        {
            self.add_group(Group::col(col));
        }
    }

    /// Appends the nine 3x3 box groups, row band by row band.
    #[verifier::loop_isolation(false)]
    pub fn add_cell_groups(&mut self)
        requires
            old(self).wf(),
        ensures
            final(self).wf(),
            final(self).groups@.len() == old(self).groups@.len() + 9,
            final(self).clues@ == old(self).clues@,
            forall|k: int|
                0 <= k < old(self).groups@.len() ==> final(self).groups@[k] == old(
                    self,
                ).groups@[k],
            forall|k: int|
                old(self).groups@.len() <= k < final(self).groups@.len() ==> (
                #[trigger] final(self).groups@[k]).idxs() == cell_idxs(
                    3 * ((k - old(self).groups@.len()) / 3),
                    3 * ((k - old(self).groups@.len()) % 3),
                ),
    {
        let ghost n0 = self.groups@.len() as int;
        for bi in 0..3u8
            invariant
                self.wf(),
                self.groups@.len() == n0 + 3 * bi,
                self.clues@ == old(self).clues@,
                forall|k: int| 0 <= k < n0 ==> self.groups@[k] == old(self).groups@[k],
                forall|k: int|
                    n0 <= k < n0 + 3 * bi ==> (#[trigger] self.groups@[k]).idxs() == cell_idxs(
                        3 * ((k - n0) / 3),
                        3 * ((k - n0) % 3),
                    ),
        {
            for bj in 0..3u8
                invariant
                    self.wf(),
                    bi < 3,
                    self.groups@.len() == n0 + 3 * bi + bj,
                    self.clues@ == old(self).clues@,
                    forall|k: int| 0 <= k < n0 ==> self.groups@[k] == old(self).groups@[k],
                    forall|k: int|
                        n0 <= k < n0 + 3 * bi + bj ==> (#[trigger] self.groups@[k]).idxs()
                            == cell_idxs(3 * ((k - n0) / 3), 3 * ((k - n0) % 3)),
            {
                self.add_group(Group::cell(stripe(bi), stripe(bj)));
                proof {
                    let j = 3 * bi + bj;
                    assert(j / 3 == bi as int && j % 3 == bj as int) by (nonlinear_arith)
                        requires
                            0 <= bi < 3,
                            0 <= bj < 3,
                            j == 3 * bi + bj,
                    ;
                }
            }
        }
    }

    /// Appends the two diagonal groups: main, then anti.
    pub fn add_diag_groups(&mut self)
        requires
            old(self).wf(),
        ensures
            final(self).wf(),
            final(self).groups@.len() == old(self).groups@.len() + 2,
            final(self).clues@ == old(self).clues@,
            forall|k: int|
                0 <= k < old(self).groups@.len() ==> final(self).groups@[k] == old(
                    self,
                ).groups@[k],
            final(self).groups@[old(self).groups@.len() as int].idxs() == main_diag_idxs(),
            final(self).groups@[old(self).groups@.len() as int + 1].idxs() == anti_diag_idxs(),
    {
        self.add_group(Group::diag(true));
        self.add_group(Group::diag(false));
    }

    /// Appends every group the rule `c` imposes anywhere on the board,
    /// without duplicates: nine groups for the row, column and box rules, the
    /// two diagonals for the diagonal rule.
    pub fn add_constraint(&mut self, c: Constraint)
        requires
            old(self).wf(),
        ensures
            final(self).wf(),
            final(self).clues@ == old(self).clues@,
            forall|k: int|
                0 <= k < old(self).groups@.len() ==> final(self).groups@[k] == old(
                    self,
                ).groups@[k],
            c is Row ==> final(self).groups@.len() == old(self).groups@.len() + 9 && forall|k: int|
                old(self).groups@.len() <= k < final(self).groups@.len() ==> (
                #[trigger] final(self).groups@[k]).idxs() == row_idxs(k - old(self).groups@.len()),
            c is Column ==> final(self).groups@.len() == old(self).groups@.len() + 9 && forall|
                k: int,
            |
                old(self).groups@.len() <= k < final(self).groups@.len() ==> (
                #[trigger] final(self).groups@[k]).idxs() == col_idxs(k - old(self).groups@.len()),
            c is Cell ==> final(self).groups@.len() == old(self).groups@.len() + 9 && forall|k: int|
                old(self).groups@.len() <= k < final(self).groups@.len() ==> (
                #[trigger] final(self).groups@[k]).idxs() == cell_idxs(
                    3 * ((k - old(self).groups@.len()) / 3),
                    3 * ((k - old(self).groups@.len()) % 3),
                ),
            c is Diagonal ==> final(self).groups@.len() == old(self).groups@.len() + 2
                && final(self).groups@[old(self).groups@.len() as int].idxs() == main_diag_idxs()
                && final(self).groups@[old(self).groups@.len() as int + 1].idxs() == anti_diag_idxs(),
    {
        match c {
            Constraint::Row => self.add_row_groups(),
            Constraint::Column => self.add_col_groups(),
            Constraint::Cell => self.add_cell_groups(),
            Constraint::Diagonal => self.add_diag_groups(),
        }
    }

    /// Records one clue digit for a cell, overwriting any earlier clue there.
    pub fn add_clue(&mut self, pos: Position, value: u8)
        requires
            old(self).wf(),
            pos.wf(),
            1 <= value <= 9,
        ensures
            final(self).wf(),
            final(self).groups@ == old(self).groups@,
            final(self).clues@ == old(self).clues@.update(pos.idx(), value),
    {
        let p = (pos.row as usize) * 9 + (pos.col as usize);
        self.clues.set(p, value);
    }

    /// Records a batch of clues in order, later entries overwriting earlier
    /// ones.
    #[verifier::loop_isolation(false)]
    pub fn add_clues(&mut self, clues: Vec<(Position, u8)>)
        requires
            old(self).wf(),
            forall|j: int|
                0 <= j < clues@.len() ==> (#[trigger] clues@[j]).0.wf() && 1 <= clues@[j].1 <= 9,
        ensures
            final(self).wf(),
            final(self).groups@ == old(self).groups@,
            final(self).clues@ == apply_clues(old(self).clues@, clues@),
    {
        let n = clues.len();
        for j in 0..n
            invariant
                self.wf(),
                n == clues@.len(),
                self.groups@ == old(self).groups@,
                forall|i: int|
                    0 <= i < clues@.len() ==> (#[trigger] clues@[i]).0.wf() && 1 <= clues@[i].1
                        <= 9,
                self.clues@ == apply_clues(old(self).clues@, clues@.take(j as int)),
        {
            let (pos, value) = clues[j];
            self.add_clue(pos, value);
            proof {
                let t = clues@.take(j + 1);
                assert(t.take(t.len() - 1) =~= clues@.take(j as int));
                assert(t.last() == clues@[j as int]);
            }
        }
        proof {
            assert(clues@.take(n as int) =~= clues@);
        }
    }

    /// Validates the accumulated clues against every group and produces the
    /// puzzle, or reports the first group holding two equal clue digits.
    #[verifier::loop_isolation(false)]
    pub fn build(self) -> (r: Result<Puzzle, PuzzleError>)
        requires
            self.wf(),
        ensures
            r is Err <==> has_conflict(self.groups@, self.clues@),
            r matches Ok(pz) ==> pz.groups@ == self.groups@ && pz.clues@ == self.clues@
                && pz.wf(),
            r matches Err(e) ==> e matches PuzzleError::InvalidPuzzle { group, first, second }
                && conflict_witness(
                self.groups@,
                self.clues@,
                group as int,
                first as int,
                second as int,
            ),
    {
        let ng = self.groups.len();
        for k in 0..ng
            invariant
                self.wf(),
                ng == self.groups@.len(),
                forall|k2: int, a2: int, b2: int|
                    k2 < k ==> !group_conflict(self.groups@, self.clues@, k2, a2, b2),
        {
            for a in 0..9usize
                invariant
                    self.wf(),
                    ng == self.groups@.len(),
                    k < ng,
                    forall|k2: int, a2: int, b2: int|
                        k2 < k ==> !group_conflict(self.groups@, self.clues@, k2, a2, b2),
                    forall|a2: int, b2: int|
                        a2 < a || b2 < a ==> !group_conflict(
                            self.groups@,
                            self.clues@,
                            k as int,
                            a2,
                            b2,
                        ),
            {
                let ga = &self.groups[k].positions[a];
                let pa = (ga.row as usize) * 9 + (ga.col as usize);
                let va = self.clues[pa];
                if va != 0 {
                    for b in (a + 1)..9usize
                        invariant
                            self.wf(),
                            ng == self.groups@.len(),
                            k < ng,
                            a < 9,
                            pa == self.groups@[k as int].idxs()[a as int],
                            va == self.clues@[pa as int],
                            va != 0,
                            forall|k2: int, a2: int, b2: int|
                                k2 < k ==> !group_conflict(self.groups@, self.clues@, k2, a2, b2),
                            forall|a2: int, b2: int|
                                a2 < a || b2 < a ==> !group_conflict(
                                    self.groups@,
                                    self.clues@,
                                    k as int,
                                    a2,
                                    b2,
                                ),
                            forall|b2: int|
                                a < b2 < b ==> !group_conflict(
                                    self.groups@,
                                    self.clues@,
                                    k as int,
                                    a as int,
                                    b2,
                                ) && !group_conflict(
                                    self.groups@,
                                    self.clues@,
                                    k as int,
                                    b2,
                                    a as int,
                                ),
                    {
                        let gb = &self.groups[k].positions[b];
                        let pb = (gb.row as usize) * 9 + (gb.col as usize);
                        let vb = self.clues[pb];
                        if vb == va {
                            proof {
                                assert(pb == self.groups@[k as int].idxs()[b as int]);
                                assert(group_conflict(
                                    self.groups@,
                                    self.clues@,
                                    k as int,
                                    a as int,
                                    b as int,
                                ) && self.groups@[k as int].idxs()[a as int] == pa
                                    && self.groups@[k as int].idxs()[b as int] == pb);
                                assert(conflict_witness(
                                    self.groups@,
                                    self.clues@,
                                    k as int,
                                    pa as int,
                                    pb as int,
                                ));
                            }
                            return Err(PuzzleError::InvalidPuzzle { group: k, first: pa, second: pb });
                        }
                    }
                }
            }
        }
        proof {
            assert forall|k2: int, a2: int, b2: int|
                !group_conflict(self.groups@, self.clues@, k2, a2, b2) by {}
        }
        Ok(Puzzle { groups: self.groups, clues: self.clues })
    }
}

/// The cell indices of the `k`-th group of a standard puzzle: the nine rows,
/// then the nine columns, then the nine boxes row band by row band.
pub open spec fn standard_group_idxs(k: int) -> Seq<int> {
    if k < 9 {
        row_idxs(k)
    } else if k < 18 {
        col_idxs(k - 9)
    } else {
        cell_idxs(3 * ((k - 18) / 3), 3 * ((k - 18) % 3))
    }
}

/// Cells `a` and `b` of standard group `k` hold the same non-absent clue.
pub open spec fn std_group_conflict(clues: Seq<u8>, k: int, a: int, b: int) -> bool {
    &&& 0 <= k < 27
    &&& 0 <= a < 9
    &&& 0 <= b < 9
    &&& a != b
    &&& clues[standard_group_idxs(k)[a]] != 0
    &&& clues[standard_group_idxs(k)[a]] == clues[standard_group_idxs(k)[b]]
}

/// Some standard group holds two equal clue digits.
pub open spec fn std_has_conflict(clues: Seq<u8>) -> bool {
    exists|k: int, a: int, b: int| std_group_conflict(clues, k, a, b)
}

impl Puzzle {
    /// Builds the standard-variant puzzle — nine rows, nine columns, nine
    /// boxes — over the given clues, validating them against every group.
    pub fn standard(clues: Vec<(Position, u8)>) -> (r: Result<Puzzle, PuzzleError>)
        requires
            forall|j: int|
                0 <= j < clues@.len() ==> (#[trigger] clues@[j]).0.wf() && 1 <= clues@[j].1 <= 9,
        ensures
            r is Err <==> std_has_conflict(apply_clues(empty_clues(), clues@)),
            r matches Ok(pz) ==> {
                &&& pz.wf()
                &&& pz.groups@.len() == 27
                &&& forall|k: int|
                    0 <= k < 27 ==> (#[trigger] pz.groups@[k]).idxs() == standard_group_idxs(k)
                &&& pz.clues@ == apply_clues(empty_clues(), clues@)
            },
    {
        let mut builder = PuzzleBuilder::new();
        builder.add_row_groups();
        builder.add_col_groups();
        builder.add_cell_groups();
        builder.add_clues(clues);
        let ghost gs = builder.groups@;
        let ghost cs = builder.clues@;
        proof {
            assert forall|k: int| 0 <= k < 27 implies (#[trigger] gs[k]).idxs()
                == standard_group_idxs(k) by {
                if 18 <= k < 27 {
                    assert(gs[k].idxs() == cell_idxs(3 * ((k - 18) / 3), 3 * ((k - 18) % 3)));
                }
            }
        }
        let r = builder.build();
        proof {
            if has_conflict(gs, cs) {
                let (k, a, b) = choose|k: int, a: int, b: int| group_conflict(gs, cs, k, a, b);
                assert(std_group_conflict(cs, k, a, b));
            }
            if std_has_conflict(cs) {
                let (k, a, b) = choose|k: int, a: int, b: int| std_group_conflict(cs, k, a, b);
                assert(group_conflict(gs, cs, k, a, b));
            }
        }
        r
    }
}

/// A solved puzzle: the puzzle it answers and the eighty-one digits of the
/// completed grid in row-major order.
pub struct Solution {
    pub puzzle: Puzzle,
    pub elements: Vec<u8>,
}

/// What solving a puzzle produced.
pub enum SolveOutcome {
    /// A complete assignment satisfying every group and preserving the clues.
    Solved(Solution),
    /// No complete assignment satisfies the puzzle.
    Unsatisfiable,
}

} // verus!
