//! Placed pieces — a shape resting at fixed cells — and the movement rules
//! that decide whether a placement can be dropped from spawn.

use vstd::prelude::*;

use crate::board::{bit64, low_bits, Board, Lines, MAX_HEIGHT};
use crate::shapes::Shape;

verus! {

/// The cells of one piece, as one column mask per board column: a plain
/// copyable value.
#[derive(Copy, Clone, PartialEq, Eq, Structural, Hash, Debug)]
pub struct PieceCells {
    pub c0: u64,
    pub c1: u64,
    pub c2: u64,
    pub c3: u64,
    pub c4: u64,
    pub c5: u64,
    pub c6: u64,
    pub c7: u64,
    pub c8: u64,
    pub c9: u64,
}

impl PieceCells {
    /// The ten column masks in column order.
    pub open spec fn cols_seq(self) -> Seq<u64> {
        seq![self.c0, self.c1, self.c2, self.c3, self.c4, self.c5, self.c6, self.c7, self.c8,
            self.c9]
    }

    /// The mask of one column.
    pub open spec fn col(self, x: int) -> u64 {
        self.cols_seq()[x]
    }

    /// Cells with no piece: a blank mask in every column.
    pub fn blank() -> (r: PieceCells)
        ensures
            forall|x: int| 0 <= x < 10 ==> r.col(x) == 0u64,
    {
        PieceCells { c0: 0, c1: 0, c2: 0, c3: 0, c4: 0, c5: 0, c6: 0, c7: 0, c8: 0, c9: 0 }
    }

    /// Sets the cell at `(x, y)`.
    pub fn set_at(&mut self, x: usize, y: usize)
        requires
            x < 10,
            y <= MAX_HEIGHT,
        ensures
            final(self).col(x as int) == old(self).col(x as int) | (1u64 << (y as u64)),
            forall|m: int| 0 <= m < 10 && m != x ==> final(self).col(m) == old(self).col(m),
    {
        let b: u64 = 1u64 << (y as u64);
        match x {
            0 => self.c0 = self.c0 | b,
            1 => self.c1 = self.c1 | b,
            2 => self.c2 = self.c2 | b,
            3 => self.c3 = self.c3 | b,
            4 => self.c4 = self.c4 | b,
            5 => self.c5 = self.c5 | b,
            6 => self.c6 = self.c6 | b,
            7 => self.c7 = self.c7 | b,
            8 => self.c8 = self.c8 | b,
            _ => self.c9 = self.c9 | b,
        }
    }

    /// The same cells as a board value.
    pub fn to_board(&self) -> (r: Board)
        ensures
            r.wf_spec(),
            r.cols_spec() == self.cols_seq(),
    {
        let mut b = Board::blank();
        let mut out: Vec<u64> = Vec::new();
        out.push(self.c0);
        out.push(self.c1);
        out.push(self.c2);
        out.push(self.c3);
        out.push(self.c4);
        out.push(self.c5);
        out.push(self.c6);
        out.push(self.c7);
        out.push(self.c8);
        out.push(self.c9);
        let r = Board::from_cols(out);
        proof {
            assert(r.cols_spec() =~= self.cols_seq());
        }
        r
    }
}

/// A piece at rest: its shape, the cells it occupies (absolute rows), and
/// the rows that must already be cleared for it to sit where recorded.
#[derive(Copy, Clone, PartialEq, Eq, Structural, Hash, Debug)]
pub struct PlacedBlocks {
    /// The shape of the piece.
    pub shape: Shape,
    /// The cells the piece occupies at rest.
    pub cells: PieceCells,
    /// Rows that must have been cleared before this piece can occupy its
    /// recorded position.
    pub intercepted_rows: Lines,
}

impl PlacedBlocks {
    /// The rows the piece's cells occupy.
    pub open spec fn using_key(self) -> u64 {
        Board::used_key(self.cells.cols_seq(), 10)
    }

    /// A usable placement within a clipped board of the given height: the
    /// piece has cells, they sit below the height, the intercepted rows sit
    /// below the height, and no row is both used and intercepted.
    pub open spec fn wf_spec(self, height: int) -> bool {
        &&& self.using_key() != 0
        &&& self.using_key() & !low_bits(height as nat) == 0
        &&& self.intercepted_rows.key & !low_bits(height as nat) == 0
        &&& self.using_key() & self.intercepted_rows.key == 0
    }

    /// The rows the piece's cells occupy.
    pub fn using_rows(&self) -> (r: Lines)
        ensures
            r.key == self.using_key(),
    {
        let b = self.cells.to_board();
        b.used_rows()
    }
}

/// Whether nothing in board column `b` sits at or above any cell of piece
/// column `m`: a rigid vertical descent through the column is unobstructed.
pub open spec fn col_free_above(b: u64, m: u64) -> bool {
    forall|yp: int, yb: int|
        #[trigger] bit64(m, yp) && yp <= yb < 64 ==> !(#[trigger] bit64(b, yb))
}

/// Whether a placement can be reached from the spawn row under the drop
/// rules: every cell sits below the spawn row, and every column the piece
/// touches is empty from the piece upward.
pub open spec fn reaches_spec(bcols: Seq<u64>, pcols: Seq<u64>, spawn: int) -> bool {
    &&& forall|x: int| 0 <= x < 10 ==> col_free_above(bcols[x], #[trigger] pcols[x])
    &&& forall|x: int, y: int| 0 <= x < 10 && (#[trigger] bit64(pcols[x], y)) ==> y < spawn
}

/// Whether a placement rests on support: some cell sits on the floor or
/// directly above a filled cell of the board.
pub open spec fn landing_spec(bcols: Seq<u64>, pcols: Seq<u64>) -> bool {
    exists|x: int, y: int|
        0 <= x < 10 && (#[trigger] bit64(pcols[x], y)) && (y == 0 || bit64(bcols[x], y - 1))
}

/// The movement rules of the engine: a piece spawns above the field and
/// descends vertically in its final orientation. A placement is reachable
/// when the descent is unobstructed; it rests when supported. Alternative
/// rule sets answer the same two questions with the same contracts.
#[derive(Copy, Clone, PartialEq, Eq, Structural, Hash, Debug)]
pub struct MoveRules {
}

impl MoveRules {
    /// The drop movement rules.
    pub fn new() -> (r: MoveRules) {
        MoveRules {  }
    }

    /// One column of the reachability test.
    fn col_ok(b: u64, m: u64, spawn: usize) -> (r: bool)
        requires
            spawn <= 64,
        ensures
            r == (col_free_above(b, m) && (forall|y: int|
                (#[trigger] bit64(m, y)) ==> y < spawn)),
    {
        let mut y: usize = 0;
        while y < 64
            invariant
                y <= 64,
                spawn <= 64,
                forall|yp: int| 0 <= yp < y && (#[trigger] bit64(m, yp)) ==> yp < spawn,
                forall|yp: int, yb: int|
                    0 <= yp < y && #[trigger] bit64(m, yp) && yp <= yb < 64 ==> !(#[trigger] bit64(
                        b,
                        yb,
                    )),
            decreases 64 - y,
        {
            if (m >> (y as u64)) & 1u64 == 1u64 {
                proof {
                    assert(bit64(m, y as int));
                }
                if y >= spawn {
                    return false;
                }
                let mut yb: usize = y;
                while yb < 64
                    invariant
                        y <= yb <= 64,
                        bit64(m, y as int),
                        forall|t: int| y <= t < yb ==> !(#[trigger] bit64(b, t)),
                    decreases 64 - yb,
                {
                    if (b >> (yb as u64)) & 1u64 == 1u64 {
                        proof {
                            assert(bit64(b, yb as int));
                        }
                        return false;
                    }
                    yb = yb + 1;
                }
                proof {
                    assert(forall|yb2: int|
                        (y as int) <= yb2 < 64 ==> !(#[trigger] bit64(b, yb2)));
                }
            }
            y = y + 1;
        }
        proof {
            assert forall|yp: int, yb: int|
                #[trigger] bit64(m, yp) && yp <= yb < 64 implies !(#[trigger] bit64(b, yb)) by {
                assert(0 <= yp < 64);
            }
        }
        true
    }

    /// Whether the placement can be legally dropped from the spawn row to
    /// its resting cells on the given board.
    pub fn can_reach(&self, board: &Board, piece: &Board, spawn_row: usize) -> (r: bool)
        requires
            board.wf_spec(),
            piece.wf_spec(),
            spawn_row <= 64,
        ensures
            r == reaches_spec(board.cols_spec(), piece.cols_spec(), spawn_row as int),
    {
        let mut x: usize = 0;
        while x < 10
            invariant
                x <= 10,
                board.wf_spec(),
                piece.wf_spec(),
                spawn_row <= 64,
                forall|m: int|
                    0 <= m < x ==> col_free_above(board.col(m), #[trigger] piece.col(m)),
                forall|m: int, y: int|
                    0 <= m < x && (#[trigger] bit64(piece.col(m), y)) ==> y < spawn_row,
            decreases 10 - x,
        {
            let bcol = *board.col_at(x);
            let pcol = *piece.col_at(x);
            if !Self::col_ok(bcol, pcol, spawn_row) {
                proof {
                    assert(piece.cols_spec()[x as int] == pcol);
                    assert(board.cols_spec()[x as int] == bcol);
                    if col_free_above(bcol, pcol) {
                        let yw = choose|y: int| bit64(pcol, y) && !(y < spawn_row);
                        assert(bit64(piece.cols_spec()[x as int], yw));
                        assert(!reaches_spec(
                            board.cols_spec(),
                            piece.cols_spec(),
                            spawn_row as int,
                        ));
                    } else {
                        assert(!reaches_spec(
                            board.cols_spec(),
                            piece.cols_spec(),
                            spawn_row as int,
                        ));
                    }
                }
                return false;
            }
            x = x + 1;
        }
        proof {
            assert forall|x2: int| 0 <= x2 < 10 implies col_free_above(
                board.cols_spec()[x2],
                #[trigger] piece.cols_spec()[x2],
            ) by {
                assert(col_free_above(board.col(x2), piece.col(x2)));
            }
            assert forall|x2: int, y2: int|
                0 <= x2 < 10 && #[trigger] bit64(piece.cols_spec()[x2], y2) implies y2
                < spawn_row by {
                assert(bit64(piece.col(x2), y2));
                assert(y2 < spawn_row);
            }
            assert(reaches_spec(board.cols_spec(), piece.cols_spec(), spawn_row as int));
        }
        true
    }

    /// Whether the placement rests on support on the given board: some
    /// cell on the floor, or directly above a filled cell.
    pub fn is_landing(&self, board: &Board, piece: &Board) -> (r: bool)
        requires
            board.wf_spec(),
            piece.wf_spec(),
        ensures
            r == landing_spec(board.cols_spec(), piece.cols_spec()),
    {
        let mut x: usize = 0;
        while x < 10
            invariant
                x <= 10,
                board.wf_spec(),
                piece.wf_spec(),
                forall|m: int, y: int|
                    0 <= m < x && (#[trigger] bit64(piece.col(m), y)) ==> !(y == 0 || bit64(
                        board.col(m),
                        y - 1,
                    )),
            decreases 10 - x,
        {
            let bcol = *board.col_at(x);
            let pcol = *piece.col_at(x);
            let mut y: usize = 0;
            while y < 64
                invariant
                    y <= 64,
                    x < 10,
                    bcol == board.col(x as int),
                    pcol == piece.col(x as int),
                    forall|t: int|
                        0 <= t < y && (#[trigger] bit64(pcol, t)) ==> !(t == 0 || bit64(
                            bcol,
                            t - 1,
                        )),
                decreases 64 - y,
            {
                if (pcol >> (y as u64)) & 1u64 == 1u64 {
                    proof {
                        assert(bit64(pcol, y as int));
                    }
                    if y == 0 {
                        proof {
                            assert(bit64(piece.cols_spec()[x as int], 0));
                            assert(landing_spec(board.cols_spec(), piece.cols_spec()));
                        }
                        return true;
                    }
                    if (bcol >> ((y - 1) as u64)) & 1u64 == 1u64 {
                        proof {
                            assert(bit64(bcol, y as int - 1));
                            assert(bit64(piece.cols_spec()[x as int], y as int));
                            assert(bit64(board.cols_spec()[x as int], y as int - 1));
                            assert(landing_spec(board.cols_spec(), piece.cols_spec()));
                        }
                        return true;
                    }
                }
                y = y + 1;
            }
            x = x + 1;
        }
        proof {
            assert forall|m: int, y: int|
                0 <= m < 10 && #[trigger] bit64(piece.cols_spec()[m], y) implies !(y == 0 || bit64(
                board.cols_spec()[m],
                y - 1,
            )) by {
                assert(bit64(piece.col(m), y));
            }
            assert(!landing_spec(board.cols_spec(), piece.cols_spec()));
        }
        false
    }
}

} // verus!
