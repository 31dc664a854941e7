//! Row bitmasks and the fixed-width column bitboard the engine simulates
//! placements on.

use vstd::prelude::*;

verus! {

/// The board width: every row has this many cells.
pub const BOARD_WIDTH: usize = 10;

/// The greatest usable row index; rows live in one 64-bit mask.
pub const MAX_HEIGHT: usize = 63;

/// Whether bit `y` of `m` is set.
pub open spec fn bit64(m: u64, y: int) -> bool {
    0 <= y < 64 && (m >> (y as u64)) & 1u64 == 1u64
}

/// The mask of the `h` lowest bits.
pub open spec fn low_bits(h: nat) -> u64 {
    if h >= 64 {
        0xffff_ffff_ffff_ffffu64
    } else {
        (((1u64 << (h as u64)) as int) - 1) as u64
    }
}

/// How many bits of `m` strictly below position `y` are set.
pub open spec fn count_bits_below(m: u64, y: int) -> nat
    decreases y,
{
    if y <= 0 {
        0
    } else {
        count_bits_below(m, y - 1) + if bit64(m, y - 1) {
            1nat
        } else {
            0nat
        }
    }
}

/// The bits of `m` below position `y`, with the positions set in `del`
/// removed and the bits above them shifted down accordingly.
pub open spec fn squash_mask(m: u64, del: u64, y: int) -> u64
    decreases y,
{
    if y <= 0 {
        0u64
    } else {
        let rest = squash_mask(m, del, y - 1);
        if bit64(m, y - 1) && !bit64(del, y - 1) {
            rest | (1u64 << (((y - 1) - count_bits_below(del, y - 1)) as u64))
        } else {
            rest
        }
    }
}

/// A one bit shifted anywhere inside the word stays positive.
pub proof fn lemma_shift_one_pos(h: u64)
    requires
        h < 64,
    ensures
        1u64 << h >= 1,
{
    assert(1u64 << h >= 1) by (bit_vector)
        requires
            h < 64,
    ;
}

/// Fewer bits sit below a position than the position itself.
pub proof fn lemma_count_bits_below_bound(m: u64, y: int)
    requires
        0 <= y <= 64,
    ensures
        count_bits_below(m, y) <= y,
    decreases y,
{
    if y == 0 {
    } else {
        lemma_count_bits_below_bound(m, y - 1);
    }
}

/// A mask without bits at or above `h` has all its set bits counted below
/// `h`, and no more than `h` of them.
pub proof fn lemma_count_bits_below_masked(m: u64, h: int, y: int)
    requires
        0 <= h <= y <= 64,
        m & !low_bits(h as nat) == 0,
    ensures
        count_bits_below(m, y) == count_bits_below(m, h) <= h,
    decreases y,
{
    lemma_count_bits_below_bound(m, h);
    if y == h {
    } else {
        lemma_count_bits_below_masked(m, h, y - 1);
        let h64 = h as u64;
        let y64 = (y - 1) as u64;
        assert(low_bits(h as nat) == (((1u64 << h64) - 1) as u64));
        assert((m >> y64) & 1u64 != 1u64) by (bit_vector)
            requires
                m & !(((1u64 << h64) - 1) as u64) == 0,
                h64 < 64,
                y64 < 64,
                h64 <= y64,
        ;
        assert(!bit64(m, y - 1));
    }
}

/// A fixed-capacity set of board rows, one bit per row.
#[derive(Copy, Clone, PartialEq, Eq, Structural, Hash, Debug)]
pub struct Lines {
    /// One bit per row; bit `y` stands for row `y`.
    pub key: u64,
}

impl Lines {
    /// No rows.
    pub fn blank() -> (r: Lines)
        ensures
            r.key == 0u64,
    {
        Lines { key: 0 }
    }

    /// Every row strictly below `h`.
    pub fn filled_up_to(h: usize) -> (r: Lines)
        requires
            h <= MAX_HEIGHT,
        ensures
            r.key == low_bits(h as nat),
    {
        proof {
            lemma_shift_one_pos(h as u64);
        }
        Lines { key: (1u64 << (h as u64)) - 1 }
    }

    /// The rows in either set.
    pub fn union(self, other: Lines) -> (r: Lines)
        ensures
            r.key == self.key | other.key,
    {
        Lines { key: self.key | other.key }
    }

    /// Whether the two sets share a row.
    pub fn overlaps(self, other: Lines) -> (r: bool)
        ensures
            r == ((self.key & other.key) != 0),
    {
        (self.key & other.key) != 0
    }

    /// Whether every row of `other` is in `self`.
    pub fn covers(self, other: Lines) -> (r: bool)
        ensures
            r == ((other.key & !self.key) == 0),
    {
        (other.key & !self.key) == 0
    }

    /// How many rows the set holds.
    pub fn count(self) -> (r: usize)
        ensures
            r == count_bits_below(self.key, 64),
    {
        let mut n: usize = 0;
        let mut y: usize = 0;
        while y < 64
            invariant
                y <= 64,
                n == count_bits_below(self.key, y as int),
            decreases 64 - y,
        {
            proof {
                lemma_count_bits_below_bound(self.key, y as int);
            }
            if (self.key >> (y as u64)) & 1u64 == 1u64 {
                n = n + 1;
            }
            y = y + 1;
        }
        n
    }
}

/// A fixed-width bit grid: one 64-bit column mask per board column, bit `y`
/// of column `x` standing for the cell at `(x, y)`.
#[derive(PartialEq, Eq, Hash, Debug)]
#[verifier::ext_equal]
pub struct Board {
    cols: Vec<u64>,
}

impl Board {
    /// The column masks.
    pub closed spec fn cols_spec(self) -> Seq<u64> {
        self.cols@
    }

    /// A board has exactly one mask per column.
    pub open spec fn wf_spec(self) -> bool {
        self.cols_spec().len() == BOARD_WIDTH
    }

    /// The mask of one column.
    pub open spec fn col(self, x: int) -> u64 {
        self.cols_spec()[x]
    }

    /// A board with no cells set.
    pub fn blank() -> (r: Board)
        ensures
            r.wf_spec(),
            forall|x: int| 0 <= x < 10 ==> r.col(x) == 0u64,
    {
        let mut cols: Vec<u64> = Vec::new();
        let mut x: usize = 0;
        while x < BOARD_WIDTH
            invariant
                x <= 10,
                cols@.len() == x,
                forall|m: int| 0 <= m < x ==> cols@[m] == 0u64,
            decreases 10 - x,
        {
            cols.push(0);
            x = x + 1;
        }
        Board { cols }
    }

    /// A board whose every cell below row `h` is filled.
    pub fn filled_up_to(h: usize) -> (r: Board)
        requires
            h <= MAX_HEIGHT,
        ensures
            r.wf_spec(),
            forall|x: int| 0 <= x < 10 ==> r.col(x) == low_bits(h as nat),
    {
        proof {
            lemma_shift_one_pos(h as u64);
        }
        let fill: u64 = (1u64 << (h as u64)) - 1;
        let mut cols: Vec<u64> = Vec::new();
        let mut x: usize = 0;
        while x < BOARD_WIDTH
            invariant
                x <= 10,
                fill == low_bits(h as nat),
                cols@.len() == x,
                forall|m: int| 0 <= m < x ==> cols@[m] == fill,
            decreases 10 - x,
        {
            cols.push(fill);
            x = x + 1;
        }
        Board { cols }
    }

    /// A board made of the given column masks.
    pub fn from_cols(cols: Vec<u64>) -> (r: Board)
        requires
            cols@.len() == 10,
        ensures
            r.wf_spec(),
            r.cols_spec() == cols@,
    {
        Board { cols }
    }

    /// The mask of one column.
    pub fn col_at(&self, x: usize) -> (r: &u64)
        requires
            self.wf_spec(),
            x < BOARD_WIDTH,
        ensures
            *r == self.col(x as int),
    {
        &self.cols[x]
    }

    /// An identical copy of the board.
    pub fn duplicate(&self) -> (r: Board)
        requires
            self.wf_spec(),
        ensures
            r.wf_spec(),
            r.cols_spec() == self.cols_spec(),
    {
        let mut cols: Vec<u64> = Vec::new();
        let mut x: usize = 0;
        while x < BOARD_WIDTH
            invariant
                x <= 10,
                self.wf_spec(),
                cols@.len() == x,
                forall|m: int| 0 <= m < x ==> cols@[m] == self.cols_spec()[m],
            decreases 10 - x,
        {
            cols.push(self.cols[x]);
            x = x + 1;
        }
        proof {
            assert(cols@ =~= self.cols_spec());
        }
        Board { cols }
    }

    /// Sets the cell at `(x, y)`.
    pub fn set_at(&mut self, x: usize, y: usize)
        requires
            old(self).wf_spec(),
            x < BOARD_WIDTH,
            y <= MAX_HEIGHT,
        ensures
            final(self).wf_spec(),
            final(self).col(x as int) == old(self).col(x as int) | (1u64 << (y as u64)),
            forall|m: int|
                0 <= m < 10 && m != x ==> final(self).col(m) == old(self).col(m),
    {
        let v = self.cols[x] | (1u64 << (y as u64));
        self.cols.set(x, v);
    }

    /// Adds every cell of `other` to `self`.
    pub fn merge(&mut self, other: &Board)
        requires
            old(self).wf_spec(),
            other.wf_spec(),
        ensures
            final(self).wf_spec(),
            forall|x: int|
                0 <= x < 10 ==> final(self).col(x) == (old(self).col(x) | other.col(x)),
    {
        let mut x: usize = 0;
        while x < BOARD_WIDTH
            invariant
                x <= 10,
                other.wf_spec(),
                self.cols@.len() == 10,
                forall|m: int| 0 <= m < x ==> self.cols@[m] == (old(self).col(m) | other.col(m)),
                forall|m: int| x <= m < 10 ==> self.cols@[m] == old(self).col(m),
            decreases 10 - x,
        {
            let v = self.cols[x] | other.cols[x];
            self.cols.set(x, v);
            x = x + 1;
        }
    }

    /// Removes every cell of `other` from `self`.
    pub fn unset(&mut self, other: &Board)
        requires
            old(self).wf_spec(),
            other.wf_spec(),
        ensures
            final(self).wf_spec(),
            forall|x: int|
                0 <= x < 10 ==> final(self).col(x) == (old(self).col(x) & !other.col(x)),
    {
        let mut x: usize = 0;
        while x < BOARD_WIDTH
            invariant
                x <= 10,
                other.wf_spec(),
                self.cols@.len() == 10,
                forall|m: int| 0 <= m < x ==> self.cols@[m] == (old(self).col(m) & !other.col(m)),
                forall|m: int| x <= m < 10 ==> self.cols@[m] == old(self).col(m),
            decreases 10 - x,
        {
            let v = self.cols[x] & !other.cols[x];
            self.cols.set(x, v);
            x = x + 1;
        }
    }

    /// The rows of `self` below `upto` whose first `upto` columns are all
    /// filled.
    pub open spec fn full_key(cols: Seq<u64>, upto: int) -> u64
        decreases upto,
    {
        if upto <= 0 {
            0xffff_ffff_ffff_ffffu64
        } else {
            Board::full_key(cols, upto - 1) & cols[upto - 1]
        }
    }

    /// The rows strictly below `height` with every cell filled: the rows a
    /// line clear would remove.
    pub fn full_rows(&self, height: usize) -> (r: Lines)
        requires
            self.wf_spec(),
            height <= MAX_HEIGHT,
        ensures
            r.key == Board::full_key(self.cols_spec(), 10) & low_bits(height as nat),
    {
        let mut acc: u64 = 0xffff_ffff_ffff_ffff;
        let mut x: usize = 0;
        while x < BOARD_WIDTH
            invariant
                x <= 10,
                self.wf_spec(),
                acc == Board::full_key(self.cols_spec(), x as int),
            decreases 10 - x,
        {
            acc = acc & self.cols[x];
            x = x + 1;
        }
        proof {
            lemma_shift_one_pos(height as u64);
        }
        Lines { key: acc & ((1u64 << (height as u64)) - 1) }
    }

    /// The union of all column masks: every row that holds at least one
    /// cell.
    pub open spec fn used_key(cols: Seq<u64>, upto: int) -> u64
        decreases upto,
    {
        if upto <= 0 {
            0u64
        } else {
            Board::used_key(cols, upto - 1) | cols[upto - 1]
        }
    }

    /// The rows on which the board has at least one cell.
    pub fn used_rows(&self) -> (r: Lines)
        requires
            self.wf_spec(),
        ensures
            r.key == Board::used_key(self.cols_spec(), 10),
    {
        let mut acc: u64 = 0;
        let mut x: usize = 0;
        while x < BOARD_WIDTH
            invariant
                x <= 10,
                self.wf_spec(),
                acc == Board::used_key(self.cols_spec(), x as int),
            decreases 10 - x,
        {
            acc = acc | self.cols[x];
            x = x + 1;
        }
        Lines { key: acc }
    }

    /// Whether the board has no cell at all.
    pub fn is_blank(&self) -> (r: bool)
        requires
            self.wf_spec(),
        ensures
            r == (Board::used_key(self.cols_spec(), 10) == 0),
    {
        let rows = self.used_rows();
        rows.key == 0
    }
}

/// One column mask with the rows of `del` removed and everything above
/// them shifted down.
pub fn squash(m: u64, del: u64) -> (r: u64)
    ensures
        r == squash_mask(m, del, 64),
{
    let mut out: u64 = 0;
    let mut cnt: usize = 0;
    let mut y: usize = 0;
    while y < 64
        invariant
            y <= 64,
            cnt == count_bits_below(del, y as int),
            out == squash_mask(m, del, y as int),
            cnt <= y,
        decreases 64 - y,
    {
        proof {
            lemma_count_bits_below_bound(del, y as int);
        }
        let m_set = (m >> (y as u64)) & 1u64 == 1u64;
        let d_set = (del >> (y as u64)) & 1u64 == 1u64;
        if m_set && !d_set {
            out = out | (1u64 << ((y - cnt) as u64));
        }
        if d_set {
            cnt = cnt + 1;
        }
        y = y + 1;
    }
    out
}

/// The columns of a whole board, squashed by the same removed rows.
pub open spec fn squash_cols(cols: Seq<u64>, del: u64) -> Seq<u64> {
    Seq::new(cols.len(), |x: int| squash_mask(cols[x], del, 64))
}

/// The board with the rows of `del` removed and everything above them
/// shifted down.
pub fn squash_board(b: &Board, del: u64) -> (r: Board)
    requires
        b.wf_spec(),
    ensures
        r.wf_spec(),
        r.cols_spec() == squash_cols(b.cols_spec(), del),
{
    let mut cols: Vec<u64> = Vec::new();
    let mut x: usize = 0;
    while x < BOARD_WIDTH
        invariant
            x <= 10,
            b.wf_spec(),
            cols@.len() == x,
            forall|m: int| 0 <= m < x ==> cols@[m] == squash_mask(b.cols_spec()[m], del, 64),
        decreases 10 - x,
    {
        cols.push(squash(b.cols[x], del));
        x = x + 1;
    }
    proof {
        assert(cols@ =~= squash_cols(b.cols_spec(), del));
    }
    Board { cols }
}

/// A bounded-height view of the play field: the board content together
/// with the height within which a perfect clear is sought.
#[derive(Debug)]
pub struct ClippedBoard {
    board: Board,
    height: usize,
}

impl ClippedBoard {
    /// The clipped content.
    pub closed spec fn board_spec(self) -> Board {
        self.board
    }

    /// The clipping height.
    pub closed spec fn height_spec(self) -> int {
        self.height as int
    }

    /// A usable clipped board: a well-formed board, a positive height
    /// within range, and no cell at or above the height.
    pub open spec fn wf_spec(self) -> bool {
        &&& self.board_spec().wf_spec()
        &&& 0 < self.height_spec() <= MAX_HEIGHT
        &&& forall|x: int|
            0 <= x < 10 ==> (#[trigger] self.board_spec().col(x)) & !low_bits(
                self.height_spec() as nat,
            ) == 0
    }

    /// Clips a board at a height. Refused: a zero or over-range height, or
    /// a board with cells at or above the height.
    pub fn try_new(board: Board, height: usize) -> (r: Option<ClippedBoard>)
        requires
            board.wf_spec(),
        ensures
            r matches Some(c) ==> c.wf_spec() && c.board_spec() == board && c.height_spec()
                == height,
            (0 < height <= MAX_HEIGHT && (forall|x: int|
                0 <= x < 10 ==> (#[trigger] board.col(x)) & !low_bits(height as nat) == 0))
                ==> r is Some,
    {
        if height == 0 || height > MAX_HEIGHT {
            return None;
        }
        proof {
            lemma_shift_one_pos(height as u64);
        }
        let limit: u64 = !((1u64 << (height as u64)) - 1);
        let mut x: usize = 0;
        while x < BOARD_WIDTH
            invariant
                x <= 10,
                board.wf_spec(),
                0 < height <= 63,
                limit == !low_bits(height as nat),
                forall|m: int| 0 <= m < x ==> (#[trigger] board.col(m)) & !low_bits(
                    height as nat,
                ) == 0,
            decreases 10 - x,
        {
            if board.cols[x] & limit != 0 {
                proof {
                    assert(board.col(x as int) & !low_bits(height as nat) != 0);
                }
                return None;
            }
            x = x + 1;
        }
        Some(ClippedBoard { board, height })
    }

    /// The clipped content.
    pub fn board(&self) -> (r: &Board)
        ensures
            r == self.board_spec(),
    {
        &self.board
    }

    /// The clipping height.
    pub fn height(&self) -> (r: usize)
        ensures
            r == self.height_spec(),
    {
        self.height
    }
}

} // verus!
