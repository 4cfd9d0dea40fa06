//! A rectangular grid of per-cell marks together with its symmetry
//! canonicalizer.
//!
//! A cell holds `None` (empty), `Some(true)` (a cross) or `Some(false)` (a
//! nought).  The board is hashed by a base-3 positional encoding, which is
//! injective for boards of equal dimensions, and canonicalized by picking
//! the transform of maximal hash among the symmetry group valid for the
//! board's shape.

use vstd::prelude::*;
use super::super::Outcome;

verus! {

/// The largest cell count for which the base-3 hash encoding fits in `i32`
/// (`3^19 - 1 < i32::MAX < 3^20 - 1`).
pub const MAX_HASH_CELLS: usize = 19;

/// The mathematical model of a board: a sequence of rows of cells, plus the
/// fixed dimensions and the run length needed to win.
pub struct BoardModel {
    pub cells: Seq<Seq<Option<bool>>>,
    pub height: int,
    pub width: int,
    pub win: int,
}

/// Well-formedness: positive dimensions small enough for the hash encoding,
/// a positive win length, and a cell grid that matches the dimensions.
pub open spec fn board_wf(m: BoardModel) -> bool {
    &&& 1 <= m.height
    &&& 1 <= m.width
    &&& m.height * m.width <= MAX_HASH_CELLS as int
    &&& 1 <= m.win
    &&& m.cells.len() == m.height
    &&& forall|i: int| 0 <= i < m.height ==> (#[trigger] m.cells[i]).len() == m.width
}

/// Reflection along the horizontal axis: the order of the rows is reversed.
pub open spec fn s_flip(m: BoardModel) -> BoardModel {
    BoardModel {
        cells: Seq::new(m.height as nat, |i: int| m.cells[m.height - 1 - i]),
        height: m.height,
        width: m.width,
        win: m.win,
    }
}

/// Quarter-turn rotation to the right; height and width swap.
pub open spec fn s_rot(m: BoardModel) -> BoardModel {
    BoardModel {
        cells: Seq::new(
            m.width as nat,
            |i: int| Seq::new(m.height as nat, |j: int| m.cells[m.height - 1 - j][i]),
        ),
        height: m.width,
        width: m.height,
        win: m.win,
    }
}

/// `n` reflections in a row.
pub open spec fn s_flip_n(n: nat, m: BoardModel) -> BoardModel
    decreases n,
{
    if n == 0 {
        m
    } else {
        s_flip(s_flip_n((n - 1) as nat, m))
    }
}

/// `n` quarter-turns in a row.
pub open spec fn s_rot_n(n: nat, m: BoardModel) -> BoardModel
    decreases n,
{
    if n == 0 {
        m
    } else {
        s_rot(s_rot_n((n - 1) as nat, m))
    }
}

/// `f` reflections followed by `r` quarter-turns.
pub open spec fn s_transform(f: nat, r: nat, m: BoardModel) -> BoardModel {
    s_rot_n(r, s_flip_n(f, m))
}

/// The base-3 code of one cell.
pub open spec fn cell_code(c: Option<bool>) -> int {
    match c {
        None => 0,
        Some(true) => 1,
        Some(false) => 2,
    }
}

/// `3^n`.
pub open spec fn pow3(n: nat) -> int
    decreases n,
{
    if n == 0 {
        1
    } else {
        3 * pow3((n - 1) as nat)
    }
}

/// The cell at flat row-major index `c`.
pub open spec fn cell_at(m: BoardModel, c: int) -> Option<bool> {
    m.cells[c / m.width][c % m.width]
}

/// The hash contribution of the first `k` cells in row-major order.
pub open spec fn hash_upto(m: BoardModel, k: nat) -> int
    decreases k,
{
    if k == 0 {
        0
    } else {
        hash_upto(m, (k - 1) as nat) + cell_code(cell_at(m, k - 1)) * pow3((k - 1) as nat)
    }
}

/// The deterministic integer encoding of a board: cells are weighted by
/// `3^index` in row-major order.
pub open spec fn board_hash(m: BoardModel) -> int {
    hash_upto(m, (m.height * m.width) as nat)
}

pub proof fn lemma_pow3_pos(n: nat)
    ensures
        pow3(n) >= 1,
    decreases n,
{
    if n > 0 {
        lemma_pow3_pos((n - 1) as nat);
    }
}

/// The concrete value of the largest power of 3 the hash can use.
pub proof fn lemma_pow3_value()
    ensures
        pow3(MAX_HASH_CELLS as nat) == 1162261467,
{
    reveal_with_fuel(pow3, 21);
}

pub proof fn lemma_pow3_mono(a: nat, b: nat)
    requires
        a <= b,
    ensures
        pow3(a) <= pow3(b),
    decreases b,
{
    if a < b {
        lemma_pow3_mono(a, (b - 1) as nat);
        lemma_pow3_pos((b - 1) as nat);
    }
}

/// The first `k` cells contribute at least 0 and at most `3^k - 1`.
pub proof fn lemma_hash_upto_bounds(m: BoardModel, k: nat)
    ensures
        0 <= hash_upto(m, k) <= pow3(k) - 1,
    decreases k,
{
    if k > 0 {
        lemma_hash_upto_bounds(m, (k - 1) as nat);
        lemma_pow3_pos((k - 1) as nat);
        assert(0 <= cell_code(cell_at(m, k - 1)) <= 2);
        assert(cell_code(cell_at(m, k - 1)) * pow3((k - 1) as nat) <= 2 * pow3((k - 1) as nat))
            by (nonlinear_arith)
            requires
                0 <= cell_code(cell_at(m, k - 1)) <= 2,
                pow3((k - 1) as nat) >= 1,
        ;
        assert(cell_code(cell_at(m, k - 1)) * pow3((k - 1) as nat) >= 0) by (nonlinear_arith)
            requires
                0 <= cell_code(cell_at(m, k - 1)),
                pow3((k - 1) as nat) >= 1,
        ;
    }
}

/// Row-major flattening: the flat index `i * w + j` decodes back to `(i, j)`.
pub proof fn lemma_flat_index(i: int, j: int, w: int)
    by (nonlinear_arith)
    requires
        1 <= w,
        0 <= i,
        0 <= j < w,
    ensures
        (i * w + j) / w == i,
        (i * w + j) % w == j,
{
}

/// A rectangular grid of cells, with fixed dimensions and win length.
pub struct Board {
    contents: Vec<Vec<Option<bool>>>,
    height: i32,
    width: i32,
    win: i32,
}

impl Board {
    /// The mathematical model of this board.
    pub closed spec fn model(&self) -> BoardModel {
        BoardModel {
            cells: self.contents@.map_values(|row: Vec<Option<bool>>| row@),
            height: self.height as int,
            width: self.width as int,
            win: self.win as int,
        }
    }

    /// Well-formedness of the board representation.
    pub open spec fn inv(&self) -> bool {
        board_wf(self.model())
    }

    /// An empty board of the given dimensions.
    #[verifier::loop_isolation(false)]
    pub fn new(height: i32, width: i32, win: i32) -> (b: Board)
        requires
            1 <= height,
            1 <= width,
            (height as int) * (width as int) <= MAX_HASH_CELLS as int,
            1 <= win,
        ensures
            b.inv(),
            b.model() == empty_board(height as int, width as int, win as int),
    {
        let mut contents: Vec<Vec<Option<bool>>> = Vec::new();
        let mut i: i32 = 0;
        while i < height
            invariant
                0 <= i <= height,
                contents@.len() == i,
                forall|r: int| #![auto]
                    0 <= r < i ==> contents@[r]@ =~= Seq::new(
                        width as nat,
                        |j: int| None::<bool>,
                    ),
            decreases height - i,
        {
            let mut row: Vec<Option<bool>> = Vec::new();
            let mut j: i32 = 0;
            while j < width
                invariant
                    0 <= j <= width,
                    row@.len() == j,
                    forall|c: int| 0 <= c < j ==> row@[c] is None,
                decreases width - j,
            {
                row.push(None);
                j = j + 1;
            }
            proof {
                assert(row@ =~= Seq::new(width as nat, |j: int| None::<bool>));
            }
            contents.push(row);
            i = i + 1;
        }
        let b = Board { contents, height, width, win };
        proof {
            assert(b.model().cells =~~= empty_board(
                height as int,
                width as int,
                win as int,
            ).cells);
        }
        b
    }

    /// The number of rows.
    pub fn height(&self) -> (h: i32)
        ensures
            h as int == self.model().height,
    {
        self.height
    }

    /// The number of columns.
    pub fn width(&self) -> (w: i32)
        ensures
            w as int == self.model().width,
    {
        self.width
    }

    /// The mark at row `i`, column `j`.
    pub fn symbol_at(&self, i: i32, j: i32) -> (c: Option<bool>)
        requires
            self.inv(),
            0 <= i < self.model().height,
            0 <= j < self.model().width,
        ensures
            c == self.model().cells[i as int][j as int],
    {
        proof {
            assert(self.model().cells[i as int] == self.contents@[i as int]@);
            assert(self.model().cells[i as int].len() == self.model().width);
        }
        self.contents[i as usize][j as usize]
    }

    /// Writes `what` into the cell at row `i`, column `j`.
    pub fn place(&mut self, what: Option<bool>, i: i32, j: i32)
        requires
            old(self).inv(),
            0 <= i < old(self).model().height,
            0 <= j < old(self).model().width,
        ensures
            final(self).inv(),
            final(self).model() == board_set(old(self).model(), i as int, j as int, what),
    {
        proof {
            assert(old(self).model().cells[i as int] == old(self).contents@[i as int]@);
            assert(old(self).model().cells[i as int].len() == old(self).model().width);
        }
        let row = &mut self.contents[i as usize];
        row[j as usize] = what;
        proof {
            assert(final(self).model().cells =~~= board_set(
                old(self).model(),
                i as int,
                j as int,
                what,
            ).cells);
        }
    }

    /// An independent copy of this board.
    #[verifier::loop_isolation(false)]
    pub fn snapshot(&self) -> (b: Board)
        requires
            self.inv(),
        ensures
            b.inv(),
            b.model() == self.model(),
    {
        let mut contents: Vec<Vec<Option<bool>>> = Vec::new();
        let mut i: usize = 0;
        while i < self.contents.len()
            invariant
                self.inv(),
                0 <= i <= self.contents@.len(),
                contents@.len() == i,
                forall|r: int| #![auto] 0 <= r < i ==> contents@[r]@ == self.contents@[r]@,
            decreases self.contents@.len() - i,
        {
            let row = copy_row(&self.contents[i]);
            contents.push(row);
            i = i + 1;
        }
        let b = Board { contents, height: self.height, width: self.width, win: self.win };
        proof {
            assert(b.model().cells =~~= self.model().cells);
        }
        b
    }

    /// Reflects the board along its horizontal axis.
    #[verifier::loop_isolation(false)]
    fn flip(&mut self)
        requires
            old(self).inv(),
        ensures
            final(self).inv(),
            final(self).model() == s_flip(old(self).model()),
    {
        let h = self.contents.len();
        let mut new_contents: Vec<Vec<Option<bool>>> = Vec::new();
        let mut i: usize = 0;
        while i < h
            invariant
                old(self).inv(),
                *self == *old(self),
                h == self.contents@.len(),
                0 <= i <= h,
                new_contents@.len() == i,
                forall|r: int| #![auto]
                    0 <= r < i ==> new_contents@[r]@ == self.contents@[h - 1 - r]@,
            decreases h - i,
        {
            let row = copy_row(&self.contents[h - 1 - i]);
            new_contents.push(row);
            i = i + 1;
        }
        self.contents = new_contents;
        proof {
            assert(final(self).model().cells =~~= s_flip(old(self).model()).cells);
        }
    }

    /// Rotates the board a quarter-turn to the right; height and width swap.
    #[verifier::loop_isolation(false)]
    fn rotate(&mut self)
        requires
            old(self).inv(),
        ensures
            final(self).inv(),
            final(self).model() == s_rot(old(self).model()),
    {
        let h = self.contents.len();
        let w = self.width as usize;
        let mut new_contents: Vec<Vec<Option<bool>>> = Vec::new();
        let mut i: usize = 0;
        while i < w
            invariant
                old(self).inv(),
                *self == *old(self),
                h == self.contents@.len(),
                w == self.model().width,
                0 <= i <= w,
                new_contents@.len() == i,
                forall|r: int| #![trigger new_contents@[r]]
                    0 <= r < i ==> new_contents@[r]@.len() == h,
                forall|r: int, c: int| #![trigger new_contents@[r]@[c]]
                    0 <= r < i && 0 <= c < h ==> new_contents@[r]@[c] == self.contents@[h - 1
                        - c]@[r],
            decreases w - i,
        {
            let mut row: Vec<Option<bool>> = Vec::new();
            let mut j: usize = 0;
            while j < h
                invariant
                    old(self).inv(),
                    *self == *old(self),
                    h == self.contents@.len(),
                    w == self.model().width,
                    0 <= i < w,
                    0 <= j <= h,
                    row@.len() == j,
                    forall|c: int| #![auto]
                        0 <= c < j ==> row@[c] == self.contents@[h - 1 - c]@[i as int],
                decreases h - j,
            {
                proof {
                    assert(self.model().cells[h - 1 - j] == self.contents@[h - 1 - j]@);
                    assert(self.model().cells[h - 1 - j].len() == self.model().width);
                }
                row.push(self.contents[h - 1 - j][i]);
                j = j + 1;
            }
            proof {
                assert(row@.len() == h);
            }
            new_contents.push(row);
            i = i + 1;
        }
        let ghost nc = new_contents@;
        let old_height = self.height;
        self.height = self.width;
        self.width = old_height;
        self.contents = new_contents;
        proof {
            let mo = old(self).model();
            let mf = self.model();
            assert(mf.cells.len() == w);
            assert forall|r: int| 0 <= r < w implies mf.cells[r] =~= s_rot(mo).cells[r] by {
                assert(mf.cells[r] == nc[r]@);
                assert forall|c: int| 0 <= c < h implies nc[r]@[c] == s_rot(mo).cells[r][c] by {
                    assert(nc[r]@[c] == old(self).contents@[h - 1 - c]@[r]);
                    assert(mo.cells[h - 1 - c] == old(self).contents@[h - 1 - c]@);
                }
            }
            assert(mf.cells =~~= s_rot(mo).cells);
            assert(mf == s_rot(mo));
            assert(mf.height * mf.width == mo.height * mo.width) by (nonlinear_arith)
                requires
                    mf.height == mo.width,
                    mf.width == mo.height,
            ;
            assert(board_wf(mf));
        }
    }

    /// Applies `flip` horizontal-axis reflections, then `rotate`
    /// quarter-turn rotations, in place.
    #[verifier::loop_isolation(false)]
    pub fn transform(&mut self, flip: i32, rotate: i32)
        requires
            old(self).inv(),
            0 <= flip,
            0 <= rotate,
        ensures
            final(self).inv(),
            final(self).model() == s_transform(flip as nat, rotate as nat, old(self).model()),
    {
        let mut k: i32 = 0;
        while k < flip
            invariant
                0 <= k <= flip,
                self.inv(),
                self.model() == s_flip_n(k as nat, old(self).model()),
            decreases flip - k,
        {
            self.flip();
            k = k + 1;
        }
        let mut r: i32 = 0;
        while r < rotate
            invariant
                0 <= r <= rotate,
                self.inv(),
                self.model() == s_rot_n(r as nat, s_flip_n(flip as nat, old(self).model())),
            decreases rotate - r,
        {
            self.rotate();
            r = r + 1;
        }
    }

    /// The base-3 positional hash of the board.
    #[verifier::loop_isolation(false)]
    pub fn hash(&self) -> (h: i32)
        requires
            self.inv(),
        ensures
            h as int == board_hash(self.model()),
            0 <= h,
    {
        let ghost m = self.model();
        let mut hash: i32 = 0;
        let mut pw: i32 = 1;
        let mut counter: i32 = 0;
        let total = self.height * self.width;
        proof {
            lemma_pow3_mono(0, MAX_HASH_CELLS as nat);
        }
        let mut i: i32 = 0;
        while i < self.height
            invariant
                self.inv(),
                m == self.model(),
                total == m.height * m.width,
                0 <= i <= m.height,
                counter == i * m.width,
                counter <= total,
                hash as int == hash_upto(m, counter as nat),
                pw as int == pow3(counter as nat),
                pw <= pow3(MAX_HASH_CELLS as nat),
            decreases m.height - i,
        {
            let mut j: i32 = 0;
            proof {
                assert((i + 1) * m.width == i * m.width + m.width) by (nonlinear_arith);
                assert(i * m.width + m.width <= m.height * m.width) by (nonlinear_arith)
                    requires
                        i < m.height,
                        1 <= m.width,
                ;
            }
            while j < self.width
                invariant
                    self.inv(),
                    m == self.model(),
                    total == m.height * m.width,
                    0 <= i < m.height,
                    0 <= j <= m.width,
                    counter == i * m.width + j,
                    i * m.width + m.width <= total,
                    counter <= total,
                    hash as int == hash_upto(m, counter as nat),
                    pw as int == pow3(counter as nat),
                    pw <= pow3(MAX_HASH_CELLS as nat),
                decreases m.width - j,
            {
                proof {
                    lemma_flat_index(i as int, j as int, m.width);
                    lemma_hash_upto_bounds(m, counter as nat);
                    lemma_hash_upto_bounds(m, (counter + 1) as nat);
                    lemma_pow3_mono((counter + 1) as nat, MAX_HASH_CELLS as nat);
                    lemma_pow3_pos(counter as nat);
                    lemma_pow3_value();
                    assert(pow3((counter + 1) as nat) == 3 * pow3(counter as nat));
                }
                let curr = self.symbol_at(i, j);
                match curr {
                    None => {},
                    Some(true) => {
                        hash = hash + pw;
                    },
                    Some(false) => {
                        hash = hash + 2 * pw;
                    },
                }
                pw = pw * 3;
                counter = counter + 1;
                j = j + 1;
            }
            i = i + 1;
        }
        proof {
            lemma_hash_upto_bounds(m, (m.height * m.width) as nat);
        }
        hash
    }
}

/// A run of `m.win` equal, non-empty cells starting at `(i, j)` and
/// advancing by `(di, dj)` per step.
pub open spec fn run_of(m: BoardModel, i: int, j: int, di: int, dj: int) -> bool {
    &&& m.cells[i][j] is Some
    &&& forall|k: int| #![trigger k * di, k * dj]
        0 <= k < m.win ==> m.cells[i + k * di][j + k * dj] == m.cells[i][j]
}

/// Some row holds a run of `m.win` equal marks.
pub open spec fn has_horizontal_win(m: BoardModel) -> bool {
    exists|i: int, j: int| #![trigger run_of(m, i, j, 0, 1)]
        0 <= i < m.height && 0 <= j && j + m.win <= m.width && run_of(m, i, j, 0, 1)
}

/// Some column holds a run of `m.win` equal marks.
pub open spec fn has_vertical_win(m: BoardModel) -> bool {
    exists|i: int, j: int| #![trigger run_of(m, i, j, 1, 0)]
        0 <= i && i + m.win <= m.height && 0 <= j < m.width && run_of(m, i, j, 1, 0)
}

/// Some diagonal, in either direction, holds a run of `m.win` equal marks.
pub open spec fn has_diagonal_win(m: BoardModel) -> bool {
    ||| exists|i: int, j: int| #![trigger run_of(m, i, j, 1, 1)]
        0 <= i && i + m.win <= m.height && 0 <= j && j + m.win <= m.width && run_of(m, i, j, 1, 1)
    ||| exists|i: int, j: int| #![trigger run_of(m, i, j, 1, -1)]
        0 <= i && i + m.win <= m.height && m.win - 1 <= j < m.width && run_of(m, i, j, 1, -1)
}

/// The previous mover completed a run somewhere on the board.
pub open spec fn has_win(m: BoardModel) -> bool {
    has_horizontal_win(m) || has_vertical_win(m) || has_diagonal_win(m)
}

/// Every cell carries a mark.
pub open spec fn board_full(m: BoardModel) -> bool {
    forall|i: int, j: int| #![auto]
        0 <= i < m.height && 0 <= j < m.width ==> m.cells[i][j] is Some
}

/// The terminal status of a board: a completed run is a loss for the player
/// about to move, a full board without a run is a tie, anything else is not
/// terminal.  A terminal position has remoteness 0.
pub open spec fn board_outcome(m: BoardModel) -> Option<Outcome> {
    if has_win(m) {
        Some(Outcome::Loss(0))
    } else if board_full(m) {
        Some(Outcome::Tie(0))
    } else {
        None
    }
}

/// How many of the first `k` cells (in row-major order) carry a mark.
pub open spec fn filled_upto(m: BoardModel, k: nat) -> int
    decreases k,
{
    if k == 0 {
        0
    } else {
        filled_upto(m, (k - 1) as nat) + if cell_at(m, k - 1) is Some {
            1int
        } else {
            0int
        }
    }
}

/// How many cells of the board carry a mark.
pub open spec fn board_filled(m: BoardModel) -> int {
    filled_upto(m, (m.height * m.width) as nat)
}

/// A flat index below `h * w` decodes to a cell position in range.
pub proof fn lemma_flat_decode(c: int, h: int, w: int)
    by (nonlinear_arith)
    requires
        1 <= w,
        1 <= h,
        0 <= c < h * w,
    ensures
        0 <= c / w < h,
        0 <= c % w < w,
{
}

pub proof fn lemma_filled_upto_bounds(m: BoardModel, k: nat)
    ensures
        0 <= filled_upto(m, k) <= k,
    decreases k,
{
    if k > 0 {
        lemma_filled_upto_bounds(m, (k - 1) as nat);
    }
}

/// An empty board has no marks.
pub proof fn lemma_empty_filled(h: int, w: int, win: int, k: nat)
    requires
        1 <= h,
        1 <= w,
        k <= h * w,
    ensures
        filled_upto(empty_board(h, w, win), k) == 0,
    decreases k,
{
    if k > 0 {
        lemma_empty_filled(h, w, win, (k - 1) as nat);
        lemma_flat_decode(k - 1, h, w);
        assert(cell_at(empty_board(h, w, win), k - 1) is None);
    }
}

/// A board with an empty cell among its first `k` is not fully marked
/// there.
pub proof fn lemma_filled_none(m: BoardModel, c: int, k: nat)
    requires
        0 <= c < k,
        cell_at(m, c) is None,
    ensures
        filled_upto(m, k) <= k - 1,
    decreases k,
{
    if k - 1 == c {
        lemma_filled_upto_bounds(m, (k - 1) as nat);
    } else {
        lemma_filled_none(m, c, (k - 1) as nat);
    }
}

/// Replacing one cell changes the mark count only through that cell.
pub proof fn lemma_filled_update(m: BoardModel, i: int, j: int, v: Option<bool>, k: nat)
    requires
        board_wf(m),
        0 <= i < m.height,
        0 <= j < m.width,
        k <= m.height * m.width,
    ensures
        filled_upto(board_set(m, i, j, v), k) == filled_upto(m, k) + if k > i * m.width + j {
            (if v is Some { 1int } else { 0int }) - (if m.cells[i][j] is Some { 1int } else { 0int })
        } else {
            0int
        },
    decreases k,
{
    let m2 = board_set(m, i, j, v);
    let c0 = i * m.width + j;
    lemma_flat_index(i, j, m.width);
    assert(0 <= i * m.width + j < m.height * m.width) by (nonlinear_arith)
        requires
            0 <= i < m.height,
            0 <= j < m.width,
            1 <= m.width,
    ;
    if k > 0 {
        lemma_filled_update(m, i, j, v, (k - 1) as nat);
        let c = k - 1;
        lemma_flat_decode(c, m.height, m.width);
        if c == c0 {
            assert(c / m.width == i && c % m.width == j);
            assert(cell_at(m2, c) == v);
            assert(cell_at(m, c) == m.cells[i][j]);
        } else {
            vstd::arithmetic::div_mod::lemma_fundamental_div_mod(c, m.width);
            assert(c / m.width * m.width + c % m.width == c);
            assert(i * m.width + j == c0);
            if c / m.width == i && c % m.width == j {
                assert(c == c0);
            }
            assert(cell_at(m2, c) == cell_at(m, c));
        }
    }
}

impl Board {
    /// Checks for a run of `win` equal marks starting at `(i, j)` and
    /// stepping by `(di, dj)`.
    #[verifier::loop_isolation(false)]
    fn check_run_from(&self, i: i32, j: i32, di: i32, dj: i32) -> (r: bool)
        requires
            self.inv(),
            0 <= i < self.model().height,
            0 <= j < self.model().width,
            -1 <= di <= 1,
            -1 <= dj <= 1,
            self.model().win <= MAX_HASH_CELLS as int,
            forall|k: int| #![trigger k * di, k * dj]
                0 <= k < self.model().win ==> 0 <= i + k * di < self.model().height && 0 <= j + k
                    * dj < self.model().width,
        ensures
            r == run_of(self.model(), i as int, j as int, di as int, dj as int),
    {
        let ghost m = self.model();
        let first = self.symbol_at(i, j);
        if first.is_none() {
            return false;
        }
        let mut ni: i32 = i;
        let mut nj: i32 = j;
        let mut k: i32 = 1;
        proof {
            assert forall|t: int| #![trigger t * di, t * dj] 0 <= t < 1 implies m.cells[i + t
                * di][j + t * dj] == m.cells[i as int][j as int] by {
                assert(t == 0);
                assert(t * di == 0 && t * dj == 0) by (nonlinear_arith)
                    requires
                        t == 0,
                ;
            }
        }
        while k < self.win
            invariant
                1 <= k <= m.win,
                ni == i + (k - 1) * di,
                nj == j + (k - 1) * dj,
                m.win <= MAX_HASH_CELLS as int,
                first == m.cells[i as int][j as int],
                first is Some,
                forall|t: int| #![trigger t * di, t * dj]
                    0 <= t < k ==> m.cells[i + t * di][j + t * dj] == m.cells[i as int][j as int],
            decreases m.win - k,
        {
            proof {
                assert((k - 1) * di + di == k * di) by (nonlinear_arith);
                assert((k - 1) * dj + dj == k * dj) by (nonlinear_arith);
            }
            ni = ni + di;
            nj = nj + dj;
            let curr = self.symbol_at(ni, nj);
            let same = match (curr, first) {
                (Some(a), Some(b)) => a == b,
                (None, None) => true,
                _ => false,
            };
            if !same {
                proof {
                    assert(m.cells[i + k as int * di][j + k as int * dj] != m.cells[i as int][j
                        as int]);
                }
                return false;
            }
            k = k + 1;
        }
        true
    }

    /// Checks every row for a run of `win` equal marks.
    #[verifier::loop_isolation(false)]
    fn horizontal_win(&self) -> (r: bool)
        requires
            self.inv(),
        ensures
            r == has_horizontal_win(self.model()),
    {
        let ghost m = self.model();
        let mut i: i32 = 0;
        while i < self.height
            invariant
                0 <= i <= m.height,
                forall|a: int, b: int| #![trigger run_of(m, a, b, 0, 1)]
                    0 <= a < i && 0 <= b && b + m.win <= m.width ==> !run_of(m, a, b, 0, 1),
            decreases m.height - i,
        {
            let mut j: i32 = 0;
            while j <= self.width - self.win
                invariant
                    0 <= i < m.height,
                    0 <= j <= m.width,
                    forall|b: int| #![trigger run_of(m, i as int, b, 0, 1)]
                        0 <= b < j ==> !run_of(m, i as int, b, 0, 1),
                decreases m.width - j,
            {
                proof {
                    assert(m.width <= m.height * m.width) by (nonlinear_arith)
                        requires
                            1 <= m.width,
                            1 <= m.height,
                    ;
                }
                if self.check_run_from(i, j, 0, 1) {
                    return true;
                }
                j = j + 1;
            }
            i = i + 1;
        }
        false
    }

    /// Checks every column for a run of `win` equal marks.
    #[verifier::loop_isolation(false)]
    fn vertical_win(&self) -> (r: bool)
        requires
            self.inv(),
        ensures
            r == has_vertical_win(self.model()),
    {
        let ghost m = self.model();
        let mut j: i32 = 0;
        while j < self.width
            invariant
                0 <= j <= m.width,
                forall|a: int, b: int| #![trigger run_of(m, a, b, 1, 0)]
                    0 <= a && a + m.win <= m.height && 0 <= b < j ==> !run_of(m, a, b, 1, 0),
            decreases m.width - j,
        {
            let mut i: i32 = 0;
            while i <= self.height - self.win
                invariant
                    0 <= j < m.width,
                    0 <= i <= m.height,
                    forall|a: int| #![trigger run_of(m, a, j as int, 1, 0)]
                        0 <= a < i ==> !run_of(m, a, j as int, 1, 0),
                decreases m.height - i,
            {
                proof {
                    assert(m.height <= m.height * m.width) by (nonlinear_arith)
                        requires
                            1 <= m.width,
                            1 <= m.height,
                    ;
                }
                if self.check_run_from(i, j, 1, 0) {
                    return true;
                }
                i = i + 1;
            }
            j = j + 1;
        }
        false
    }

    /// Checks every diagonal, in both directions, for a run of `win` equal
    /// marks.
    #[verifier::loop_isolation(false)]
    fn diagonal_win(&self) -> (r: bool)
        requires
            self.inv(),
        ensures
            r == has_diagonal_win(self.model()),
    {
        let ghost m = self.model();
        let mut i: i32 = 0;
        while i <= self.height - self.win
            invariant
                0 <= i <= m.height,
                forall|a: int, b: int| #![trigger run_of(m, a, b, 1, 1)]
                    0 <= a < i && 0 <= b && b + m.win <= m.width ==> !run_of(m, a, b, 1, 1),
            decreases m.height - i,
        {
            let mut j: i32 = 0;
            while j <= self.width - self.win
                invariant
                    0 <= i < m.height,
                    0 <= j <= m.width,
                    forall|b: int| #![trigger run_of(m, i as int, b, 1, 1)]
                        0 <= b < j ==> !run_of(m, i as int, b, 1, 1),
                decreases m.width - j,
            {
                proof {
                    assert(m.width <= m.height * m.width) by (nonlinear_arith)
                        requires
                            1 <= m.width,
                            1 <= m.height,
                    ;
                }
                if self.check_run_from(i, j, 1, 1) {
                    return true;
                }
                j = j + 1;
            }
            i = i + 1;
        }
        let mut i2: i32 = 0;
        while i2 <= self.height - self.win
            invariant
                0 <= i2 <= m.height,
                forall|a: int, b: int| #![trigger run_of(m, a, b, 1, 1)]
                    0 <= a && a + m.win <= m.height && 0 <= b && b + m.win <= m.width
                        ==> !run_of(m, a, b, 1, 1),
                forall|a: int, b: int| #![trigger run_of(m, a, b, 1, -1)]
                    0 <= a < i2 && m.win - 1 <= b < m.width ==> !run_of(m, a, b, 1, -1),
            decreases m.height - i2,
        {
            let mut j: i32 = self.win - 1;
            while j < self.width
                invariant
                    0 <= i2 < m.height,
                    m.win - 1 <= j,
                    j <= m.width || j == m.win - 1,
                    forall|b: int| #![trigger run_of(m, i2 as int, b, 1, -1)]
                        m.win - 1 <= b < j ==> !run_of(m, i2 as int, b, 1, -1),
                decreases m.width - j,
            {
                proof {
                    assert(m.height <= m.height * m.width) by (nonlinear_arith)
                        requires
                            1 <= m.width,
                            1 <= m.height,
                    ;
                }
                if self.check_run_from(i2, j, 1, -1) {
                    return true;
                }
                j = j + 1;
            }
            i2 = i2 + 1;
        }
        false
    }

    /// The terminal status of the board, as `board_outcome` specifies.
    #[verifier::loop_isolation(false)]
    pub fn outcome(&self) -> (r: Option<Outcome>)
        requires
            self.inv(),
        ensures
            r == board_outcome(self.model()),
    {
        let ghost m = self.model();
        if self.horizontal_win() || self.vertical_win() || self.diagonal_win() {
            return Some(Outcome::Loss(0));
        }
        let mut i: i32 = 0;
        while i < self.height
            invariant
                0 <= i <= m.height,
                forall|a: int, b: int| #![auto]
                    0 <= a < i && 0 <= b < m.width ==> m.cells[a][b] is Some,
            decreases m.height - i,
        {
            let mut j: i32 = 0;
            while j < self.width
                invariant
                    0 <= i < m.height,
                    0 <= j <= m.width,
                    forall|b: int| #![auto] 0 <= b < j ==> m.cells[i as int][b] is Some,
                decreases m.width - j,
            {
                if self.symbol_at(i, j).is_none() {
                    return None;
                }
                j = j + 1;
            }
            i = i + 1;
        }
        Some(Outcome::Tie(0))
    }
}

/// The eight symmetry transforms of a square board, in the order they are
/// enumerated: all rotations without a reflection first, then all rotations
/// after one reflection.
pub open spec fn square_candidates(m: BoardModel) -> Seq<BoardModel> {
    Seq::new(8, |t: int| s_transform((t / 4) as nat, (t % 4) as nat, m))
}

/// The reflection count of the `t`-th non-square symmetry transform.
pub open spec fn rect_f(t: int) -> nat {
    if t == 1 || t == 2 {
        1
    } else {
        0
    }
}

/// The rotation count of the `t`-th non-square symmetry transform.
pub open spec fn rect_r(t: int) -> nat {
    if t == 2 || t == 3 {
        2
    } else {
        0
    }
}

/// The `t`-th symmetry transform valid for a non-square board: identity,
/// horizontal-axis reflection, reflection-then-half-turn, and half-turn.
pub open spec fn rect_candidate(t: int, m: BoardModel) -> BoardModel {
    s_transform(rect_f(t), rect_r(t), m)
}

/// The four symmetry transforms of a non-square board (which is not closed
/// under quarter-turns), in enumeration order.
pub open spec fn rect_candidates(m: BoardModel) -> Seq<BoardModel> {
    Seq::new(4, |t: int| rect_candidate(t, m))
}

/// Every transform of the symmetry group valid for the board's shape.
pub open spec fn candidates(m: BoardModel) -> Seq<BoardModel> {
    if m.height == m.width {
        square_candidates(m)
    } else {
        rect_candidates(m)
    }
}

/// Scans the remaining candidates in order, replacing the running best
/// whenever a strictly larger hash appears.
pub open spec fn pick_best(cands: Seq<BoardModel>, best: BoardModel, best_hash: int) -> BoardModel
    decreases cands.len(),
{
    if cands.len() == 0 {
        best
    } else {
        let first = cands[0];
        if board_hash(first) > best_hash {
            pick_best(cands.drop_first(), first, board_hash(first))
        } else {
            pick_best(cands.drop_first(), best, best_hash)
        }
    }
}

/// The canonical form of a board: the first symmetry transform of maximal
/// hash in enumeration order.
pub open spec fn canonical_of(m: BoardModel) -> BoardModel {
    pick_best(candidates(m), m, 0)
}

impl Board {
    /// The representative of this board under the symmetry group valid for
    /// its shape: the transform with maximal hash.
    #[verifier::loop_isolation(false)]
    pub fn canonical(&self) -> (c: Board)
        requires
            self.inv(),
        ensures
            c.inv(),
            c.model() == canonical_of(self.model()),
    {
        let ghost m = self.model();
        let ghost cands = candidates(m);
        let square = self.height == self.width;
        let n: i32 = if square {
            8
        } else {
            4
        };
        let mut canon = self.snapshot();
        let mut max_hash: i32 = 0;
        proof {
            assert(cands.skip(0) =~= cands);
            assert(s_transform(0, 0, m) == m);
        }
        let mut t: i32 = 0;
        while t < n
            invariant
                0 <= t <= n,
                n == cands.len(),
                canon.inv(),
                0 <= max_hash,
                pick_best(cands.skip(t as int), canon.model(), max_hash as int) == canonical_of(
                    m,
                ),
            decreases n - t,
        {
            let f: i32;
            let r: i32;
            if square {
                f = t / 4;
                r = t % 4;
            } else if t == 0 {
                f = 0;
                r = 0;
            } else if t == 1 {
                f = 1;
                r = 0;
            } else if t == 2 {
                f = 1;
                r = 2;
            } else {
                f = 0;
                r = 2;
            }
            let mut cand = self.snapshot();
            cand.transform(f, r);
            proof {
                assert(cands[t as int] == cand.model());
                assert(cands.skip(t as int).drop_first() =~= cands.skip(t + 1));
                assert(cands.skip(t as int)[0] == cands[t as int]);
            }
            let h = cand.hash();
            if h > max_hash {
                max_hash = h;
                canon = cand;
            }
            t = t + 1;
        }
        proof {
            assert(cands.skip(n as int) =~= Seq::<BoardModel>::empty());
        }
        canon
    }
}

/// The model of an empty board.
pub open spec fn empty_board(h: int, w: int, win: int) -> BoardModel {
    BoardModel {
        cells: Seq::new(h as nat, |i: int| Seq::new(w as nat, |j: int| None::<bool>)),
        height: h,
        width: w,
        win: win,
    }
}

/// The model with one cell replaced.
pub open spec fn board_set(m: BoardModel, i: int, j: int, c: Option<bool>) -> BoardModel {
    BoardModel {
        cells: m.cells.update(i, m.cells[i].update(j, c)),
        height: m.height,
        width: m.width,
        win: m.win,
    }
}

pub proof fn lemma_flip_wf(m: BoardModel)
    requires
        board_wf(m),
    ensures
        board_wf(s_flip(m)),
        s_flip(m).height == m.height,
        s_flip(m).width == m.width,
        s_flip(m).win == m.win,
{
    assert forall|i: int| 0 <= i < m.height implies (#[trigger] s_flip(m).cells[i]).len()
        == m.width by {
        assert(s_flip(m).cells[i] == m.cells[m.height - 1 - i]);
    }
}

pub proof fn lemma_rot_wf(m: BoardModel)
    requires
        board_wf(m),
    ensures
        board_wf(s_rot(m)),
        s_rot(m).height == m.width,
        s_rot(m).width == m.height,
        s_rot(m).win == m.win,
{
    assert(m.width * m.height == m.height * m.width) by (nonlinear_arith);
}

pub proof fn lemma_flip_n_wf(n: nat, m: BoardModel)
    requires
        board_wf(m),
    ensures
        board_wf(s_flip_n(n, m)),
        s_flip_n(n, m).height == m.height,
        s_flip_n(n, m).width == m.width,
        s_flip_n(n, m).win == m.win,
    decreases n,
{
    if n > 0 {
        lemma_flip_n_wf((n - 1) as nat, m);
        lemma_flip_wf(s_flip_n((n - 1) as nat, m));
    }
}

pub proof fn lemma_rot_n_wf(n: nat, m: BoardModel)
    requires
        board_wf(m),
    ensures
        board_wf(s_rot_n(n, m)),
        s_rot_n(n, m).win == m.win,
        n % 2 == 0 ==> s_rot_n(n, m).height == m.height && s_rot_n(n, m).width == m.width,
        n % 2 == 1 ==> s_rot_n(n, m).height == m.width && s_rot_n(n, m).width == m.height,
    decreases n,
{
    if n > 0 {
        lemma_rot_n_wf((n - 1) as nat, m);
        lemma_rot_wf(s_rot_n((n - 1) as nat, m));
    }
}

pub proof fn lemma_transform_wf(f: nat, r: nat, m: BoardModel)
    requires
        board_wf(m),
    ensures
        board_wf(s_transform(f, r, m)),
        s_transform(f, r, m).win == m.win,
        r % 2 == 0 ==> s_transform(f, r, m).height == m.height && s_transform(f, r, m).width
            == m.width,
        r % 2 == 1 ==> s_transform(f, r, m).height == m.width && s_transform(f, r, m).width
            == m.height,
{
    lemma_flip_n_wf(f, m);
    lemma_rot_n_wf(r, s_flip_n(f, m));
}

/// Two reflections cancel.
pub proof fn lemma_flip_flip(m: BoardModel)
    requires
        board_wf(m),
    ensures
        s_flip(s_flip(m)) == m,
{
    let m2 = s_flip(s_flip(m));
    assert forall|i: int| 0 <= i < m.height implies #[trigger] m2.cells[i] == m.cells[i] by {
        assert(s_flip(m).cells[m.height - 1 - i] == m.cells[i]);
    }
    assert(m2.cells =~= m.cells);
}

/// A half-turn reverses both coordinates.
pub proof fn lemma_rot2_cells(m: BoardModel)
    requires
        board_wf(m),
    ensures
        s_rot_n(2, m).height == m.height,
        s_rot_n(2, m).width == m.width,
        s_rot_n(2, m).win == m.win,
        forall|i: int, j: int| #![auto]
            0 <= i < m.height && 0 <= j < m.width ==> s_rot_n(2, m).cells[i][j] == m.cells[m.height
                - 1 - i][m.width - 1 - j],
{
    let m1 = s_rot(m);
    lemma_rot_wf(m);
    assert(s_rot_n(0, m) == m);
    assert(s_rot_n(1, m) == s_rot(m));
    assert(s_rot_n(2, m) == s_rot(s_rot(m)));
    assert forall|i: int, j: int|
        0 <= i < m.height && 0 <= j < m.width implies #[trigger] s_rot(m1).cells[i][j]
        == m.cells[m.height - 1 - i][m.width - 1 - j] by {
        assert(s_rot(m1).cells[i][j] == m1.cells[m1.height - 1 - j][i]);
        assert(m1.cells[m.width - 1 - j][i] == m.cells[m.height - 1 - i][m.width - 1 - j]);
    }
}

/// Four quarter-turns cancel.
pub proof fn lemma_rot4(m: BoardModel)
    requires
        board_wf(m),
    ensures
        s_rot_n(4, m) == m,
{
    let m2 = s_rot_n(2, m);
    lemma_rot2_cells(m);
    lemma_rot_n_wf(2, m);
    lemma_rot2_cells(m2);
    lemma_rotn_add(2, 2, m);
    let m4 = s_rot_n(2, m2);
    assert(s_rot_n(4, m) == m4);
    assert forall|i: int| 0 <= i < m.height implies #[trigger] m4.cells[i] =~= m.cells[i] by {
        assert(m4.cells[i].len() == m.width);
        assert forall|j: int| 0 <= j < m.width implies #[trigger] m4.cells[i][j]
            == m.cells[i][j] by {
            assert(m4.cells[i][j] == m2.cells[m.height - 1 - i][m.width - 1 - j]);
            assert(m2.cells[m.height - 1 - i][m.width - 1 - j] == m.cells[i][j]);
        }
    }
    assert(m4.cells =~~= m.cells);
}

/// Rotations compose additively.
pub proof fn lemma_rotn_add(a: nat, b: nat, m: BoardModel)
    ensures
        s_rot_n(a, s_rot_n(b, m)) == s_rot_n(a + b, m),
    decreases a,
{
    if a > 0 {
        lemma_rotn_add((a - 1) as nat, b, m);
    }
}

/// Rotation counts only matter modulo 4.
pub proof fn lemma_rotn_mod(n: nat, m: BoardModel)
    requires
        board_wf(m),
    ensures
        s_rot_n(n, m) == s_rot_n((n % 4) as nat, m),
    decreases n,
{
    if n >= 4 {
        lemma_rot4(m);
        lemma_rotn_add((n - 4) as nat, 4, m);
        lemma_rotn_mod((n - 4) as nat, m);
        assert((n - 4) % 4 == n % 4) by (nonlinear_arith);
    }
}

/// A reflection after a quarter-turn equals three quarter-turns after a
/// reflection.
pub proof fn lemma_flip_rot(m: BoardModel)
    requires
        board_wf(m),
    ensures
        s_flip(s_rot(m)) == s_rot_n(3, s_flip(m)),
{
    let lhs = s_flip(s_rot(m));
    let f = s_flip(m);
    lemma_flip_wf(m);
    lemma_rot_wf(m);
    lemma_rot_n_wf(2, f);
    lemma_rot2_cells(f);
    let f2 = s_rot_n(2, f);
    assert(s_rot_n(3, f) == s_rot(s_rot_n(2, f)));
    let rhs = s_rot(f2);
    assert(lhs.height == m.width && lhs.width == m.height);
    assert(rhs.height == m.width && rhs.width == m.height);
    assert forall|i: int| 0 <= i < m.width implies #[trigger] lhs.cells[i] =~= rhs.cells[i] by {
        assert(lhs.cells[i] == s_rot(m).cells[m.width - 1 - i]);
        assert forall|j: int| 0 <= j < m.height implies #[trigger] lhs.cells[i][j]
            == rhs.cells[i][j] by {
            assert(lhs.cells[i][j] == s_rot(m).cells[m.width - 1 - i][j]);
            assert(s_rot(m).cells[m.width - 1 - i][j] == m.cells[m.height - 1 - j][m.width - 1
                - i]);
            assert(rhs.cells[i][j] == f2.cells[f2.height - 1 - j][i]);
            assert(f2.cells[m.height - 1 - j][i] == f.cells[j][m.width - 1 - i]);
            assert(f.cells[j][m.width - 1 - i] == m.cells[m.height - 1 - j][m.width - 1 - i]);
        }
    }
    assert(lhs.cells =~~= rhs.cells);
}

/// A reflection after `n` quarter-turns equals `3 n` quarter-turns after a
/// reflection.
pub proof fn lemma_flip_rotn(n: nat, m: BoardModel)
    requires
        board_wf(m),
    ensures
        s_flip(s_rot_n(n, m)) == s_rot_n(3 * n, s_flip(m)),
    decreases n,
{
    if n > 0 {
        lemma_flip_rotn((n - 1) as nat, m);
        lemma_rot_n_wf((n - 1) as nat, m);
        lemma_flip_rot(s_rot_n((n - 1) as nat, m));
        assert(s_rot_n(n, m) == s_rot(s_rot_n((n - 1) as nat, m)));
        lemma_rotn_add(3, (3 * (n - 1)) as nat, s_flip(m));
        assert(3 + 3 * (n - 1) == 3 * n) by (nonlinear_arith);
    }
}

/// The reflection count of a composition of two symmetry transforms.
pub open spec fn comp_f(f1: nat, f2: nat) -> nat {
    ((f1 + f2) % 2) as nat
}

/// The rotation count of a composition of two symmetry transforms.
pub open spec fn comp_r(r1: nat, r2: nat, f2: nat) -> nat {
    if f2 == 0 {
        ((r1 + r2) % 4) as nat
    } else {
        ((r2 + 3 * r1) % 4) as nat
    }
}

/// The symmetry transforms are closed under composition: applying
/// `(f2, r2)` after `(f1, r1)` is one transform again.
pub proof fn lemma_compose(f1: nat, r1: nat, f2: nat, r2: nat, m: BoardModel)
    requires
        board_wf(m),
        f1 <= 1,
        f2 <= 1,
    ensures
        s_transform(f2, r2, s_transform(f1, r1, m)) == s_transform(
            comp_f(f1, f2),
            comp_r(r1, r2, f2),
            m,
        ),
{
    let x = s_transform(f1, r1, m);
    let ff1 = s_flip_n(f1, m);
    lemma_flip_n_wf(f1, m);
    lemma_rot_n_wf(r1, ff1);
    if f2 == 0 {
        assert(s_flip_n(0, x) == x);
        lemma_rotn_add(r2, r1, ff1);
        lemma_rotn_mod(r1 + r2, ff1);
        assert(comp_f(f1, 0) == f1);
    } else {
        assert(s_flip_n(0, x) == x);
        assert(s_flip_n(1, x) == s_flip(s_flip_n(0, x)));
        lemma_flip_rotn(r1, ff1);
        assert(s_flip(x) == s_rot_n(3 * r1, s_flip(ff1)));
        if f1 == 0 {
            assert(s_flip(ff1) == s_flip_n(1, m));
        } else {
            assert(ff1 == s_flip(s_flip_n(0, m)));
            lemma_flip_flip(m);
            assert(s_flip(ff1) == s_flip_n(0, m));
        }
        let fc = s_flip_n(comp_f(f1, 1), m);
        assert(s_flip(x) == s_rot_n(3 * r1, fc));
        lemma_rotn_add(r2, 3 * r1, fc);
        lemma_flip_n_wf(comp_f(f1, 1), m);
        lemma_rotn_mod(r2 + 3 * r1, fc);
    }
}

/// Every symmetry transform has an inverse among the transforms.
pub proof fn lemma_inverse(f: nat, r: nat, m: BoardModel)
    requires
        board_wf(m),
        f <= 1,
        r <= 3,
    ensures
        f == 0 ==> s_transform(0, ((4 - r) % 4) as nat, s_transform(f, r, m)) == m,
        f == 1 ==> s_transform(1, r, s_transform(f, r, m)) == m,
{
    if f == 0 {
        lemma_compose(0, r, 0, ((4 - r) % 4) as nat, m);
        assert(comp_r(r, ((4 - r) % 4) as nat, 0) == 0);
        assert(s_transform(0, 0, m) == m);
    } else {
        lemma_compose(1, r, 1, r, m);
        assert((r + 3 * r) % 4 == 0) by (nonlinear_arith)
            requires
                r <= 3,
        ;
        assert(s_transform(0, 0, m) == m);
    }
}

/// Equal hashes of the first `k` cells force equal cells, digit by digit:
/// the hash is a base-3 numeral.
pub proof fn lemma_hash_upto_inj(m1: BoardModel, m2: BoardModel, k: nat)
    requires
        hash_upto(m1, k) == hash_upto(m2, k),
    ensures
        forall|c: int| 0 <= c < k ==> #[trigger] cell_at(m1, c) == cell_at(m2, c),
    decreases k,
{
    if k > 0 {
        let p = pow3((k - 1) as nat);
        let a1 = cell_code(cell_at(m1, k - 1));
        let a2 = cell_code(cell_at(m2, k - 1));
        let s1 = hash_upto(m1, (k - 1) as nat);
        let s2 = hash_upto(m2, (k - 1) as nat);
        lemma_hash_upto_bounds(m1, (k - 1) as nat);
        lemma_hash_upto_bounds(m2, (k - 1) as nat);
        lemma_pow3_pos((k - 1) as nat);
        assert(a1 == a2 && s1 == s2) by (nonlinear_arith)
            requires
                s1 + a1 * p == s2 + a2 * p,
                0 <= s1 < p,
                0 <= s2 < p,
                0 <= a1 <= 2,
                0 <= a2 <= 2,
        ;
        assert(cell_at(m1, k - 1) == cell_at(m2, k - 1)) by {
            let c1 = cell_at(m1, k - 1);
            let c2 = cell_at(m2, k - 1);
            match c1 {
                None => {
                    assert(cell_code(c2) == 0);
                },
                Some(true) => {
                    assert(cell_code(c2) == 1);
                },
                Some(false) => {
                    assert(cell_code(c2) == 2);
                },
            }
        }
        lemma_hash_upto_inj(m1, m2, (k - 1) as nat);
    }
}

/// The hash is injective on well-formed boards of equal dimensions.
pub proof fn lemma_hash_injective(m1: BoardModel, m2: BoardModel)
    requires
        board_wf(m1),
        board_wf(m2),
        m1.height == m2.height,
        m1.width == m2.width,
        m1.win == m2.win,
        board_hash(m1) == board_hash(m2),
    ensures
        m1 == m2,
{
    lemma_hash_upto_inj(m1, m2, (m1.height * m1.width) as nat);
    assert forall|i: int| 0 <= i < m1.height implies #[trigger] m1.cells[i] =~= m2.cells[i] by {
        assert(m1.cells[i].len() == m1.width);
        assert(m2.cells[i].len() == m1.width);
        assert forall|j: int| 0 <= j < m1.width implies #[trigger] m1.cells[i][j]
            == m2.cells[i][j] by {
            lemma_flat_index(i, j, m1.width);
            assert(0 <= i * m1.width + j < m1.height * m1.width) by (nonlinear_arith)
                requires
                    0 <= i < m1.height,
                    0 <= j < m1.width,
                    1 <= m1.width,
            ;
            assert(cell_at(m1, i * m1.width + j) == cell_at(m2, i * m1.width + j));
            assert(cell_at(m1, i * m1.width + j) == m1.cells[i][j]);
            assert(cell_at(m2, i * m1.width + j) == m2.cells[i][j]);
        }
    }
    assert(m1.cells =~~= m2.cells);
}

/// What scanning for the maximal hash yields: either no candidate beat the
/// running best, or the result is a candidate at least as large as every
/// candidate and the running maximum.
pub proof fn lemma_pick_best_props(cands: Seq<BoardModel>, best: BoardModel, bh: int)
    ensures
        ({
            let res = pick_best(cands, best, bh);
            ||| (res == best && forall|i: int|
                0 <= i < cands.len() ==> board_hash(#[trigger] cands[i]) <= bh)
            ||| (cands.contains(res) && board_hash(res) > bh && forall|i: int|
                0 <= i < cands.len() ==> board_hash(#[trigger] cands[i]) <= board_hash(res))
        }),
    decreases cands.len(),
{
    if cands.len() > 0 {
        let first = cands[0];
        let rest = cands.drop_first();
        let res = pick_best(cands, best, bh);
        assert(forall|i: int| 0 <= i < rest.len() ==> #[trigger] rest[i] == cands[i + 1]);
        if board_hash(first) > bh {
            lemma_pick_best_props(rest, first, board_hash(first));
            assert(res == pick_best(rest, first, board_hash(first)));
            if res == first && forall|i: int|
                0 <= i < rest.len() ==> board_hash(#[trigger] rest[i]) <= board_hash(first) {
                assert(cands.contains(res)) by {
                    assert(cands[0] == res);
                }
                assert forall|i: int| 0 <= i < cands.len() implies board_hash(#[trigger] cands[i])
                    <= board_hash(res) by {
                    if i > 0 {
                        assert(cands[i] == rest[i - 1]);
                    }
                }
            } else {
                assert(rest.contains(res) && board_hash(res) > board_hash(first));
                let w = choose|w: int| 0 <= w < rest.len() && rest[w] == res;
                assert(cands[w + 1] == res);
                assert(cands.contains(res));
                assert forall|i: int| 0 <= i < cands.len() implies board_hash(#[trigger] cands[i])
                    <= board_hash(res) by {
                    if i > 0 {
                        assert(cands[i] == rest[i - 1]);
                    }
                }
            }
        } else {
            lemma_pick_best_props(rest, best, bh);
            assert(res == pick_best(rest, best, bh));
            if res == best && forall|i: int|
                0 <= i < rest.len() ==> board_hash(#[trigger] rest[i]) <= bh {
                assert forall|i: int| 0 <= i < cands.len() implies board_hash(#[trigger] cands[i])
                    <= bh by {
                    if i > 0 {
                        assert(cands[i] == rest[i - 1]);
                    }
                }
            } else {
                assert(rest.contains(res) && board_hash(res) > bh);
                let w = choose|w: int| 0 <= w < rest.len() && rest[w] == res;
                assert(cands[w + 1] == res);
                assert(cands.contains(res));
                assert forall|i: int| 0 <= i < cands.len() implies board_hash(#[trigger] cands[i])
                    <= board_hash(res) by {
                    if i > 0 {
                        assert(cands[i] == rest[i - 1]);
                    }
                }
            }
        }
    }
}

/// The canonical form is itself a symmetry transform of the board, and its
/// hash is maximal among all of them.
pub proof fn lemma_canonical_props(m: BoardModel)
    requires
        board_wf(m),
    ensures
        candidates(m).contains(canonical_of(m)),
        forall|i: int|
            0 <= i < candidates(m).len() ==> board_hash(#[trigger] candidates(m)[i]) <= board_hash(
                canonical_of(m),
            ),
{
    let cands = candidates(m);
    assert(s_flip_n(0, m) == m);
    assert(s_rot_n(0, m) == m);
    assert(s_transform(0, 0, m) == m);
    assert(cands[0] == m);
    lemma_pick_best_props(cands, m, 0);
    let res = canonical_of(m);
    lemma_hash_upto_bounds(m, (m.height * m.width) as nat);
    if res == m && forall|i: int| 0 <= i < cands.len() ==> board_hash(#[trigger] cands[i]) <= 0 {
        assert(cands.contains(res)) by {
            assert(cands[0] == res);
        }
        assert(board_hash(res) >= 0);
    }
}

/// Canonicalization preserves well-formedness, the dimensions and the win
/// length.
pub proof fn lemma_canonical_wf(m: BoardModel)
    requires
        board_wf(m),
    ensures
        board_wf(canonical_of(m)),
        canonical_of(m).height == m.height,
        canonical_of(m).width == m.width,
        canonical_of(m).win == m.win,
{
    lemma_canonical_props(m);
    let cands = candidates(m);
    let res = canonical_of(m);
    let i = choose|i: int| 0 <= i < cands.len() && cands[i] == res;
    if m.height == m.width {
        assert(cands[i] == s_transform((i / 4) as nat, (i % 4) as nat, m));
        lemma_transform_wf((i / 4) as nat, (i % 4) as nat, m);
    } else {
        assert(cands[i] == rect_candidate(i, m));
        lemma_transform_wf(rect_f(i), rect_r(i), m);
        assert(rect_r(i) % 2 == 0);
    }
}

/// Canonicalizing any symmetry transform of a square board gives the same
/// representative as canonicalizing the board itself.
pub proof fn lemma_canonical_symmetric_sq(m: BoardModel, f: nat, r: nat)
    requires
        board_wf(m),
        m.height == m.width,
        f <= 1,
        r <= 3,
    ensures
        canonical_of(s_transform(f, r, m)) == canonical_of(m),
{
    let m2 = s_transform(f, r, m);
    lemma_transform_wf(f, r, m);
    assert(m2.height == m2.width);
    lemma_canonical_props(m);
    lemma_canonical_props(m2);
    lemma_canonical_wf(m);
    lemma_canonical_wf(m2);
    let c1 = canonical_of(m);
    let c2 = canonical_of(m2);
    let cands1 = candidates(m);
    let cands2 = candidates(m2);
    // c2 is a transform of m2, hence of m, hence bounded by c1's hash.
    let i2 = choose|i: int| 0 <= i < cands2.len() && cands2[i] == c2;
    assert(cands2[i2] == s_transform((i2 / 4) as nat, (i2 % 4) as nat, m2));
    lemma_compose(f, r, (i2 / 4) as nat, (i2 % 4) as nat, m);
    let f3 = comp_f(f, (i2 / 4) as nat);
    let r3 = comp_r(r, (i2 % 4) as nat, (i2 / 4) as nat);
    assert(c2 == s_transform(f3, r3, m));
    assert(f3 <= 1 && r3 <= 3);
    let idx3: int = f3 * 4 + r3 as int;
    assert(0 <= idx3 < 8);
    assert(idx3 / 4 == f3 && idx3 % 4 == r3) by (nonlinear_arith)
        requires
            idx3 == f3 * 4 + r3,
            0 <= f3 <= 1,
            0 <= r3 <= 3,
    ;
    assert(cands1[idx3] == s_transform(f3, r3, m));
    assert(board_hash(c2) <= board_hash(c1));
    // m is the inverse transform of m2, so c1 is a transform of m2 too.
    lemma_inverse(f, r, m);
    let fi: nat = f;
    let ri: nat = if f == 0 {
        ((4 - r) % 4) as nat
    } else {
        r
    };
    assert(s_transform(fi, ri, m2) == m);
    let i1 = choose|i: int| 0 <= i < cands1.len() && cands1[i] == c1;
    assert(cands1[i1] == s_transform((i1 / 4) as nat, (i1 % 4) as nat, m));
    lemma_compose(fi, ri, (i1 / 4) as nat, (i1 % 4) as nat, m2);
    let f4 = comp_f(fi, (i1 / 4) as nat);
    let r4 = comp_r(ri, (i1 % 4) as nat, (i1 / 4) as nat);
    assert(c1 == s_transform(f4, r4, m2));
    let idx4: int = f4 * 4 + r4 as int;
    assert(0 <= idx4 < 8);
    assert(idx4 / 4 == f4 && idx4 % 4 == r4) by (nonlinear_arith)
        requires
            idx4 == f4 * 4 + r4,
            0 <= f4 <= 1,
            0 <= r4 <= 3,
    ;
    assert(cands2[idx4] == s_transform(f4, r4, m2));
    assert(board_hash(c1) <= board_hash(c2));
    lemma_hash_injective(c1, c2);
}

/// Canonicalizing any symmetry transform of a non-square board gives the
/// same representative as canonicalizing the board itself.
pub proof fn lemma_canonical_symmetric_rect(m: BoardModel, t: int)
    requires
        board_wf(m),
        m.height != m.width,
        0 <= t < 4,
    ensures
        canonical_of(rect_candidate(t, m)) == canonical_of(m),
{
    let f = rect_f(t);
    let r = rect_r(t);
    let m2 = rect_candidate(t, m);
    lemma_transform_wf(f, r, m);
    assert(m2.height == m.height && m2.width == m.width);
    lemma_canonical_props(m);
    lemma_canonical_props(m2);
    lemma_canonical_wf(m);
    lemma_canonical_wf(m2);
    let c1 = canonical_of(m);
    let c2 = canonical_of(m2);
    let cands1 = candidates(m);
    let cands2 = candidates(m2);
    let i2 = choose|i: int| 0 <= i < cands2.len() && cands2[i] == c2;
    assert(cands2[i2] == s_transform(rect_f(i2), rect_r(i2), m2));
    lemma_compose(f, r, rect_f(i2), rect_r(i2), m);
    let f3 = comp_f(f, rect_f(i2));
    let r3 = comp_r(r, rect_r(i2), rect_f(i2));
    assert(c2 == s_transform(f3, r3, m));
    assert(f3 <= 1 && (r3 == 0 || r3 == 2));
    let t3: int = if f3 == 0 && r3 == 0 {
        0
    } else if f3 == 1 && r3 == 0 {
        1
    } else if f3 == 1 {
        2
    } else {
        3
    };
    assert(rect_f(t3) == f3 && rect_r(t3) == r3);
    assert(cands1[t3] == s_transform(f3, r3, m));
    assert(board_hash(c2) <= board_hash(c1));
    // Every transform in the non-square group is its own inverse.
    lemma_inverse(f, r, m);
    assert(s_transform(f, r, m2) == m);
    let i1 = choose|i: int| 0 <= i < cands1.len() && cands1[i] == c1;
    assert(cands1[i1] == s_transform(rect_f(i1), rect_r(i1), m));
    lemma_compose(f, r, rect_f(i1), rect_r(i1), m2);
    let f4 = comp_f(f, rect_f(i1));
    let r4 = comp_r(f, rect_r(i1), rect_f(i1));
    assert(c1 == s_transform(comp_f(f, rect_f(i1)), comp_r(r, rect_r(i1), rect_f(i1)), m2));
    let f5 = comp_f(f, rect_f(i1));
    let r5 = comp_r(r, rect_r(i1), rect_f(i1));
    assert(f5 <= 1 && (r5 == 0 || r5 == 2));
    let t4: int = if f5 == 0 && r5 == 0 {
        0
    } else if f5 == 1 && r5 == 0 {
        1
    } else if f5 == 1 {
        2
    } else {
        3
    };
    assert(rect_f(t4) == f5 && rect_r(t4) == r5);
    assert(cands2[t4] == s_transform(f5, r5, m2));
    assert(board_hash(c1) <= board_hash(c2));
    lemma_hash_injective(c1, c2);
}

/// Canonicalization is idempotent: the canonical form is its own
/// representative.
pub proof fn lemma_canonical_idempotent(m: BoardModel)
    requires
        board_wf(m),
    ensures
        canonical_of(canonical_of(m)) == canonical_of(m),
{
    lemma_canonical_props(m);
    let c = canonical_of(m);
    let cands = candidates(m);
    let i = choose|i: int| 0 <= i < cands.len() && cands[i] == c;
    if m.height == m.width {
        assert(cands[i] == s_transform((i / 4) as nat, (i % 4) as nat, m));
        lemma_canonical_symmetric_sq(m, (i / 4) as nat, (i % 4) as nat);
    } else {
        assert(cands[i] == rect_candidate(i, m));
        lemma_canonical_symmetric_rect(m, i);
    }
}

/// A board whose first `k` cells hold no mark has them all empty.
pub proof fn lemma_filled_zero(m: BoardModel, k: nat)
    requires
        filled_upto(m, k) == 0,
    ensures
        forall|c: int| 0 <= c < k ==> #[trigger] cell_at(m, c) is None,
    decreases k,
{
    if k > 0 {
        lemma_filled_upto_bounds(m, (k - 1) as nat);
        lemma_filled_zero(m, (k - 1) as nat);
    }
}

/// A board with a mark among its first `k` cells has a marked cell there.
pub proof fn lemma_filled_pos(m: BoardModel, k: nat)
    requires
        filled_upto(m, k) > 0,
    ensures
        exists|c: int| 0 <= c < k && #[trigger] cell_at(m, c) is Some,
    decreases k,
{
    if k > 0 {
        if cell_at(m, k - 1) is Some {
            assert(0 <= k - 1 < k && cell_at(m, k - 1) is Some);
        } else {
            lemma_filled_pos(m, (k - 1) as nat);
        }
    }
}

/// Reflection commutes with writing a cell.
pub proof fn lemma_flip_set(m: BoardModel, i: int, j: int, v: Option<bool>)
    requires
        board_wf(m),
        0 <= i < m.height,
        0 <= j < m.width,
    ensures
        s_flip(board_set(m, i, j, v)) == board_set(s_flip(m), m.height - 1 - i, j, v),
{
    let lhs = s_flip(board_set(m, i, j, v));
    let rhs = board_set(s_flip(m), m.height - 1 - i, j, v);
    assert forall|r: int| 0 <= r < m.height implies #[trigger] lhs.cells[r] =~= rhs.cells[r] by {
        assert(lhs.cells[r] == board_set(m, i, j, v).cells[m.height - 1 - r]);
        if r == m.height - 1 - i {
            assert(lhs.cells[r] == m.cells[i].update(j, v));
            assert(rhs.cells[r] == s_flip(m).cells[r].update(j, v));
            assert(s_flip(m).cells[r] == m.cells[i]);
        } else {
            assert(lhs.cells[r] == m.cells[m.height - 1 - r]);
            assert(rhs.cells[r] == s_flip(m).cells[r]);
            assert(s_flip(m).cells[r] == m.cells[m.height - 1 - r]);
        }
    }
    assert(lhs.cells =~~= rhs.cells);
}

/// Rotation commutes with writing a cell.
pub proof fn lemma_rot_set(m: BoardModel, i: int, j: int, v: Option<bool>)
    requires
        board_wf(m),
        0 <= i < m.height,
        0 <= j < m.width,
    ensures
        s_rot(board_set(m, i, j, v)) == board_set(s_rot(m), j, m.height - 1 - i, v),
{
    let m2 = board_set(m, i, j, v);
    let lhs = s_rot(m2);
    let rhs = board_set(s_rot(m), j, m.height - 1 - i, v);
    lemma_rot_wf(m);
    assert forall|r: int| 0 <= r < m.width implies #[trigger] lhs.cells[r] =~= rhs.cells[r] by {
        assert(lhs.cells[r].len() == m.height);
        assert(rhs.cells[r].len() == m.height);
        assert forall|c: int| 0 <= c < m.height implies #[trigger] lhs.cells[r][c]
            == rhs.cells[r][c] by {
            assert(lhs.cells[r][c] == m2.cells[m.height - 1 - c][r]);
            if m.height - 1 - c == i {
                assert(m2.cells[i] == m.cells[i].update(j, v));
            } else {
                assert(m2.cells[m.height - 1 - c] == m.cells[m.height - 1 - c]);
            }
            if r == j && c == m.height - 1 - i {
                assert(rhs.cells[j] == s_rot(m).cells[j].update(m.height - 1 - i, v));
            } else {
                if r == j {
                    assert(rhs.cells[r] == s_rot(m).cells[j].update(m.height - 1 - i, v));
                    assert(rhs.cells[r][c] == s_rot(m).cells[r][c]);
                } else {
                    assert(rhs.cells[r] == s_rot(m).cells[r]);
                }
                assert(s_rot(m).cells[r][c] == m.cells[m.height - 1 - c][r]);
            }
        }
    }
    assert(lhs.cells =~~= rhs.cells);
}

/// Reflection preserves the number of marks.
pub proof fn lemma_flip_filled(m: BoardModel)
    requires
        board_wf(m),
    ensures
        board_filled(s_flip(m)) == board_filled(m),
    decreases board_filled(m),
{
    let total = (m.height * m.width) as nat;
    lemma_flip_wf(m);
    lemma_filled_upto_bounds(m, total);
    lemma_filled_upto_bounds(s_flip(m), total);
    if board_filled(m) == 0 {
        lemma_filled_zero(m, total);
        assert forall|c: int| 0 <= c < total implies #[trigger] cell_at(s_flip(m), c) is None by {
            lemma_flat_decode(c, m.height, m.width);
            let i = c / m.width;
            let j = c % m.width;
            assert(cell_at(s_flip(m), c) == m.cells[m.height - 1 - i][j]);
            lemma_flat_index(m.height - 1 - i, j, m.width);
            assert(0 <= (m.height - 1 - i) * m.width + j < m.height * m.width) by (nonlinear_arith)
                requires
                    0 <= m.height - 1 - i < m.height,
                    0 <= j < m.width,
                    1 <= m.width,
            ;
            assert(cell_at(m, (m.height - 1 - i) * m.width + j) is None);
        }
        lemma_filled_none_all(s_flip(m), total);
    } else {
        lemma_filled_pos(m, total);
        let c = choose|c: int| 0 <= c < total && #[trigger] cell_at(m, c) is Some;
        lemma_flat_decode(c, m.height, m.width);
        let i = c / m.width;
        let j = c % m.width;
        vstd::arithmetic::div_mod::lemma_fundamental_div_mod(c, m.width);
        assert(i * m.width == m.width * i) by (nonlinear_arith);
        assert(cell_at(m, c) == m.cells[i][j]);
        let m2 = board_set(m, i, j, None);
        lemma_filled_update(m, i, j, None, total);
        assert(board_filled(m2) == board_filled(m) - 1);
        assert(board_wf(m2)) by {
            assert forall|r: int| 0 <= r < m2.height implies (#[trigger] m2.cells[r]).len()
                == m2.width by {
                if r == i {
                    assert(m2.cells[r] == m.cells[i].update(j, None));
                } else {
                    assert(m2.cells[r] == m.cells[r]);
                }
            }
        }
        lemma_flip_filled(m2);
        lemma_flip_set(m, i, j, None);
        lemma_flip_wf(m2);
        assert(s_flip(m2) == board_set(s_flip(m), m.height - 1 - i, j, None));
        assert(s_flip(m).cells[m.height - 1 - i][j] == m.cells[i][j]);
        assert(0 <= (m.height - 1 - i) * m.width + j < m.height * m.width) by (nonlinear_arith)
            requires
                0 <= m.height - 1 - i < m.height,
                0 <= j < m.width,
                1 <= m.width,
        ;
        lemma_filled_update(s_flip(m), m.height - 1 - i, j, None, total);
        assert(board_filled(s_flip(m2)) == board_filled(s_flip(m)) - 1);
    }
}

/// A board of empty cells has no marks.
pub proof fn lemma_filled_none_all(m: BoardModel, k: nat)
    requires
        forall|c: int| 0 <= c < k ==> #[trigger] cell_at(m, c) is None,
    ensures
        filled_upto(m, k) == 0,
    decreases k,
{
    if k > 0 {
        lemma_filled_none_all(m, (k - 1) as nat);
    }
}

/// Rotation preserves the number of marks.
pub proof fn lemma_rot_filled(m: BoardModel)
    requires
        board_wf(m),
    ensures
        board_filled(s_rot(m)) == board_filled(m),
    decreases board_filled(m),
{
    let total = (m.height * m.width) as nat;
    lemma_rot_wf(m);
    assert(m.width * m.height == m.height * m.width) by (nonlinear_arith);
    lemma_filled_upto_bounds(m, total);
    if board_filled(m) == 0 {
        lemma_filled_zero(m, total);
        assert forall|c: int| 0 <= c < total implies #[trigger] cell_at(s_rot(m), c) is None by {
            lemma_flat_decode(c, m.width, m.height);
            let i = c / m.height;
            let j = c % m.height;
            assert(cell_at(s_rot(m), c) == s_rot(m).cells[i][j]);
            assert(s_rot(m).cells[i][j] == m.cells[m.height - 1 - j][i]);
            lemma_flat_index(m.height - 1 - j, i, m.width);
            assert(0 <= (m.height - 1 - j) * m.width + i < m.height * m.width) by (nonlinear_arith)
                requires
                    0 <= m.height - 1 - j < m.height,
                    0 <= i < m.width,
                    1 <= m.width,
            ;
            assert(cell_at(m, (m.height - 1 - j) * m.width + i) is None);
        }
        lemma_filled_none_all(s_rot(m), total);
    } else {
        lemma_filled_pos(m, total);
        let c = choose|c: int| 0 <= c < total && #[trigger] cell_at(m, c) is Some;
        lemma_flat_decode(c, m.height, m.width);
        let i = c / m.width;
        let j = c % m.width;
        vstd::arithmetic::div_mod::lemma_fundamental_div_mod(c, m.width);
        assert(i * m.width == m.width * i) by (nonlinear_arith);
        assert(cell_at(m, c) == m.cells[i][j]);
        let m2 = board_set(m, i, j, None);
        lemma_filled_update(m, i, j, None, total);
        assert(board_wf(m2)) by {
            assert forall|r: int| 0 <= r < m2.height implies (#[trigger] m2.cells[r]).len()
                == m2.width by {
                if r == i {
                    assert(m2.cells[r] == m.cells[i].update(j, None));
                } else {
                    assert(m2.cells[r] == m.cells[r]);
                }
            }
        }
        lemma_rot_filled(m2);
        lemma_rot_set(m, i, j, None);
        assert(s_rot(m2) == board_set(s_rot(m), j, m.height - 1 - i, None));
        assert(s_rot(m).cells[j][m.height - 1 - i] == m.cells[i][j]);
        assert(0 <= j * m.height + (m.height - 1 - i) < m.width * m.height) by (nonlinear_arith)
            requires
                0 <= m.height - 1 - i < m.height,
                0 <= j < m.width,
                1 <= m.height,
        ;
        lemma_filled_update(s_rot(m), j, m.height - 1 - i, None, total);
        assert(board_filled(s_rot(m2)) == board_filled(s_rot(m)) - 1);
    }
}

/// A completed run survives a reflection.
pub proof fn lemma_flip_win_fwd(m: BoardModel)
    requires
        board_wf(m),
        has_win(m),
    ensures
        has_win(s_flip(m)),
{
    let f = s_flip(m);
    let h = m.height;
    let win = m.win;
    if has_horizontal_win(m) {
        let (i0, j0) = choose|i: int, j: int|
            0 <= i < m.height && 0 <= j && j + m.win <= m.width && run_of(m, i, j, 0, 1);
        assert(run_of(f, h - 1 - i0, j0, 0, 1)) by {
            assert(f.cells[h - 1 - i0] == m.cells[h - 1 - (h - 1 - i0)]);
            assert(f.cells[h - 1 - i0] == m.cells[i0]);
            assert forall|k: int| #![trigger k * 0, k * 1] 0 <= k < win implies f.cells[h - 1 - i0
                + k * 0][j0 + k * 1] == f.cells[h - 1 - i0][j0] by {
                assert(k * 0 == 0 && k * 1 == k) by (nonlinear_arith);
                assert(m.cells[i0 + k * 0][j0 + k * 1] == m.cells[i0][j0]);
            }
        }
        assert(has_horizontal_win(f));
    } else if has_vertical_win(m) {
        let (i0, j0) = choose|i: int, j: int|
            0 <= i && i + m.win <= m.height && 0 <= j < m.width && run_of(m, i, j, 1, 0);
        let i1 = h - win - i0;
        assert(run_of(f, i1, j0, 1, 0)) by {
            assert(((win - 1)) * 1 == win - 1 && ((win - 1)) * 0 == 0) by (nonlinear_arith);
            assert(m.cells[i0 + (win - 1) * 1][j0 + (win - 1) * 0] == m.cells[i0][j0]);
            assert(f.cells[i1] == m.cells[h - 1 - i1]);
            assert(f.cells[i1][j0] == m.cells[i0 + win - 1][j0]);
            assert forall|k: int| #![trigger k * 1, k * 0] 0 <= k < win implies f.cells[i1 + k
                * 1][j0 + k * 0] == f.cells[i1][j0] by {
                assert(k * 1 == k && k * 0 == 0) by (nonlinear_arith);
                assert(f.cells[i1 + k] == m.cells[h - 1 - i1 - k]);
                assert(((win - 1 - k)) * 1 == win - 1 - k && ((win - 1 - k)) * 0 == 0)
                    by (nonlinear_arith);
                assert(m.cells[i0 + (win - 1 - k) * 1][j0 + (win - 1 - k) * 0] == m.cells[i0][j0]);
            }
        }
        assert(has_vertical_win(f));
    } else {
        assert(has_diagonal_win(m));
        if exists|i: int, j: int| #![trigger run_of(m, i, j, 1, 1)]
            0 <= i && i + m.win <= m.height && 0 <= j && j + m.win <= m.width && run_of(
            m,
            i,
            j,
            1,
            1,
        ) {
            let (i0, j0) = choose|i: int, j: int| #![trigger run_of(m, i, j, 1, 1)]
                0 <= i && i + m.win <= m.height && 0 <= j && j + m.win <= m.width && run_of(
                m,
                i,
                j,
                1,
                1,
            );
            let i1 = h - win - i0;
            let j1 = j0 + win - 1;
            assert(run_of(f, i1, j1, 1, -1)) by {
                assert(((win - 1)) * 1 == win - 1) by (nonlinear_arith);
                assert(m.cells[i0 + (win - 1) * 1][j0 + (win - 1) * 1] == m.cells[i0][j0]);
                assert(f.cells[i1] == m.cells[h - 1 - i1]);
                assert(f.cells[i1][j1] == m.cells[i0 + win - 1][j0 + win - 1]);
                assert forall|k: int| #![trigger k * 1, k * (-1)] 0 <= k < win implies f.cells[i1
                    + k * 1][j1 + k * (-1)] == f.cells[i1][j1] by {
                    assert(k * 1 == k && k * (-1) == -k) by (nonlinear_arith);
                    assert(f.cells[i1 + k] == m.cells[h - 1 - i1 - k]);
                    assert(((win - 1 - k)) * 1 == win - 1 - k) by (nonlinear_arith);
                    assert(m.cells[i0 + (win - 1 - k) * 1][j0 + (win - 1 - k) * 1]
                        == m.cells[i0][j0]);
                }
            }
            assert(has_diagonal_win(f));
        } else {
            let (i0, j0) = choose|i: int, j: int| #![trigger run_of(m, i, j, 1, -1)]
                0 <= i && i + m.win <= m.height && m.win - 1 <= j < m.width && run_of(
                m,
                i,
                j,
                1,
                -1,
            );
            let i1 = h - win - i0;
            let j1 = j0 - win + 1;
            assert(run_of(f, i1, j1, 1, 1)) by {
                assert(((win - 1)) * 1 == win - 1 && ((win - 1)) * (-1) == -(win - 1))
                    by (nonlinear_arith);
                assert(m.cells[i0 + (win - 1) * 1][j0 + (win - 1) * (-1)] == m.cells[i0][j0]);
                assert(f.cells[i1] == m.cells[h - 1 - i1]);
                assert(f.cells[i1][j1] == m.cells[i0 + win - 1][j0 - win + 1]);
                assert forall|k: int| #![trigger k * 1] 0 <= k < win implies f.cells[i1 + k * 1][j1
                    + k * 1] == f.cells[i1][j1] by {
                    assert(k * 1 == k) by (nonlinear_arith);
                    assert(f.cells[i1 + k] == m.cells[h - 1 - i1 - k]);
                    assert(((win - 1 - k)) * 1 == win - 1 - k && ((win - 1 - k)) * (-1) == -(win - 1
                        - k)) by (nonlinear_arith);
                    assert(m.cells[i0 + (win - 1 - k) * 1][j0 + (win - 1 - k) * (-1)]
                        == m.cells[i0][j0]);
                }
            }
            assert(has_diagonal_win(f));
        }
    }
}

/// A completed run survives a quarter-turn.
pub proof fn lemma_rot_win_fwd(m: BoardModel)
    requires
        board_wf(m),
        has_win(m),
    ensures
        has_win(s_rot(m)),
{
    let r = s_rot(m);
    let h = m.height;
    let win = m.win;
    lemma_rot_wf(m);
    if has_horizontal_win(m) {
        let (i0, j0) = choose|i: int, j: int|
            0 <= i < m.height && 0 <= j && j + m.win <= m.width && run_of(m, i, j, 0, 1);
        assert(run_of(r, j0, h - 1 - i0, 1, 0)) by {
            assert(r.cells[j0][h - 1 - i0] == m.cells[i0][j0]);
            assert forall|k: int| #![trigger k * 1, k * 0] 0 <= k < win implies r.cells[j0 + k
                * 1][h - 1 - i0 + k * 0] == r.cells[j0][h - 1 - i0] by {
                assert(k * 1 == k && k * 0 == 0) by (nonlinear_arith);
                assert(r.cells[j0 + k][h - 1 - i0] == m.cells[i0][j0 + k]);
                assert(m.cells[i0 + k * 0][j0 + k * 1] == m.cells[i0][j0]);
            }
        }
        assert(has_vertical_win(r));
    } else if has_vertical_win(m) {
        let (i0, j0) = choose|i: int, j: int|
            0 <= i && i + m.win <= m.height && 0 <= j < m.width && run_of(m, i, j, 1, 0);
        let j1 = h - i0 - win;
        assert(run_of(r, j0, j1, 0, 1)) by {
            assert(((win - 1)) * 1 == win - 1 && ((win - 1)) * 0 == 0) by (nonlinear_arith);
            assert(m.cells[i0 + (win - 1) * 1][j0 + (win - 1) * 0] == m.cells[i0][j0]);
            assert(r.cells[j0][j1] == m.cells[h - 1 - j1][j0]);
            assert forall|k: int| #![trigger k * 0, k * 1] 0 <= k < win implies r.cells[j0 + k
                * 0][j1 + k * 1] == r.cells[j0][j1] by {
                assert(k * 0 == 0 && k * 1 == k) by (nonlinear_arith);
                assert(r.cells[j0][j1 + k] == m.cells[h - 1 - j1 - k][j0]);
                assert(((win - 1 - k)) * 1 == win - 1 - k && ((win - 1 - k)) * 0 == 0)
                    by (nonlinear_arith);
                assert(m.cells[i0 + (win - 1 - k) * 1][j0 + (win - 1 - k) * 0] == m.cells[i0][j0]);
            }
        }
        assert(has_horizontal_win(r));
    } else {
        assert(has_diagonal_win(m));
        if exists|i: int, j: int| #![trigger run_of(m, i, j, 1, 1)]
            0 <= i && i + m.win <= m.height && 0 <= j && j + m.win <= m.width && run_of(
            m,
            i,
            j,
            1,
            1,
        ) {
            let (i0, j0) = choose|i: int, j: int| #![trigger run_of(m, i, j, 1, 1)]
                0 <= i && i + m.win <= m.height && 0 <= j && j + m.win <= m.width && run_of(
                m,
                i,
                j,
                1,
                1,
            );
            assert(run_of(r, j0, h - 1 - i0, 1, -1)) by {
                assert(r.cells[j0][h - 1 - i0] == m.cells[i0][j0]);
                assert forall|k: int| #![trigger k * 1, k * (-1)] 0 <= k < win implies r.cells[j0
                    + k * 1][h - 1 - i0 + k * (-1)] == r.cells[j0][h - 1 - i0] by {
                    assert(k * 1 == k && k * (-1) == -k) by (nonlinear_arith);
                    assert(r.cells[j0 + k][h - 1 - i0 - k] == m.cells[i0 + k][j0 + k]);
                    assert(m.cells[i0 + k * 1][j0 + k * 1] == m.cells[i0][j0]);
                }
            }
            assert(has_diagonal_win(r));
        } else {
            let (i0, j0) = choose|i: int, j: int| #![trigger run_of(m, i, j, 1, -1)]
                0 <= i && i + m.win <= m.height && m.win - 1 <= j < m.width && run_of(
                m,
                i,
                j,
                1,
                -1,
            );
            let i1 = j0 - win + 1;
            let j1 = h - i0 - win;
            assert(run_of(r, i1, j1, 1, 1)) by {
                assert(((win - 1)) * 1 == win - 1 && ((win - 1)) * (-1) == -(win - 1))
                    by (nonlinear_arith);
                assert(m.cells[i0 + (win - 1) * 1][j0 + (win - 1) * (-1)] == m.cells[i0][j0]);
                assert(r.cells[i1][j1] == m.cells[h - 1 - j1][i1]);
                assert forall|k: int| #![trigger k * 1] 0 <= k < win implies r.cells[i1 + k * 1][j1
                    + k * 1] == r.cells[i1][j1] by {
                    assert(k * 1 == k) by (nonlinear_arith);
                    assert(r.cells[i1 + k][j1 + k] == m.cells[h - 1 - j1 - k][i1 + k]);
                    assert(((win - 1 - k)) * 1 == win - 1 - k && ((win - 1 - k)) * (-1) == -(win - 1
                        - k)) by (nonlinear_arith);
                    assert(m.cells[i0 + (win - 1 - k) * 1][j0 + (win - 1 - k) * (-1)]
                        == m.cells[i0][j0]);
                }
            }
            assert(has_diagonal_win(r));
        }
    }
}

/// Reflection neither creates nor destroys a completed run.
pub proof fn lemma_flip_win(m: BoardModel)
    requires
        board_wf(m),
    ensures
        has_win(s_flip(m)) == has_win(m),
{
    lemma_flip_wf(m);
    if has_win(m) {
        lemma_flip_win_fwd(m);
    }
    if has_win(s_flip(m)) {
        lemma_flip_win_fwd(s_flip(m));
        lemma_flip_flip(m);
    }
}

/// A quarter-turn neither creates nor destroys a completed run.
pub proof fn lemma_rot_win(m: BoardModel)
    requires
        board_wf(m),
    ensures
        has_win(s_rot(m)) == has_win(m),
{
    lemma_rot_wf(m);
    if has_win(m) {
        lemma_rot_win_fwd(m);
    }
    if has_win(s_rot(m)) {
        let r1 = s_rot(m);
        let r2 = s_rot(r1);
        let r3 = s_rot(r2);
        lemma_rot_wf(r1);
        lemma_rot_wf(r2);
        lemma_rot_win_fwd(r1);
        lemma_rot_win_fwd(r2);
        lemma_rot_win_fwd(r3);
        lemma_rot4(m);
        assert(s_rot_n(0, m) == m);
        assert(s_rot_n(1, m) == s_rot(m));
        assert(s_rot_n(2, m) == s_rot(s_rot_n(1, m)));
        assert(s_rot_n(3, m) == s_rot(s_rot_n(2, m)));
        assert(s_rot_n(4, m) == s_rot(s_rot_n(3, m)));
        assert(s_rot(r3) == m);
    }
}

/// Reflection preserves fullness.
pub proof fn lemma_flip_full(m: BoardModel)
    requires
        board_wf(m),
    ensures
        board_full(s_flip(m)) == board_full(m),
{
    let f = s_flip(m);
    if board_full(m) {
        assert forall|i: int, j: int| #![auto] 0 <= i < f.height && 0 <= j < f.width implies
            f.cells[i][j] is Some by {
            assert(f.cells[i] == m.cells[m.height - 1 - i]);
        }
    }
    if board_full(f) {
        assert forall|i: int, j: int| #![auto] 0 <= i < m.height && 0 <= j < m.width implies
            m.cells[i][j] is Some by {
            assert(f.cells[m.height - 1 - i] == m.cells[i]);
            assert(f.cells[m.height - 1 - i][j] is Some);
        }
    }
}

/// A quarter-turn preserves fullness.
pub proof fn lemma_rot_full(m: BoardModel)
    requires
        board_wf(m),
    ensures
        board_full(s_rot(m)) == board_full(m),
{
    let r = s_rot(m);
    lemma_rot_wf(m);
    if board_full(m) {
        assert forall|i: int, j: int| #![auto] 0 <= i < r.height && 0 <= j < r.width implies
            r.cells[i][j] is Some by {
            assert(r.cells[i][j] == m.cells[m.height - 1 - j][i]);
        }
    }
    if board_full(r) {
        assert forall|i: int, j: int| #![auto] 0 <= i < m.height && 0 <= j < m.width implies
            m.cells[i][j] is Some by {
            assert(r.cells[j][m.height - 1 - i] == m.cells[i][j]);
            assert(r.cells[j][m.height - 1 - i] is Some);
        }
    }
}

/// The terminal status of a board is invariant under reflection.
pub proof fn lemma_flip_outcome(m: BoardModel)
    requires
        board_wf(m),
    ensures
        board_outcome(s_flip(m)) == board_outcome(m),
{
    lemma_flip_win(m);
    lemma_flip_full(m);
}

/// The terminal status of a board is invariant under a quarter-turn.
pub proof fn lemma_rot_outcome(m: BoardModel)
    requires
        board_wf(m),
    ensures
        board_outcome(s_rot(m)) == board_outcome(m),
{
    lemma_rot_win(m);
    lemma_rot_full(m);
}

/// Copies one row of cells.
#[verifier::loop_isolation(false)]
fn copy_row(r: &Vec<Option<bool>>) -> (c: Vec<Option<bool>>)
    ensures
        c@ == r@,
{
    let mut c: Vec<Option<bool>> = Vec::new();
    let mut k: usize = 0;
    while k < r.len()
        invariant
            0 <= k <= r@.len(),
            c@ == r@.take(k as int),
        decreases r@.len() - k,
    {
        c.push(r[k]);
        proof {
            assert(r@.take(k + 1) =~= r@.take(k as int).push(r@[k as int]));
        }
        k = k + 1;
    }
    proof {
        assert(r@.take(r@.len() as int) =~= r@);
    }
    c
}

} // verus!
