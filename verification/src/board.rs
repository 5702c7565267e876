//! The board: a fixed-size rectangular grid of cells.
//!
//! A cell has two orthogonal attributes: an occupancy state (empty, or a
//! placed letter) and an optional score multiplier set at board
//! construction. Keeping the two independent means a bonus cell keeps its
//! multiplier after a tile is placed on it.

use crate::error::MoveError;
use vstd::prelude::*;

verus! {

/// A score multiplier carried by a bonus cell. Letter multipliers scale the
/// score contribution of the single tile covering the cell; word multipliers
/// scale the whole word. Each applies only on the turn the covering tile is
/// first placed.
#[derive(Clone, Copy, Debug, PartialEq, Eq, Structural)]
pub enum Multiplier {
    DoubleLetter,
    TripleLetter,
    DoubleWord,
    TripleWord,
}

/// One grid position: an occupancy state (`letter`) and an optional,
/// permanent multiplier tag (`bonus`), kept as independent attributes.
#[derive(Clone, Copy, Debug)]
pub struct Cell {
    /// `Some(l)` iff a tile with letter `l` has been placed here.
    pub letter: Option<char>,
    /// The multiplier this cell carries, if it is a bonus cell.
    pub bonus: Option<Multiplier>,
}

/// A letter of the game's alphabet: an ASCII letter, either case.
pub open spec fn is_game_letter(c: char) -> bool {
    ('a' <= c && c <= 'z') || ('A' <= c && c <= 'Z')
}

impl Cell {
    /// A cell with no tile and no bonus.
    pub fn empty() -> (r: Cell)
        ensures
            r.letter is None,
            r.bonus is None,
    {
        Cell { letter: None, bonus: None }
    }

    /// The display glyph of this cell: its letter if occupied, the bonus
    /// marker if it is an uncovered bonus cell, a blank otherwise.
    pub open spec fn spec_to_char(&self) -> char {
        match self.letter {
            Some(l) => l,
            None => match self.bonus {
                Some(_) => '*',
                None => ' ',
            },
        }
    }

    /// Display glyph used by `Board::render`.
    pub fn to_char(&self) -> (r: char)
        ensures
            r == self.spec_to_char(),
    {
        match self.letter {
            Some(l) => l,
            None => match self.bonus {
                Some(_) => '*',
                None => ' ',
            },
        }
    }
}

/// The largest supported board edge. Classic word boards are at most
/// 15 by 15; the bound also keeps every move score within `u64`.
pub const MAX_DIMENSION: usize = 15;

/// A fixed-size rectangular grid of cells, indexed row-major
/// (`y * width + x`). Dimensions never change after construction.
pub struct Board {
    width: usize,
    height: usize,
    cells: Vec<Cell>,
}

impl Board {
    /// The board's width, in cells.
    pub closed spec fn spec_width(&self) -> int {
        self.width as int
    }

    /// The board's height, in cells.
    pub closed spec fn spec_height(&self) -> int {
        self.height as int
    }

    /// Structural invariant: the grid is rectangular with supported
    /// dimensions, and every placed letter belongs to the game alphabet.
    pub closed spec fn wf(&self) -> bool {
        &&& 1 <= self.width <= MAX_DIMENSION
        &&& 1 <= self.height <= MAX_DIMENSION
        &&& self.cells@.len() == self.width * self.height
        &&& forall|i: int|
            0 <= i < self.cells@.len() ==> (#[trigger] self.cells@[i].letter matches Some(l)
                ==> is_game_letter(l))
    }

    /// The cell at column `x`, row `y` (meaningful only in bounds).
    pub closed spec fn spec_cell(&self, x: int, y: int) -> Cell {
        self.cells@[y * self.spec_width() + x]
    }

    /// Whether a coordinate lies on the grid.
    pub open spec fn spec_in_bounds(&self, c: (int, int)) -> bool {
        0 <= c.0 < self.spec_width() && 0 <= c.1 < self.spec_height()
    }

    /// Whether the cell at `c` holds a placed letter.
    pub open spec fn placed_at(&self, c: (int, int)) -> bool {
        self.spec_in_bounds(c) && self.spec_cell(c.0, c.1).letter is Some
    }

    /// A fresh board: every cell empty, no bonuses.
    pub fn new(width: usize, height: usize) -> (r: Board)
        requires
            1 <= width <= MAX_DIMENSION,
            1 <= height <= MAX_DIMENSION,
        ensures
            r.wf(),
            r.spec_width() == width,
            r.spec_height() == height,
            forall|x: int, y: int|
                0 <= x < width && 0 <= y < height ==> (#[trigger] r.spec_cell(x, y)).letter
                    is None && r.spec_cell(x, y).bonus is None,
    {
        proof {
            lemma_flat_in_range(width as int, height as int, 0, 0);
        }
        let mut cells: Vec<Cell> = Vec::new();
        let n = width * height;
        let mut i: usize = 0;
        while i < n
            invariant
                i <= n,
                cells@.len() == i,
                forall|k: int|
                    0 <= k < i ==> (#[trigger] cells@[k]).letter is None && cells@[k].bonus
                        is None,
            decreases n - i,
        {
            cells.push(Cell::empty());
            i = i + 1;
        }
        let r = Board { width, height, cells };
        proof {
            assert forall|x: int, y: int|
                0 <= x < width && 0 <= y < height implies (#[trigger] r.spec_cell(x, y)).letter
                is None && r.spec_cell(x, y).bonus is None by {
                lemma_flat_in_range(width as int, height as int, x, y);
            }
        }
        r
    }

    /// Exec bounds test matching `spec_in_bounds`.
    pub fn in_bounds(&self, x: usize, y: usize) -> (r: bool)
        ensures
            r == self.spec_in_bounds((x as int, y as int)),
    {
        x < self.width && y < self.height
    }

    /// The board's width.
    pub fn width(&self) -> (r: usize)
        ensures
            r == self.spec_width(),
    {
        self.width
    }

    /// The board's height.
    pub fn height(&self) -> (r: usize)
        ensures
            r == self.spec_height(),
    {
        self.height
    }

    /// Whether the cell at `(x, y)` holds a placed letter; false off-grid.
    pub fn is_placed(&self, x: usize, y: usize) -> (r: bool)
        requires
            self.wf(),
        ensures
            r == self.placed_at((x as int, y as int)),
    {
        if x < self.width && y < self.height {
            proof {
                lemma_flat_in_range(self.width as int, self.height as int, x as int, y as int);
            }
            self.cells[y * self.width + x].letter.is_some()
        } else {
            false
        }
    }

    /// The cell at a coordinate, or `OutOfBounds` if it lies off the grid.
    pub fn cell_at(&self, x: usize, y: usize) -> (r: Result<Cell, MoveError>)
        requires
            self.wf(),
        ensures
            self.spec_in_bounds((x as int, y as int)) ==> (r matches Ok(c) && c
                == self.spec_cell(x as int, y as int)),
            !self.spec_in_bounds((x as int, y as int)) ==> r matches Err(
                MoveError::OutOfBounds,
            ),
    {
        if x < self.width && y < self.height {
            proof {
                lemma_flat_in_range(self.width as int, self.height as int, x as int, y as int);
            }
            Ok(self.cells[y * self.width + x])
        } else {
            Err(MoveError::OutOfBounds)
        }
    }

    /// Raw mutator: turn the empty cell at `(x, y)` into `Placed(letter)`,
    /// keeping any bonus tag. No game rule is validated here; the move
    /// validator approves a move before this runs.
    pub fn place(&mut self, x: usize, y: usize, letter: char) -> (r: Result<(), MoveError>)
        requires
            old(self).wf(),
            is_game_letter(letter),
        ensures
            final(self).wf(),
            final(self).spec_width() == old(self).spec_width(),
            final(self).spec_height() == old(self).spec_height(),
            !old(self).spec_in_bounds((x as int, y as int)) ==> (r matches Err(
                MoveError::OutOfBounds,
            ) && *final(self) == *old(self)),
            old(self).spec_in_bounds((x as int, y as int)) && old(self).spec_cell(
                x as int,
                y as int,
            ).letter is Some ==> (r matches Err(MoveError::CellOccupied) && *final(self) == *old(
                self,
            )),
            old(self).spec_in_bounds((x as int, y as int)) && old(self).spec_cell(
                x as int,
                y as int,
            ).letter is None ==> {
                &&& r matches Ok(u)
                &&& final(self).spec_cell(x as int, y as int).letter == Some(letter)
                &&& final(self).spec_cell(x as int, y as int).bonus == old(self).spec_cell(
                    x as int,
                    y as int,
                ).bonus
                &&& forall|x2: int, y2: int|
                    old(self).spec_in_bounds((x2, y2)) && !(x2 == x && y2 == y)
                        ==> #[trigger] final(self).spec_cell(x2, y2) == old(self).spec_cell(
                        x2,
                        y2,
                    )
            },
    {
        if x >= self.width || y >= self.height {
            return Err(MoveError::OutOfBounds);
        }
        proof {
            lemma_flat_in_range(self.width as int, self.height as int, x as int, y as int);
        }
        let i = y * self.width + x;
        let here = self.cells[i];
        if here.letter.is_some() {
            return Err(MoveError::CellOccupied);
        }
        self.cells[i] = Cell { letter: Some(letter), bonus: here.bonus };
        proof {
            assert forall|x2: int, y2: int|
                self.spec_in_bounds((x2, y2)) && !(x2 == x && y2 == y) implies #[trigger] self
                .spec_cell(x2, y2) == old(self).spec_cell(x2, y2) by {
                lemma_flat_in_range(self.width as int, self.height as int, x2, y2);
                if y2 * self.spec_width() + x2 == y * self.spec_width() + x {
                    lemma_flat_injective(self.spec_width(), x as int, y as int, x2, y2);
                }
            }
        }
        Ok(())
    }

    /// Tag the cell at `(x, y)` with a multiplier. Bonus designations are
    /// set at board construction, before any tile is placed, and are
    /// permanent thereafter.
    pub fn add_bonus(&mut self, x: usize, y: usize, m: Multiplier) -> (r: Result<
        (),
        MoveError,
    >)
        requires
            old(self).wf(),
        ensures
            final(self).wf(),
            final(self).spec_width() == old(self).spec_width(),
            final(self).spec_height() == old(self).spec_height(),
            !old(self).spec_in_bounds((x as int, y as int)) ==> (r matches Err(
                MoveError::OutOfBounds,
            ) && *final(self) == *old(self)),
            old(self).spec_in_bounds((x as int, y as int)) && old(self).spec_cell(
                x as int,
                y as int,
            ).letter is Some ==> (r matches Err(MoveError::CellOccupied) && *final(self) == *old(
                self,
            )),
            old(self).spec_in_bounds((x as int, y as int)) && old(self).spec_cell(
                x as int,
                y as int,
            ).letter is None ==> {
                &&& r matches Ok(u)
                &&& final(self).spec_cell(x as int, y as int).letter is None
                &&& final(self).spec_cell(x as int, y as int).bonus == Some(m)
                &&& forall|x2: int, y2: int|
                    old(self).spec_in_bounds((x2, y2)) && !(x2 == x && y2 == y)
                        ==> #[trigger] final(self).spec_cell(x2, y2) == old(self).spec_cell(
                        x2,
                        y2,
                    )
            },
    {
        if x >= self.width || y >= self.height {
            return Err(MoveError::OutOfBounds);
        }
        proof {
            lemma_flat_in_range(self.width as int, self.height as int, x as int, y as int);
        }
        let i = y * self.width + x;
        let here = self.cells[i];
        if here.letter.is_some() {
            return Err(MoveError::CellOccupied);
        }
        self.cells[i] = Cell { letter: None, bonus: Some(m) };
        proof {
            assert forall|x2: int, y2: int|
                self.spec_in_bounds((x2, y2)) && !(x2 == x && y2 == y) implies #[trigger] self
                .spec_cell(x2, y2) == old(self).spec_cell(x2, y2) by {
                lemma_flat_in_range(self.width as int, self.height as int, x2, y2);
                if y2 * self.spec_width() + x2 == y * self.spec_width() + x {
                    lemma_flat_injective(self.spec_width(), x as int, y as int, x2, y2);
                }
            }
        }
        Ok(())
    }
}

/// Relies on String::push: appends exactly the one given character.
#[verifier::external_body]
fn push_char(s: &mut String, c: char)
    ensures
        final(s)@ == old(s)@.push(c),
{
    s.push(c);
}

/// Append `n` copies of `c`.
fn push_repeat(s: &mut String, c: char, n: usize)
    requires
        old(s)@.len() + n <= 1000,
    ensures
        final(s)@.len() == old(s)@.len() + n,
        forall|i: int| 0 <= i < old(s)@.len() ==> final(s)@[i] == old(s)@[i],
        forall|i: int| old(s)@.len() <= i < old(s)@.len() + n ==> final(s)@[i] == c,
{
    let mut k: usize = 0;
    while k < n
        invariant
            k <= n,
            old(s)@.len() + n <= 1000,
            s@.len() == old(s)@.len() + k,
            forall|i: int| 0 <= i < old(s)@.len() ==> s@[i] == old(s)@[i],
            forall|i: int| old(s)@.len() <= i < old(s)@.len() + k ==> s@[i] == c,
        decreases n - k,
    {
        push_char(s, c);
        k = k + 1;
    }
}

impl Board {
    /// A fixed-width bordered textual dump of the board, one line per
    /// row between dashed border lines: each cell as its display glyph
    /// (letter, bonus marker, or blank), each row framed by `|`. Purely
    /// diagnostic; validation never reads it.
    pub fn render(&self) -> (r: String)
        requires
            self.wf(),
        ensures
            r@.len() == (self.spec_height() + 2) * (self.spec_width() + 3),
            forall|j: int| 0 <= j < self.spec_width() + 2 ==> r@[j] == '-',
            r@[self.spec_width() + 2] == '\n',
            forall|y: int| #![trigger r@[(y + 1) * (self.spec_width() + 3)]]
                0 <= y < self.spec_height() ==> {
                    &&& r@[(y + 1) * (self.spec_width() + 3)] == '|'
                    &&& r@[(y + 1) * (self.spec_width() + 3) + self.spec_width() + 1] == '|'
                    &&& r@[(y + 1) * (self.spec_width() + 3) + self.spec_width() + 2] == '\n'
                },
            forall|x: int, y: int|
                0 <= x < self.spec_width() && 0 <= y < self.spec_height() ==> #[trigger] r@[(y + 1)
                    * (self.spec_width() + 3) + 1 + x] == self.spec_cell(x, y).spec_to_char(),
            forall|j: int|
                0 <= j < self.spec_width() + 2 ==> #[trigger] r@[(self.spec_height() + 1) * (
                self.spec_width() + 3) + j] == '-',
            r@[(self.spec_height() + 1) * (self.spec_width() + 3) + self.spec_width() + 2] == '\n',
    {
        let w = self.width();
        let h = self.height();
        let ghost stride: int = w as int + 3;
        proof {
            assert((h as int + 2) * stride <= 306) by (nonlinear_arith)
                requires
                    1 <= w <= 15,
                    1 <= h <= 15,
                    stride == w as int + 3,
            ;
        }
        let mut out = String::new();
        push_repeat(&mut out, '-', w + 2);
        push_char(&mut out, '\n');
        proof {
            assert(out@.len() == 1 * stride);
        }
        let mut y: usize = 0;
        while y < h
            invariant
                self.wf(),
                w == self.spec_width(),
                h == self.spec_height(),
                stride == w as int + 3,
                (h as int + 2) * stride <= 306,
                y <= h,
                out@.len() == (y + 1) * stride,
                forall|j: int| 0 <= j < w + 2 ==> out@[j] == '-',
                out@[w as int + 2] == '\n',
                forall|y2: int| #![trigger out@[(y2 + 1) * stride]]
                    0 <= y2 < y ==> {
                        &&& out@[(y2 + 1) * stride] == '|'
                        &&& out@[(y2 + 1) * stride + w + 1] == '|'
                        &&& out@[(y2 + 1) * stride + w + 2] == '\n'
                    },
                forall|x2: int, y2: int|
                    0 <= x2 < w && 0 <= y2 < y ==> #[trigger] out@[(y2 + 1) * stride + 1 + x2]
                        == self.spec_cell(x2, y2).spec_to_char(),
            decreases h - y,
        {
            let ghost pre = out@;
            proof {
                assert((y + 2) * stride == (y + 1) * stride + stride) by (nonlinear_arith);
                assert((y as int + 1) * stride + stride <= (h as int + 2) * stride)
                    by (nonlinear_arith)
                    requires
                        0 <= y < h,
                        stride >= 4,
                ;
            }
            push_char(&mut out, '|');
            let mut x: usize = 0;
            while x < w
                invariant
                    self.wf(),
                    w == self.spec_width(),
                    h == self.spec_height(),
                    y < h,
                    x <= w,
                    pre.len() + w as int + 3 <= 306,
                    out@.len() == pre.len() + 1 + x,
                    forall|i: int| 0 <= i < pre.len() ==> out@[i] == pre[i],
                    out@[pre.len() as int] == '|',
                    forall|x2: int|
                        0 <= x2 < x ==> #[trigger] out@[pre.len() + 1 + x2] == self.spec_cell(
                            x2,
                            y as int,
                        ).spec_to_char(),
                decreases w - x,
            {
                proof {
                    lemma_flat_in_range(w as int, h as int, x as int, y as int);
                }
                let g = self.cells[y * w + x].to_char();
                push_char(&mut out, g);
                x = x + 1;
            }
            push_char(&mut out, '|');
            push_char(&mut out, '\n');
            proof {
                assert(out@.len() == pre.len() + stride);
                assert(stride <= (y as int + 1) * stride) by (nonlinear_arith)
                    requires
                        0 <= y,
                        stride >= 4,
                ;
                assert forall|j: int| 0 <= j < w + 2 implies out@[j] == '-' by {
                    assert(out@[j] == pre[j]);
                }
                assert(out@[w as int + 2] == pre[w as int + 2]);
                assert forall|y2: int| #![trigger out@[(y2 + 1) * stride]]
                    0 <= y2 < y + 1 implies {
                    &&& out@[(y2 + 1) * stride] == '|'
                    &&& out@[(y2 + 1) * stride + w + 1] == '|'
                    &&& out@[(y2 + 1) * stride + w + 2] == '\n'
                } by {
                    assert((y2 + 1) * stride + stride == (y2 + 2) * stride) by (nonlinear_arith);
                    if y2 < y {
                        assert((y2 + 2) * stride <= (y + 1) * stride) by (nonlinear_arith)
                            requires
                                y2 < y as int,
                                stride >= 4,
                        ;
                        assert(out@[(y2 + 1) * stride] == pre[(y2 + 1) * stride]);
                        assert(out@[(y2 + 1) * stride + w + 1] == pre[(y2 + 1) * stride + w + 1]);
                        assert(out@[(y2 + 1) * stride + w + 2] == pre[(y2 + 1) * stride + w + 2]);
                    } else {
                        assert((y2 + 1) * stride == pre.len() as int);
                    }
                }
                assert forall|x2: int, y2: int|
                    0 <= x2 < w && 0 <= y2 < y + 1 implies #[trigger] out@[(y2 + 1) * stride + 1
                    + x2] == self.spec_cell(x2, y2).spec_to_char() by {
                    if y2 < y {
                        assert((y2 + 1) * stride + stride <= (y + 1) * stride)
                            by (nonlinear_arith)
                            requires
                                y2 < y as int,
                                stride >= 4,
                        ;
                        assert(out@[(y2 + 1) * stride + 1 + x2] == pre[(y2 + 1) * stride + 1
                            + x2]);
                    } else {
                        assert((y2 + 1) * stride == pre.len() as int);
                    }
                }
            }
            y = y + 1;
        }
        proof {
            assert((h as int + 2) * stride == (h as int + 1) * stride + stride)
                by (nonlinear_arith);
            assert(stride <= (h as int + 1) * stride) by (nonlinear_arith)
                requires
                    h as int >= 1,
                    stride >= 4,
            ;
        }
        let ghost body = out@;
        push_repeat(&mut out, '-', w + 2);
        push_char(&mut out, '\n');
        proof {
            assert(out@.len() == (h as int + 2) * stride);
            assert forall|j: int| 0 <= j < body.len() implies out@[j] == body[j] by {}
            assert(out@[w as int + 2] == body[w as int + 2]);
            assert forall|x2: int, y2: int|
                0 <= x2 < w && 0 <= y2 < h implies #[trigger] out@[(y2 + 1) * stride + 1 + x2]
                == self.spec_cell(x2, y2).spec_to_char() by {
                assert((y2 + 1) * stride + stride <= (h as int + 1) * stride)
                    by (nonlinear_arith)
                    requires
                        0 <= y2 < h as int,
                        stride >= 4,
                ;
                assert(out@[(y2 + 1) * stride + 1 + x2] == body[(y2 + 1) * stride + 1 + x2]);
            }
            assert forall|y2: int| #![trigger out@[(y2 + 1) * stride]]
                0 <= y2 < h implies {
                &&& out@[(y2 + 1) * stride] == '|'
                &&& out@[(y2 + 1) * stride + w + 1] == '|'
                &&& out@[(y2 + 1) * stride + w + 2] == '\n'
            } by {
                assert((y2 + 1) * stride + stride <= (h as int + 1) * stride)
                    by (nonlinear_arith)
                    requires
                        0 <= y2 < h as int,
                        stride >= 4,
                ;
                assert(out@[(y2 + 1) * stride] == body[(y2 + 1) * stride]);
                assert(out@[(y2 + 1) * stride + w + 1] == body[(y2 + 1) * stride + w + 1]);
                assert(out@[(y2 + 1) * stride + w + 2] == body[(y2 + 1) * stride + w + 2]);
            }
        }
        out
    }
}

/// A well-formed board's dimensions lie within the supported caps.
pub proof fn lemma_wf_dims(b: &Board)
    requires
        b.wf(),
    ensures
        1 <= b.spec_width() <= 15,
        1 <= b.spec_height() <= 15,
{
}

/// Row-major flattening stays inside the cell vector for in-bounds
/// coordinates.
pub proof fn lemma_flat_in_range(w: int, h: int, x: int, y: int) by (nonlinear_arith)
    requires
        0 <= x < w <= 15,
        0 <= y < h <= 15,
    ensures
        0 <= y * w + x < w * h,
        w * h <= 225,
{
}

/// Row-major flattening is injective over in-bounds coordinates.
pub proof fn lemma_flat_injective(w: int, x1: int, y1: int, x2: int, y2: int) by (nonlinear_arith)
    requires
        0 <= x1 < w,
        0 <= x2 < w,
        0 <= y1,
        0 <= y2,
        y1 * w + x1 == y2 * w + x2,
    ensures
        x1 == x2,
        y1 == y2,
{
}

} // verus!

