//! Tetrominoes on the playing field.
//!
//! Positions are whole pixels of the drawing canvas; the field spans
//! x in [-70, 60] and y in [-90, 80], one square being 10 by 10. The
//! bookkeeping centres (of a square and of a piece) are kept in quarter
//! pixels, the finest unit in which a centre of four squares falls.
use vstd::prelude::*;
use crate::convert::to_i8;

verus! {

/// The colours a piece can be drawn in.
#[derive(Clone, Copy, PartialEq, Eq, Structural, Debug)]
pub enum PieceColor {
    White,
    Cyan,
    Yellow,
    Red,
    Blue,
    Magenta,
    Green,
}

/// One square of a piece: its lower-left corner, its size, and its
/// bookkeeping centre in quarter pixels.
#[derive(Copy, Debug)]
pub struct SimplePiece {
    pub x: i64,
    pub y: i64,
    pub width: i64,
    pub height: i64,
    pub center_x4: i64,
    pub center_y4: i64,
}

impl Clone for SimplePiece {
    fn clone(&self) -> (res: Self)
        ensures
            res == *self,
    {
        *self
    }
}

/// The mathematical value of a square.
pub struct Cell {
    pub x: int,
    pub y: int,
    pub width: int,
    pub height: int,
    pub center_x4: int,
    pub center_y4: int,
}

impl View for SimplePiece {
    type V = Cell;

    open spec fn view(&self) -> Cell {
        Cell {
            x: self.x as int,
            y: self.y as int,
            width: self.width as int,
            height: self.height as int,
            center_x4: self.center_x4 as int,
            center_y4: self.center_y4 as int,
        }
    }
}

/// A piece: its squares, the lowest and highest row it was last known to
/// reach, and its centre of rotation (quarter pixels).
#[derive(Debug)]
pub struct Piece {
    pub color: PieceColor,
    pub components: Vec<SimplePiece>,
    pub min_y: i64,
    pub max_y: i64,
    pub center_x4: i64,
    pub center_y4: i64,
}

/// The mathematical value of a piece.
#[verifier::ext_equal]
pub struct PieceModel {
    pub color: PieceColor,
    pub cells: Seq<Cell>,
    pub min_y: int,
    pub max_y: int,
    pub center_x4: int,
    pub center_y4: int,
}

pub open spec fn cells_of(v: Seq<SimplePiece>) -> Seq<Cell> {
    v.map_values(|c: SimplePiece| c@)
}

impl View for Piece {
    type V = PieceModel;

    open spec fn view(&self) -> PieceModel {
        PieceModel {
            color: self.color,
            cells: cells_of(self.components@),
            min_y: self.min_y as int,
            max_y: self.max_y as int,
            center_x4: self.center_x4 as int,
            center_y4: self.center_y4 as int,
        }
    }
}

impl Clone for Piece {
    fn clone(&self) -> (res: Self)
        ensures
            res@ == self@,
    {
        let mut comps: Vec<SimplePiece> = Vec::new();
        let mut i: usize = 0;
        while i < self.components.len()
            invariant
                i <= self.components@.len(),
                comps@ == self.components@.subrange(0, i as int),
            decreases self.components@.len() - i,
        {
            comps.push(self.components[i]);
            i = i + 1;
        }
        assert(self.components@.subrange(0, self.components@.len() as int) == self.components@);
        Piece {
            color: self.color,
            components: comps,
            min_y: self.min_y,
            max_y: self.max_y,
            center_x4: self.center_x4,
            center_y4: self.center_y4,
        }
    }
}

// ---------------------------------------------------------------------
// The model
// ---------------------------------------------------------------------

/// The bound on magnitudes up to which the piece operations are computed
/// in machine integers: pixels up to `2^58`, quarter pixels up to `2^60`.
pub open spec fn piece_limit() -> int {
    0x400_0000_0000_0000
}

pub open spec fn within(v: int, b: int) -> bool {
    -b <= v <= b
}

impl Cell {
    pub open spec fn within(self, b: int) -> bool {
        &&& within(self.x, b)
        &&& within(self.y, b)
        &&& within(self.center_x4, 4 * b)
        &&& within(self.center_y4, 4 * b)
    }
}

impl PieceModel {
    /// Every coordinate of the piece is at most `b` pixels from the origin.
    pub open spec fn within(self, b: int) -> bool {
        &&& forall|i: int| 0 <= i < self.cells.len() ==> #[trigger] self.cells[i].within(b)
        &&& within(self.min_y, b)
        &&& within(self.max_y, b)
        &&& within(self.center_x4, 4 * b)
        &&& within(self.center_y4, 4 * b)
    }
}

/// A 10 by 10 square at `(x, y)`, its centre at its middle.
pub open spec fn square_at(x: int, y: int) -> Cell {
    Cell { x, y, width: 10, height: 10, center_x4: 4 * (x + 5), center_y4: 4 * (y + 5) }
}

/// The value `to_i8` gives an integer: itself where it fits an `i8`.
pub open spec fn small(v: int) -> Option<int> {
    if -128 <= v <= 127 {
        Some(v)
    } else {
        None
    }
}

/// The value of a saturating cast to `i8`.
pub open spec fn clamp_i8(v: int) -> int {
    if v < -128 {
        -128
    } else if v > 127 {
        127
    } else {
        v
    }
}

/// Two squares count as the same place when their coordinates convert
/// alike to `i8`.
pub open spec fn same_place(a: Cell, b: Cell) -> bool {
    small(a.x) == small(b.x) && small(a.y) == small(b.y)
}

/// Some square of `p` is at the place of `c`.
pub open spec fn covers(p: PieceModel, c: Cell) -> bool {
    exists|i: int| 0 <= i < p.cells.len() && same_place(#[trigger] p.cells[i], c)
}

pub open spec fn off_field(c: Cell) -> bool {
    c.y < -90 || c.y > 80 || c.x < -70 || c.x > 60
}

/// Some square of `p` lies off the field.
pub open spec fn outside_field(p: PieceModel) -> bool {
    exists|i: int| 0 <= i < p.cells.len() && off_field(#[trigger] p.cells[i])
}

pub open spec fn sum_x4(cells: Seq<Cell>) -> int
    decreases cells.len(),
{
    if cells.len() == 0 {
        0
    } else {
        sum_x4(cells.drop_last()) + cells.last().center_x4
    }
}

pub open spec fn sum_y4(cells: Seq<Cell>) -> int
    decreases cells.len(),
{
    if cells.len() == 0 {
        0
    } else {
        sum_y4(cells.drop_last()) + cells.last().center_y4
    }
}

/// The mean of the squares' centres, rounded down to a quarter pixel;
/// `(0, 0)` for no squares.
pub open spec fn center_of(cells: Seq<Cell>) -> (int, int) {
    if cells.len() == 0 {
        (0, 0)
    } else {
        (sum_x4(cells) / (cells.len() as int), sum_y4(cells) / (cells.len() as int))
    }
}

pub open spec fn shift_cell(c: Cell, dx: int, dy: int) -> Cell {
    Cell {
        x: c.x + dx,
        y: c.y + dy,
        center_x4: c.center_x4 + 4 * dx,
        center_y4: c.center_y4 + 4 * dy,
        ..c
    }
}

pub open spec fn shift_cells(cells: Seq<Cell>, dx: int, dy: int) -> Seq<Cell> {
    Seq::new(cells.len(), |i: int| shift_cell(cells[i], dx, dy))
}

/// `p` with the squares `cells` and its centre recomputed from them.
pub open spec fn recentered(p: PieceModel, cells: Seq<Cell>) -> PieceModel {
    PieceModel { cells, center_x4: center_of(cells).0, center_y4: center_of(cells).1, ..p }
}

pub open spec fn set_center_spec(p: PieceModel) -> PieceModel {
    recentered(p, p.cells)
}

/// One column to the right, unless (without `force`) a square is at the
/// right edge already.
pub open spec fn move_right_spec(p: PieceModel, force: bool) -> PieceModel {
    if !force && exists|i: int| 0 <= i < p.cells.len() && #[trigger] p.cells[i].x >= 60 {
        p
    } else {
        recentered(p, shift_cells(p.cells, 10, 0))
    }
}

/// One column to the left, unless (without `force`) a square is at the
/// left edge already.
pub open spec fn move_left_spec(p: PieceModel, force: bool) -> PieceModel {
    if !force && exists|i: int| 0 <= i < p.cells.len() && #[trigger] p.cells[i].x <= -70 {
        p
    } else {
        recentered(p, shift_cells(p.cells, -10, 0))
    }
}

/// One row down, unless a square is on the floor already.
pub open spec fn move_down_spec(p: PieceModel) -> PieceModel {
    if exists|i: int| 0 <= i < p.cells.len() && #[trigger] p.cells[i].y <= -90 {
        p
    } else {
        recentered(
            PieceModel { min_y: p.min_y - 10, max_y: p.max_y - 10, ..p },
            shift_cells(p.cells, 0, -10),
        )
    }
}

/// One row up, unless a square is at the top row already.
pub open spec fn move_up_spec(p: PieceModel) -> PieceModel {
    if exists|i: int| 0 <= i < p.cells.len() && #[trigger] p.cells[i].y >= 80 {
        p
    } else {
        recentered(
            PieceModel { min_y: p.min_y + 10, max_y: p.max_y + 10, ..p },
            shift_cells(p.cells, 0, 10),
        )
    }
}


// ---------------------------------------------------------------------
// Squares
// ---------------------------------------------------------------------

impl SimplePiece {
    /// A 10 by 10 square with its lower-left corner at `(x, y)`.
    pub fn new(x: i64, y: i64) -> (s: SimplePiece)
        requires
            within(x as int, piece_limit()),
            within(y as int, piece_limit()),
        ensures
            s@ == square_at(x as int, y as int),
    {
        SimplePiece { x, y, width: 10, height: 10, center_x4: 4 * (x + 5), center_y4: 4 * (y + 5) }
    }

    /// Whether the two squares are at the same place, comparing their
    /// coordinates converted to `i8`.
    pub fn is_equal(&self, piece: &SimplePiece) -> (r: bool)
        ensures
            r == same_place(self@, piece@),
    {
        same_small(self.x, piece.x) && same_small(self.y, piece.y)
    }
}

/// Whether `a` and `b` convert to the same `Option<i8>`.
fn same_small(a: i64, b: i64) -> (r: bool)
    ensures
        r == (small(a as int) == small(b as int)),
{
    match (to_i8(a), to_i8(b)) {
        (Some(p), Some(q)) => p == q,
        (None, None) => true,
        _ => false,
    }
}

// ---------------------------------------------------------------------
// Centres and extremes
// ---------------------------------------------------------------------

pub proof fn lemma_cells_prefix(v: Seq<SimplePiece>, i: int)
    requires
        0 <= i < v.len(),
    ensures
        cells_of(v).subrange(0, i + 1).drop_last() == cells_of(v).subrange(0, i),
        cells_of(v).subrange(0, i + 1).last() == v[i]@,
{
    assert(cells_of(v).subrange(0, i + 1).drop_last() =~= cells_of(v).subrange(0, i));
}

/// The sum of `n` numbers each within `k` is within `n * k`, for the bound
/// on the centre sums.
pub proof fn lemma_mean_within(sum: int, n: int, k: int)
    requires
        n > 0,
        k >= 0,
        -(n * k) <= sum <= n * k,
    ensures
        -k <= sum / n <= k,
{
    assert(-k <= sum / n <= k) by (nonlinear_arith)
        requires
            n > 0,
            k >= 0,
            -(n * k) <= sum <= n * k,
    {
        vstd::arithmetic::div_mod::lemma_fundamental_div_mod(sum, n);
    }
}

/// Floor division of `a` by a positive `n`.
fn floor_div(a: i128, n: i128) -> (q: i128)
    requires
        0 < n <= 0x1_0000_0000_0000_0000,
        -0x4000_0000_0000_0000_0000_0000_0000_0000 <= a,
    ensures
        q == a as int / n as int,
{
    if a >= 0 {
        a / n
    } else {
        let m = -a;
        let q = (m + n - 1) / n;
        proof {
            let mi = m as int;
            let ni = n as int;
            let qi = q as int;
            let r = (mi + ni - 1) % ni;
            vstd::arithmetic::div_mod::lemma_fundamental_div_mod(mi + ni - 1, ni);
            assert(mi + ni - 1 == ni * qi + r);
            assert(0 <= r < ni);
            // a = -m = -(n q + r - n + 1) = (-q) n + (n - 1 - r)
            assert((-qi) * ni == -(ni * qi)) by (nonlinear_arith);
            vstd::arithmetic::div_mod::lemma_fundamental_div_mod_converse(a as int, ni, -qi, ni - 1 - r);
        }
        -q
    }
}

/// The centre of a piece made of `squares`: the mean of their centres, in
/// quarter pixels rounded down; `(0, 0)` when there are none.
pub fn get_center(squares: Vec<SimplePiece>) -> (c: (i64, i64))
    requires
        forall|i: int| 0 <= i < squares@.len() ==> #[trigger] squares@[i]@.within(2 * piece_limit()),
    ensures
        c.0 == center_of(cells_of(squares@)).0,
        c.1 == center_of(cells_of(squares@)).1,
{
    let n = squares.len();
    if n == 0 {
        return (0, 0);
    }
    let ghost cells = cells_of(squares@);
    let mut sx: i128 = 0;
    let mut sy: i128 = 0;
    let mut i: usize = 0;
    while i < n
        invariant
            n == squares@.len(),
            cells == cells_of(squares@),
            i <= n,
            forall|k: int| 0 <= k < squares@.len() ==> #[trigger] squares@[k]@.within(2 * piece_limit()),
            sx == sum_x4(cells.subrange(0, i as int)),
            sy == sum_y4(cells.subrange(0, i as int)),
            -(i as int) * 0x2000_0000_0000_0000 <= sx <= (i as int) * 0x2000_0000_0000_0000,
            -(i as int) * 0x2000_0000_0000_0000 <= sy <= (i as int) * 0x2000_0000_0000_0000,
        decreases n - i,
    {
        proof {
            lemma_cells_prefix(squares@, i as int);
            assert(squares@[i as int]@.within(2 * piece_limit()));
        }
        sx = sx + squares[i].center_x4 as i128;
        sy = sy + squares[i].center_y4 as i128;
        i = i + 1;
    }
    assert(cells.subrange(0, n as int) == cells);
    proof {
        lemma_mean_within(sx as int, n as int, 0x2000_0000_0000_0000);
        lemma_mean_within(sy as int, n as int, 0x2000_0000_0000_0000);
    }
    let cx = floor_div(sx, n as i128);
    let cy = floor_div(sy, n as i128);
    (cx as i64, cy as i64)
}


/// `v` with every square moved by `(dx, dy)`, its centre along with it.
fn shifted(v: &Vec<SimplePiece>, dx: i64, dy: i64) -> (r: Vec<SimplePiece>)
    requires
        -10 <= dx <= 10,
        -10 <= dy <= 10,
        forall|i: int| 0 <= i < v@.len() ==> #[trigger] v@[i]@.within(piece_limit()),
    ensures
        cells_of(r@) == shift_cells(cells_of(v@), dx as int, dy as int),
        forall|i: int| 0 <= i < r@.len() ==> #[trigger] r@[i]@.within(2 * piece_limit()),
{
    let mut r: Vec<SimplePiece> = Vec::new();
    let mut i: usize = 0;
    while i < v.len()
        invariant
            -10 <= dx <= 10,
            -10 <= dy <= 10,
            i <= v@.len(),
            forall|k: int| 0 <= k < v@.len() ==> #[trigger] v@[k]@.within(piece_limit()),
            r@.len() == i,
            forall|k: int| 0 <= k < i ==> #[trigger] r@[k]@ == shift_cell(v@[k]@, dx as int, dy as int),
            forall|k: int| 0 <= k < i ==> #[trigger] r@[k]@.within(2 * piece_limit()),
        decreases v@.len() - i,
    {
        let c = v[i];
        assert(v@[i as int]@.within(piece_limit()));
        r.push(SimplePiece {
            x: c.x + dx,
            y: c.y + dy,
            width: c.width,
            height: c.height,
            center_x4: c.center_x4 + 4 * dx,
            center_y4: c.center_y4 + 4 * dy,
        });
        i = i + 1;
    }
    assert(cells_of(r@) =~= shift_cells(cells_of(v@), dx as int, dy as int));
    r
}

/// Some square of `v` has `x >= k`.
fn any_x_at_least(v: &Vec<SimplePiece>, k: i64) -> (r: bool)
    ensures
        r == exists|i: int| 0 <= i < cells_of(v@).len() && #[trigger] cells_of(v@)[i].x >= k,
{
    let mut i: usize = 0;
    while i < v.len()
        invariant
            i <= v@.len(),
            forall|j: int| 0 <= j < i ==> #[trigger] cells_of(v@)[j].x < k,
        decreases v@.len() - i,
    {
        if v[i].x >= k {
            assert(cells_of(v@)[i as int].x >= k);
            return true;
        }
        i = i + 1;
    }
    false
}

/// Some square of `v` has `x <= k`.
fn any_x_at_most(v: &Vec<SimplePiece>, k: i64) -> (r: bool)
    ensures
        r == exists|i: int| 0 <= i < cells_of(v@).len() && #[trigger] cells_of(v@)[i].x <= k,
{
    let mut i: usize = 0;
    while i < v.len()
        invariant
            i <= v@.len(),
            forall|j: int| 0 <= j < i ==> #[trigger] cells_of(v@)[j].x > k,
        decreases v@.len() - i,
    {
        if v[i].x <= k {
            assert(cells_of(v@)[i as int].x <= k);
            return true;
        }
        i = i + 1;
    }
    false
}

/// Some square of `v` has `y >= k`.
fn any_y_at_least(v: &Vec<SimplePiece>, k: i64) -> (r: bool)
    ensures
        r == exists|i: int| 0 <= i < cells_of(v@).len() && #[trigger] cells_of(v@)[i].y >= k,
{
    let mut i: usize = 0;
    while i < v.len()
        invariant
            i <= v@.len(),
            forall|j: int| 0 <= j < i ==> #[trigger] cells_of(v@)[j].y < k,
        decreases v@.len() - i,
    {
        if v[i].y >= k {
            assert(cells_of(v@)[i as int].y >= k);
            return true;
        }
        i = i + 1;
    }
    false
}

/// Some square of `v` has `y <= k`.
fn any_y_at_most(v: &Vec<SimplePiece>, k: i64) -> (r: bool)
    ensures
        r == exists|i: int| 0 <= i < cells_of(v@).len() && #[trigger] cells_of(v@)[i].y <= k,
{
    let mut i: usize = 0;
    while i < v.len()
        invariant
            i <= v@.len(),
            forall|j: int| 0 <= j < i ==> #[trigger] cells_of(v@)[j].y > k,
        decreases v@.len() - i,
    {
        if v[i].y <= k {
            assert(cells_of(v@)[i as int].y <= k);
            return true;
        }
        i = i + 1;
    }
    false
}

impl Piece {
    /// Recomputes the centre from the squares.
    pub fn set_center(&mut self)
        requires
            forall|i: int| 0 <= i < old(self)@.cells.len() ==> #[trigger] old(self)@.cells[i].within(2 * piece_limit()),
        ensures
            final(self)@ == set_center_spec(old(self)@),
    {
        assert forall|i: int| 0 <= i < self.components@.len() implies #[trigger] self.components@[i]@.within(2 * piece_limit()) by {
            assert(self@.cells[i] == self.components@[i]@);
        }
        let c = get_center(self.components.clone());
        self.center_x4 = c.0;
        self.center_y4 = c.1;
    }

    /// Whether some square of the piece is at the place of `piece`.
    pub fn is_blocked(&self, piece: &SimplePiece) -> (r: bool)
        ensures
            r == covers(self@, piece@),
    {
        let mut i: usize = 0;
        while i < self.components.len()
            invariant
                i <= self.components@.len(),
                forall|j: int| 0 <= j < i ==> !same_place(#[trigger] self@.cells[j], piece@),
            decreases self.components@.len() - i,
        {
            if self.components[i].is_equal(piece) {
                assert(same_place(self@.cells[i as int], piece@));
                return true;
            }
            i = i + 1;
        }
        false
    }

    /// Whether some square of the piece lies off the field.
    pub fn out_of_bounds(&self) -> (r: bool)
        ensures
            r == outside_field(self@),
    {
        let mut i: usize = 0;
        while i < self.components.len()
            invariant
                i <= self.components@.len(),
                forall|j: int| 0 <= j < i ==> !off_field(#[trigger] self@.cells[j]),
            decreases self.components@.len() - i,
        {
            let c = self.components[i];
            if c.y < -90 || c.y > 80 || c.x < -70 || c.x > 60 {
                assert(off_field(self@.cells[i as int]));
                return true;
            }
            i = i + 1;
        }
        false
    }

    /// One column to the right; without `force`, nothing moves when a square
    /// is at the right edge.
    pub fn move_right(&mut self, force: bool)
        requires
            old(self)@.within(piece_limit()),
        ensures
            final(self)@ == move_right_spec(old(self)@, force),
    {
        proof { self.lemma_components_within(); }
        if any_x_at_least(&self.components, 60) && !force {
            return;
        }
        self.components = shifted(&self.components, 10, 0);
        self.set_center();
    }

    /// One column to the left; without `force`, nothing moves when a square
    /// is at the left edge.
    pub fn move_left(&mut self, force: bool)
        requires
            old(self)@.within(piece_limit()),
        ensures
            final(self)@ == move_left_spec(old(self)@, force),
    {
        proof { self.lemma_components_within(); }
        if any_x_at_most(&self.components, -70) && !force {
            return;
        }
        self.components = shifted(&self.components, -10, 0);
        self.set_center();
    }

    /// One row down; nothing moves when a square is on the floor.
    pub fn move_down(&mut self)
        requires
            old(self)@.within(piece_limit()),
        ensures
            final(self)@ == move_down_spec(old(self)@),
    {
        proof { self.lemma_components_within(); }
        if any_y_at_most(&self.components, -90) {
            return;
        }
        self.components = shifted(&self.components, 0, -10);
        self.min_y = self.min_y - 10;
        self.max_y = self.max_y - 10;
        self.set_center();
    }

    /// One row up; nothing moves when a square is in the top row.
    pub fn move_up(&mut self)
        requires
            old(self)@.within(piece_limit()),
        ensures
            final(self)@ == move_up_spec(old(self)@),
    {
        proof { self.lemma_components_within(); }
        if any_y_at_least(&self.components, 80) {
            return;
        }
        self.components = shifted(&self.components, 0, 10);
        self.min_y = self.min_y + 10;
        self.max_y = self.max_y + 10;
        self.set_center();
    }

    proof fn lemma_components_within(&self)
        requires
            self@.within(piece_limit()),
        ensures
            forall|i: int| 0 <= i < self.components@.len() ==> #[trigger] self.components@[i]@.within(piece_limit()),
    {
        assert forall|i: int| 0 <= i < self.components@.len() implies #[trigger] self.components@[i]@.within(piece_limit()) by {
            assert(self@.cells[i] == self.components@[i]@);
        }
    }
}

// ---------------------------------------------------------------------
// The shapes
// ---------------------------------------------------------------------

/// A straight line of four, standing upright.
pub open spec fn long_spec() -> PieceModel {
    PieceModel {
        color: PieceColor::White,
        cells: seq![square_at(0, 90), square_at(0, 80), square_at(0, 70), square_at(0, 60)],
        min_y: 60,
        max_y: 90,
        center_x4: 0,
        center_y4: 300,
    }
}

/// A 2 by 2 block.
pub open spec fn square_spec() -> PieceModel {
    PieceModel {
        color: PieceColor::White,
        cells: seq![square_at(0, 90), square_at(10, 90), square_at(0, 80), square_at(10, 80)],
        min_y: 80,
        max_y: 90,
        center_x4: 0,
        center_y4: 340,
    }
}

/// Three in a row with one below the middle.
pub open spec fn t_piece_spec() -> PieceModel {
    PieceModel {
        color: PieceColor::White,
        cells: seq![square_at(0, 90), square_at(-10, 90), square_at(10, 90), square_at(0, 80)],
        min_y: 80,
        max_y: 90,
        center_x4: 0,
        center_y4: 340,
    }
}

/// A column of three with a foot to the right.
pub open spec fn l_piece_spec() -> PieceModel {
    PieceModel {
        color: PieceColor::White,
        cells: seq![square_at(0, 90), square_at(0, 80), square_at(0, 70), square_at(10, 70)],
        min_y: 70,
        max_y: 90,
        center_x4: 0,
        center_y4: 320,
    }
}

/// A column of three with a foot to the left.
pub open spec fn inverted_l_piece_spec() -> PieceModel {
    PieceModel {
        color: PieceColor::White,
        cells: seq![square_at(0, 90), square_at(0, 80), square_at(0, 70), square_at(-10, 70)],
        min_y: 70,
        max_y: 90,
        center_x4: 0,
        center_y4: 320,
    }
}

/// Two on top shifted left of two below.
pub open spec fn z_piece_spec() -> PieceModel {
    PieceModel {
        color: PieceColor::White,
        cells: seq![square_at(-10, 90), square_at(0, 90), square_at(0, 80), square_at(10, 80)],
        min_y: 80,
        max_y: 90,
        center_x4: 0,
        center_y4: 360,
    }
}

/// Two below shifted left of two on top.
pub open spec fn inverted_z_piece_spec() -> PieceModel {
    PieceModel {
        color: PieceColor::White,
        cells: seq![square_at(-10, 80), square_at(0, 80), square_at(0, 90), square_at(10, 90)],
        min_y: 80,
        max_y: 90,
        center_x4: 0,
        center_y4: 360,
    }
}

/// The whole row at height `y`: fourteen squares from x = -70 to x = 60.
pub open spec fn whole_line_spec(y: int) -> PieceModel {
    PieceModel {
        color: PieceColor::White,
        cells: Seq::new(14, |k: int| square_at(-70 + 10 * k, y)),
        min_y: y,
        max_y: y,
        center_x4: 20,
        center_y4: 4 * (y + 5),
    }
}

/// A piece of no squares, standing in until the first real one.
pub open spec fn placeholder_spec() -> PieceModel {
    PieceModel {
        color: PieceColor::White,
        cells: Seq::empty(),
        min_y: 0,
        max_y: 0,
        center_x4: 0,
        center_y4: 0,
    }
}

impl Piece {
    /// A straight line of four, standing upright.
    pub fn long() -> (p: Piece)
        ensures
            p@ == long_spec(),
    {
        let p = Piece {
            color: PieceColor::White,
            components: vec![
                SimplePiece::new(0, 90),
                SimplePiece::new(0, 80),
                SimplePiece::new(0, 70),
                SimplePiece::new(0, 60)
            ],
            min_y: 60,
            max_y: 90,
            center_x4: 0,
            center_y4: 300,
        };
        assert(p@.cells =~= long_spec().cells);
        p
    }

    /// A 2 by 2 block.
    pub fn square() -> (p: Piece)
        ensures
            p@ == square_spec(),
    {
        let p = Piece {
            color: PieceColor::White,
            components: vec![
                SimplePiece::new(0, 90),
                SimplePiece::new(10, 90),
                SimplePiece::new(0, 80),
                SimplePiece::new(10, 80)
            ],
            min_y: 80,
            max_y: 90,
            center_x4: 0,
            center_y4: 340,
        };
        assert(p@.cells =~= square_spec().cells);
        p
    }

    /// Three in a row with one below the middle.
    pub fn t_piece() -> (p: Piece)
        ensures
            p@ == t_piece_spec(),
    {
        let p = Piece {
            color: PieceColor::White,
            components: vec![
                SimplePiece::new(0, 90),
                SimplePiece::new(-10, 90),
                SimplePiece::new(10, 90),
                SimplePiece::new(0, 80)
            ],
            min_y: 80,
            max_y: 90,
            center_x4: 0,
            center_y4: 340,
        };
        assert(p@.cells =~= t_piece_spec().cells);
        p
    }

    /// A column of three with a foot to the right.
    pub fn l_piece() -> (p: Piece)
        ensures
            p@ == l_piece_spec(),
    {
        let p = Piece {
            color: PieceColor::White,
            components: vec![
                SimplePiece::new(0, 90),
                SimplePiece::new(0, 80),
                SimplePiece::new(0, 70),
                SimplePiece::new(10, 70)
            ],
            min_y: 70,
            max_y: 90,
            center_x4: 0,
            center_y4: 320,
        };
        assert(p@.cells =~= l_piece_spec().cells);
        p
    }

    /// A column of three with a foot to the left.
    pub fn inverted_l_piece() -> (p: Piece)
        ensures
            p@ == inverted_l_piece_spec(),
    {
        let p = Piece {
            color: PieceColor::White,
            components: vec![
                SimplePiece::new(0, 90),
                SimplePiece::new(0, 80),
                SimplePiece::new(0, 70),
                SimplePiece::new(-10, 70)
            ],
            min_y: 70,
            max_y: 90,
            center_x4: 0,
            center_y4: 320,
        };
        assert(p@.cells =~= inverted_l_piece_spec().cells);
        p
    }

    /// Two on top shifted left of two below.
    pub fn z_piece() -> (p: Piece)
        ensures
            p@ == z_piece_spec(),
    {
        let p = Piece {
            color: PieceColor::White,
            components: vec![
                SimplePiece::new(-10, 90),
                SimplePiece::new(0, 90),
                SimplePiece::new(0, 80),
                SimplePiece::new(10, 80)
            ],
            min_y: 80,
            max_y: 90,
            center_x4: 0,
            center_y4: 360,
        };
        assert(p@.cells =~= z_piece_spec().cells);
        p
    }

    /// Two below shifted left of two on top.
    pub fn inverted_z_piece() -> (p: Piece)
        ensures
            p@ == inverted_z_piece_spec(),
    {
        let p = Piece {
            color: PieceColor::White,
            components: vec![
                SimplePiece::new(-10, 80),
                SimplePiece::new(0, 80),
                SimplePiece::new(0, 90),
                SimplePiece::new(10, 90)
            ],
            min_y: 80,
            max_y: 90,
            center_x4: 0,
            center_y4: 360,
        };
        assert(p@.cells =~= inverted_z_piece_spec().cells);
        p
    }

    /// The whole row at height `y`: fourteen squares from x = -70 to x = 60.
    pub fn whole_line(y: i64) -> (p: Piece)
        requires
            within(y as int, piece_limit()),
        ensures
            p@ == whole_line_spec(y as int),
    {
        let mut components: Vec<SimplePiece> = Vec::new();
        let mut k: i64 = 0;
        while k < 14
            invariant
                0 <= k <= 14,
                within(y as int, piece_limit()),
                components@.len() == k,
                cells_of(components@) =~= Seq::new(k as nat, |j: int| square_at(-70 + 10 * j, y as int)),
            decreases 14 - k,
        {
            let ghost before = components@;
            components.push(SimplePiece::new(-70 + 10 * k, y));
            assert(components@ == before.push(components@[k as int]));
            assert(cells_of(components@) =~= cells_of(before).push(square_at(-70 + 10 * k, y as int)));
            k = k + 1;
        }
        Piece { color: PieceColor::White, components, min_y: y, max_y: y, center_x4: 20, center_y4: 4 * (y + 5) }
    }

    /// A piece of no squares.
    pub fn placeholder() -> (p: Piece)
        ensures
            p@ == placeholder_spec(),
    {
        let p = Piece {
            color: PieceColor::White,
            components: Vec::new(),
            min_y: 0,
            max_y: 0,
            center_x4: 0,
            center_y4: 0,
        };
        assert(p@.cells =~= Seq::<Cell>::empty());
        p
    }
}

// ---------------------------------------------------------------------
// Extremes and rotation
// ---------------------------------------------------------------------

pub open spec fn min_int(a: int, b: int) -> int {
    if a <= b { a } else { b }
}

pub open spec fn max_int(a: int, b: int) -> int {
    if a >= b { a } else { b }
}

/// The lowest `y` among the squares (of a non-empty sequence).
pub open spec fn lowest_y(cells: Seq<Cell>) -> int
    decreases cells.len(),
{
    if cells.len() <= 1 {
        cells[0].y
    } else {
        min_int(lowest_y(cells.drop_last()), cells.last().y)
    }
}

/// The highest `y` among the squares (of a non-empty sequence).
pub open spec fn highest_y(cells: Seq<Cell>) -> int
    decreases cells.len(),
{
    if cells.len() <= 1 {
        cells[0].y
    } else {
        max_int(highest_y(cells.drop_last()), cells.last().y)
    }
}

/// The lowest `x` among the squares (of a non-empty sequence).
pub open spec fn lowest_x(cells: Seq<Cell>) -> int
    decreases cells.len(),
{
    if cells.len() <= 1 {
        cells[0].x
    } else {
        min_int(lowest_x(cells.drop_last()), cells.last().x)
    }
}

/// The highest `x` among the squares (of a non-empty sequence).
pub open spec fn highest_x(cells: Seq<Cell>) -> int
    decreases cells.len(),
{
    if cells.len() <= 1 {
        cells[0].x
    } else {
        max_int(highest_x(cells.drop_last()), cells.last().x)
    }
}

/// The extremes lie among the squares' coordinates and bound them.
pub proof fn lemma_extremes(cells: Seq<Cell>)
    requires
        cells.len() > 0,
    ensures
        exists|k: int| 0 <= k < cells.len() && #[trigger] cells[k].y == lowest_y(cells),
        exists|k: int| 0 <= k < cells.len() && #[trigger] cells[k].y == highest_y(cells),
        exists|k: int| 0 <= k < cells.len() && #[trigger] cells[k].x == lowest_x(cells),
        exists|k: int| 0 <= k < cells.len() && #[trigger] cells[k].x == highest_x(cells),
        forall|k: int| 0 <= k < cells.len() ==> lowest_y(cells) <= #[trigger] cells[k].y <= highest_y(cells),
        forall|k: int| 0 <= k < cells.len() ==> lowest_x(cells) <= #[trigger] cells[k].x <= highest_x(cells),
    decreases cells.len(),
{
    if cells.len() > 1 {
        let init = cells.drop_last();
        lemma_extremes(init);
        let last = cells.len() - 1;
        assert forall|k: int| 0 <= k < cells.len() implies lowest_y(cells) <= #[trigger] cells[k].y <= highest_y(cells) by {
            if k < last {
                assert(init[k] == cells[k]);
            }
        }
        assert forall|k: int| 0 <= k < cells.len() implies lowest_x(cells) <= #[trigger] cells[k].x <= highest_x(cells) by {
            if k < last {
                assert(init[k] == cells[k]);
            }
        }
        let k1 = choose|k: int| 0 <= k < init.len() && #[trigger] init[k].y == lowest_y(init);
        let k2 = choose|k: int| 0 <= k < init.len() && #[trigger] init[k].y == highest_y(init);
        let k3 = choose|k: int| 0 <= k < init.len() && #[trigger] init[k].x == lowest_x(init);
        let k4 = choose|k: int| 0 <= k < init.len() && #[trigger] init[k].x == highest_x(init);
        assert(init[k1] == cells[k1]);
        assert(init[k2] == cells[k2]);
        assert(init[k3] == cells[k3]);
        assert(init[k4] == cells[k4]);
        assert(cells[last] == cells.last());
    } else {
        assert(cells[0].y == lowest_y(cells));
        assert(cells[0].y == highest_y(cells));
        assert(cells[0].x == lowest_x(cells));
        assert(cells[0].x == highest_x(cells));
    }
}

/// A quarter-pixel value rounded to whole pixels, halves away from zero.
pub open spec fn round_quarter(v4: int) -> int {
    if v4 >= 0 {
        (v4 + 2) / 4
    } else {
        -((-v4 + 2) / 4)
    }
}

/// Whole tens of `r`, dropping the rest toward zero.
pub open spec fn tens(r: int) -> int {
    if r >= 0 {
        r / 10
    } else {
        -((-r) / 10)
    }
}

/// How far a quarter-pixel value lies past the multiple of ten, toward
/// zero, of its rounded value: the offset that brings it onto the grid.
pub open spec fn round_to_tenths_spec(v4: int) -> int {
    v4 - 40 * tens(round_quarter(v4))
}

/// A quarter turn counter-clockwise about the piece's centre, then a
/// shift that puts its lowest and leftmost squares back on the grid.
/// The squares' own centres only take the shift, and the piece's new
/// centre is the mean of the squares' centres before the shift.
pub open spec fn rotate_spec(p: PieceModel) -> PieceModel {
    let cs = p.cells;
    let cx4 = p.center_x4;
    let cy4 = p.center_y4;
    let x_diff4 = round_to_tenths_spec(cx4 + cy4 - 4 * highest_y(cs));
    let y_diff4 = round_to_tenths_spec(4 * lowest_x(cs) - cx4 + cy4);
    PieceModel {
        color: p.color,
        cells: Seq::new(
            cs.len(),
            |i: int|
                Cell {
                    x: (cx4 + cy4 - 4 * cs[i].y - x_diff4) / 4,
                    y: (4 * cs[i].x - cx4 + cy4 - y_diff4) / 4,
                    width: cs[i].width,
                    height: cs[i].height,
                    center_x4: cs[i].center_x4 - x_diff4,
                    center_y4: cs[i].center_y4 - y_diff4,
                },
        ),
        min_y: (4 * lowest_x(cs) - cx4 + cy4 - y_diff4) / 4,
        max_y: (4 * highest_x(cs) - cx4 + cy4 - y_diff4) / 4,
        center_x4: center_of(cs).0,
        center_y4: center_of(cs).1,
    }
}

/// The offset that puts a quarter-pixel value onto the grid of tens:
/// the value less the multiple of ten, toward zero, of its rounding.
pub fn round_to_tenths(num4: i64) -> (r: i64)
    requires
        within(num4 as int, 0x4000_0000_0000_0000),
    ensures
        r == round_to_tenths_spec(num4 as int),
        -42 <= r <= 42,
{
    num4 - 40 * grid_tens(num4)
}

/// Whole tens of the rounding of a quarter-pixel value.
fn grid_tens(num4: i64) -> (t: i64)
    requires
        within(num4 as int, 0x4000_0000_0000_0000),
    ensures
        t == tens(round_quarter(num4 as int)),
        -42 <= num4 - 40 * t <= 42,
{
    let rounded: i64 = if num4 >= 0 { (num4 + 2) / 4 } else { -((-num4 + 2) / 4) };
    if rounded >= 0 { rounded / 10 } else { -((-rounded) / 10) }
}

/// The lowest `y` of the squares; `None` (no finite lowest) when there are none.
pub fn get_min_y(squares: Vec<SimplePiece>) -> (r: Option<i64>)
    ensures
        r is None <==> squares@.len() == 0,
        r matches Some(v) ==> v == lowest_y(cells_of(squares@)),
{
    if squares.len() == 0 {
        return None;
    }
    let ghost cells = cells_of(squares@);
    let mut min = squares[0].y;
    let mut i: usize = 1;
    assert(cells.subrange(0, 1).len() == 1);
    while i < squares.len()
        invariant
            cells == cells_of(squares@),
            1 <= i <= squares@.len(),
            min == lowest_y(cells.subrange(0, i as int)),
        decreases squares@.len() - i,
    {
        proof { lemma_cells_prefix(squares@, i as int); }
        if squares[i].y < min {
            min = squares[i].y;
        }
        i = i + 1;
    }
    assert(cells.subrange(0, squares@.len() as int) == cells);
    Some(min)
}

/// The highest `y` of the squares; `None` (no finite highest) when there are none.
pub fn get_max_y(squares: Vec<SimplePiece>) -> (r: Option<i64>)
    ensures
        r is None <==> squares@.len() == 0,
        r matches Some(v) ==> v == highest_y(cells_of(squares@)),
{
    if squares.len() == 0 {
        return None;
    }
    let ghost cells = cells_of(squares@);
    let mut max = squares[0].y;
    let mut i: usize = 1;
    assert(cells.subrange(0, 1).len() == 1);
    while i < squares.len()
        invariant
            cells == cells_of(squares@),
            1 <= i <= squares@.len(),
            max == highest_y(cells.subrange(0, i as int)),
        decreases squares@.len() - i,
    {
        proof { lemma_cells_prefix(squares@, i as int); }
        if squares[i].y > max {
            max = squares[i].y;
        }
        i = i + 1;
    }
    assert(cells.subrange(0, squares@.len() as int) == cells);
    Some(max)
}

/// The lowest `x` of the squares; `None` (no finite lowest) when there are none.
pub fn get_min_x(squares: Vec<SimplePiece>) -> (r: Option<i64>)
    ensures
        r is None <==> squares@.len() == 0,
        r matches Some(v) ==> v == lowest_x(cells_of(squares@)),
{
    if squares.len() == 0 {
        return None;
    }
    let ghost cells = cells_of(squares@);
    let mut min = squares[0].x;
    let mut i: usize = 1;
    assert(cells.subrange(0, 1).len() == 1);
    while i < squares.len()
        invariant
            cells == cells_of(squares@),
            1 <= i <= squares@.len(),
            min == lowest_x(cells.subrange(0, i as int)),
        decreases squares@.len() - i,
    {
        proof { lemma_cells_prefix(squares@, i as int); }
        if squares[i].x < min {
            min = squares[i].x;
        }
        i = i + 1;
    }
    assert(cells.subrange(0, squares@.len() as int) == cells);
    Some(min)
}

/// The highest `x` of the squares; `None` when there are none.
fn get_max_x(squares: Vec<SimplePiece>) -> (r: Option<i64>)
    ensures
        r is None <==> squares@.len() == 0,
        r matches Some(v) ==> v == highest_x(cells_of(squares@)),
{
    if squares.len() == 0 {
        return None;
    }
    let ghost cells = cells_of(squares@);
    let mut max = squares[0].x;
    let mut i: usize = 1;
    assert(cells.subrange(0, 1).len() == 1);
    while i < squares.len()
        invariant
            cells == cells_of(squares@),
            1 <= i <= squares@.len(),
            max == highest_x(cells.subrange(0, i as int)),
        decreases squares@.len() - i,
    {
        proof { lemma_cells_prefix(squares@, i as int); }
        if squares[i].x > max {
            max = squares[i].x;
        }
        i = i + 1;
    }
    assert(cells.subrange(0, squares@.len() as int) == cells);
    Some(max)
}

impl Piece {
    /// A quarter turn about the piece's centre, snapped back onto the grid
    /// (see `rotate_spec`).
    pub fn rotate(&mut self)
        requires
            old(self)@.cells.len() > 0,
            old(self)@.within(piece_limit()),
        ensures
            final(self)@ == rotate_spec(old(self)@),
    {
        let ghost p = self@;
        proof {
            lemma_extremes(p.cells);
            self.lemma_components_within();
        }
        let hy = match get_max_y(self.components.clone()) {
            Some(v) => v,
            None => { return; },
        };
        let lx = match get_min_x(self.components.clone()) {
            Some(v) => v,
            None => { return; },
        };
        let hx = match get_max_x(self.components.clone()) {
            Some(v) => v,
            None => { return; },
        };
        proof {
            let ky = choose|k: int| 0 <= k < p.cells.len() && #[trigger] p.cells[k].y == highest_y(p.cells);
            let kx = choose|k: int| 0 <= k < p.cells.len() && #[trigger] p.cells[k].x == lowest_x(p.cells);
            let kh = choose|k: int| 0 <= k < p.cells.len() && #[trigger] p.cells[k].x == highest_x(p.cells);
            assert(p.cells[ky].within(piece_limit()));
            assert(p.cells[kx].within(piece_limit()));
            assert(p.cells[kh].within(piece_limit()));
        }
        let cx4 = self.center_x4;
        let cy4 = self.center_y4;
        let a4 = cx4 + cy4 - 4 * hy;
        let b4 = 4 * lx - cx4 + cy4;
        let tx = grid_tens(a4);
        let ty = grid_tens(b4);
        let x_diff4 = round_to_tenths(a4);
        let y_diff4 = round_to_tenths(b4);
        let squares = self.components.clone();
        assert(squares@ =~= self.components@);
        assert forall|k: int| 0 <= k < squares@.len() implies #[trigger] squares@[k]@.within(2 * piece_limit()) by {
            assert(p.cells[k] == squares@[k]@);
            assert(p.cells[k].within(piece_limit()));
        }
        let center = get_center(squares);
        let mut rotated: Vec<SimplePiece> = Vec::new();
        let mut i: usize = 0;
        while i < self.components.len()
            invariant
                p == self@,
                p.within(piece_limit()),
                p.cells.len() > 0,
                forall|k: int| 0 <= k < p.cells.len() ==> lowest_y(p.cells) <= #[trigger] p.cells[k].y <= highest_y(p.cells),
                forall|k: int| 0 <= k < p.cells.len() ==> lowest_x(p.cells) <= #[trigger] p.cells[k].x <= highest_x(p.cells),
                hy == highest_y(p.cells),
                lx == lowest_x(p.cells),
                a4 == cx4 + cy4 - 4 * hy,
                b4 == 4 * lx - cx4 + cy4,
                cx4 == p.center_x4,
                cy4 == p.center_y4,
                tx == tens(round_quarter(a4 as int)),
                ty == tens(round_quarter(b4 as int)),
                x_diff4 == a4 - 40 * tx,
                y_diff4 == b4 - 40 * ty,
                -42 <= x_diff4 <= 42,
                -42 <= y_diff4 <= 42,
                within(hy as int, piece_limit()),
                within(lx as int, piece_limit()),
                i <= p.cells.len(),
                rotated@.len() == i,
                forall|k: int| 0 <= k < i ==> #[trigger] rotated@[k]@ == (Cell {
                    x: (cx4 + cy4 - 4 * p.cells[k].y - x_diff4) / 4,
                    y: (4 * p.cells[k].x - cx4 + cy4 - y_diff4) / 4,
                    width: p.cells[k].width,
                    height: p.cells[k].height,
                    center_x4: p.cells[k].center_x4 - x_diff4,
                    center_y4: p.cells[k].center_y4 - y_diff4,
                }),
            decreases p.cells.len() - i,
        {
            let c = self.components[i];
            assert(p.cells[i as int] == c@);
            assert(p.cells[i as int].within(piece_limit()));
            let nx = hy - c.y + 10 * tx;
            let ny = c.x - lx + 10 * ty;
            assert(nx == (cx4 + cy4 - 4 * c.y - x_diff4) / 4);
            assert(ny == (4 * c.x - cx4 + cy4 - y_diff4) / 4);
            rotated.push(SimplePiece {
                x: nx,
                y: ny,
                width: c.width,
                height: c.height,
                center_x4: c.center_x4 - x_diff4,
                center_y4: c.center_y4 - y_diff4,
            });
            i = i + 1;
        }
        assert(10 * ty == (4 * lx - cx4 + cy4 - y_diff4) / 4);
        assert(hx - lx + 10 * ty == (4 * hx - cx4 + cy4 - y_diff4) / 4);
        self.components = rotated;
        self.min_y = 10 * ty;
        self.max_y = hx - lx + 10 * ty;
        self.center_x4 = center.0;
        self.center_y4 = center.1;
        assert(self@.cells =~= rotate_spec(p).cells);
    }
}

/// The value of a row or column converted to `i8`, saturating at the
/// ends of its range as a float-to-integer cast does.
pub fn saturate_i8(v: i64) -> (r: i64)
    ensures
        r == clamp_i8(v as int),
{
    if v < -128 {
        -128
    } else if v > 127 {
        127
    } else {
        v
    }
}

// ---------------------------------------------------------------------
// How far the operations can carry a piece
// ---------------------------------------------------------------------

pub proof fn lemma_sums_within(cells: Seq<Cell>, b: int)
    requires
        b >= 0,
        forall|i: int| 0 <= i < cells.len() ==> #[trigger] cells[i].within(b),
    ensures
        -(cells.len() * (4 * b)) <= sum_x4(cells) <= cells.len() * (4 * b),
        -(cells.len() * (4 * b)) <= sum_y4(cells) <= cells.len() * (4 * b),
    decreases cells.len(),
{
    if cells.len() > 0 {
        let init = cells.drop_last();
        assert forall|i: int| 0 <= i < init.len() implies #[trigger] init[i].within(b) by {
            assert(init[i] == cells[i]);
        }
        lemma_sums_within(init, b);
        assert(cells.last() == cells[cells.len() - 1]);
        assert(cells.last().within(b));
        assert(init.len() * (4 * b) + 4 * b == cells.len() * (4 * b)) by (nonlinear_arith)
            requires
                init.len() + 1 == cells.len(),
        ;
    }
}

/// The centre of squares within `b` lies within `b`.
pub proof fn lemma_center_within(cells: Seq<Cell>, b: int)
    requires
        b >= 0,
        forall|i: int| 0 <= i < cells.len() ==> #[trigger] cells[i].within(b),
    ensures
        within(center_of(cells).0, 4 * b),
        within(center_of(cells).1, 4 * b),
{
    if cells.len() > 0 {
        lemma_sums_within(cells, b);
        lemma_mean_within(sum_x4(cells), cells.len() as int, 4 * b);
        lemma_mean_within(sum_y4(cells), cells.len() as int, 4 * b);
    }
}

pub proof fn lemma_within_mono(p: PieceModel, b1: int, b2: int)
    requires
        p.within(b1),
        b1 <= b2,
    ensures
        p.within(b2),
{
    assert forall|i: int| 0 <= i < p.cells.len() implies #[trigger] p.cells[i].within(b2) by {
        assert(p.cells[i].within(b1));
    }
}

pub proof fn lemma_set_center_within(p: PieceModel, b: int)
    requires
        p.within(b),
        b >= 0,
    ensures
        set_center_spec(p).within(b),
{
    lemma_center_within(p.cells, b);
}

proof fn lemma_shift_within(p: PieceModel, dx: int, dy: int, b: int)
    requires
        p.within(b),
        b >= 0,
        -10 <= dx <= 10,
        -10 <= dy <= 10,
    ensures
        forall|i: int| 0 <= i < shift_cells(p.cells, dx, dy).len() ==> #[trigger] shift_cells(p.cells, dx, dy)[i].within(b + 10),
{
    assert forall|i: int| 0 <= i < shift_cells(p.cells, dx, dy).len() implies #[trigger] shift_cells(p.cells, dx, dy)[i].within(b + 10) by {
        assert(p.cells[i].within(b));
    }
}

/// A move takes a piece at most one step (10 pixels) further out.
pub proof fn lemma_moves_within(p: PieceModel, force: bool, b: int)
    requires
        p.within(b),
        b >= 0,
    ensures
        move_right_spec(p, force).within(b + 10),
        move_left_spec(p, force).within(b + 10),
        move_down_spec(p).within(b + 10),
        move_up_spec(p).within(b + 10),
{
    lemma_within_mono(p, b, b + 10);
    lemma_shift_within(p, 10, 0, b);
    lemma_shift_within(p, -10, 0, b);
    lemma_shift_within(p, 0, -10, b);
    lemma_shift_within(p, 0, 10, b);
    lemma_center_within(shift_cells(p.cells, 10, 0), b + 10);
    lemma_center_within(shift_cells(p.cells, -10, 0), b + 10);
    lemma_center_within(shift_cells(p.cells, 0, -10), b + 10);
    lemma_center_within(shift_cells(p.cells, 0, 10), b + 10);
}

pub proof fn lemma_round_to_tenths_small(v4: int)
    ensures
        -42 <= round_to_tenths_spec(v4) <= 42,
{
}

/// A turn takes a piece within `b` to within `3 b + 11`.
pub proof fn lemma_rotate_within(p: PieceModel, b: int)
    requires
        p.within(b),
        p.cells.len() > 0,
        b >= 0,
    ensures
        rotate_spec(p).within(3 * b + 11),
{
    let cs = p.cells;
    lemma_extremes(cs);
    let ky = choose|k: int| 0 <= k < cs.len() && #[trigger] cs[k].y == highest_y(cs);
    let kx = choose|k: int| 0 <= k < cs.len() && #[trigger] cs[k].x == lowest_x(cs);
    let kh = choose|k: int| 0 <= k < cs.len() && #[trigger] cs[k].x == highest_x(cs);
    assert(cs[ky].within(b));
    assert(cs[kx].within(b));
    assert(cs[kh].within(b));
    let cx4 = p.center_x4;
    let cy4 = p.center_y4;
    let xd = round_to_tenths_spec(cx4 + cy4 - 4 * highest_y(cs));
    let yd = round_to_tenths_spec(4 * lowest_x(cs) - cx4 + cy4);
    lemma_round_to_tenths_small(cx4 + cy4 - 4 * highest_y(cs));
    lemma_round_to_tenths_small(4 * lowest_x(cs) - cx4 + cy4);
    let q = rotate_spec(p);
    assert forall|i: int| 0 <= i < q.cells.len() implies #[trigger] q.cells[i].within(3 * b + 11) by {
        assert(cs[i].within(b));
    }
    lemma_center_within(cs, b);
}

/// Where a turn puts each square, in whole pixels.
pub proof fn lemma_rotation_positions(p: PieceModel, i: int)
    requires
        p.cells.len() > 0,
        0 <= i < p.cells.len(),
    ensures
        ({
            let tx = tens(round_quarter(p.center_x4 + p.center_y4 - 4 * highest_y(p.cells)));
            let ty = tens(round_quarter(4 * lowest_x(p.cells) - p.center_x4 + p.center_y4));
            &&& rotate_spec(p).cells.len() == p.cells.len()
            &&& rotate_spec(p).cells[i].x == highest_y(p.cells) - p.cells[i].y + 10 * tx
            &&& rotate_spec(p).cells[i].y == p.cells[i].x - lowest_x(p.cells) + 10 * ty
            &&& rotate_spec(p).min_y == 10 * ty
            &&& rotate_spec(p).max_y == highest_x(p.cells) - lowest_x(p.cells) + 10 * ty
        }),
{
}

} // verus!
