//! The game: the falling piece, the next one, the stack of landed pieces,
//! the score, and the rules that move them.
use vstd::prelude::*;
use crate::debug;
use crate::debug::{LogEntry, Logger};
use crate::piece;
use crate::piece::{Cell, Piece, PieceColor, PieceModel, SimplePiece};

verus! {

/// The running game.
#[derive(Debug)]
pub struct App {
    pub score: u64,
    pub highscore: u64,
    pub exit: bool,
    pub on_pause: bool,
    pub dead: bool,
    pub current_piece: Piece,
    pub pieces: Vec<Piece>,
    pub next_piece: Piece,
    pub logger: Logger,
}

/// The mathematical value of the game.
#[verifier::ext_equal]
pub struct AppModel {
    pub score: int,
    pub highscore: int,
    pub exit: bool,
    pub on_pause: bool,
    pub dead: bool,
    pub current: PieceModel,
    pub pieces: Seq<PieceModel>,
    pub next: PieceModel,
}

pub open spec fn pieces_of(v: Seq<Piece>) -> Seq<PieceModel> {
    v.map_values(|p: Piece| p@)
}

impl View for App {
    type V = AppModel;

    open spec fn view(&self) -> AppModel {
        AppModel {
            score: self.score as int,
            highscore: self.highscore as int,
            exit: self.exit,
            on_pause: self.on_pause,
            dead: self.dead,
            current: self.current_piece@,
            pieces: pieces_of(self.pieces@),
            next: self.next_piece@,
        }
    }
}

// ---------------------------------------------------------------------
// Collisions
// ---------------------------------------------------------------------

/// Some landed piece covers the place of `c`.
pub open spec fn hits(pieces: Seq<PieceModel>, c: Cell) -> bool {
    exists|j: int| 0 <= j < pieces.len() && piece::covers(#[trigger] pieces[j], c)
}

/// Some square of `p` is at the place of a landed piece's square.
pub open spec fn collides(pieces: Seq<PieceModel>, p: PieceModel) -> bool {
    exists|i: int| 0 <= i < p.cells.len() && hits(pieces, #[trigger] p.cells[i])
}

/// Every square of the row at height `row` is covered by a landed piece.
pub open spec fn row_full(pieces: Seq<PieceModel>, row: int) -> bool {
    forall|k: int| 0 <= k < 14 ==> hits(pieces, #[trigger] piece::whole_line_spec(row).cells[k])
}

// ---------------------------------------------------------------------
// Moving the falling piece
// ---------------------------------------------------------------------

pub open spec fn with_current(a: AppModel, p: PieceModel) -> AppModel {
    AppModel { current: p, ..a }
}

/// The falling piece goes one row down unless that would put a square on
/// a landed one.
pub open spec fn move_current_down_spec(a: AppModel) -> AppModel {
    let moved = piece::move_down_spec(a.current);
    if !collides(a.pieces, moved) {
        with_current(a, moved)
    } else {
        a
    }
}

/// The falling piece goes one column left unless that would put a square
/// on a landed one or off the field.
pub open spec fn move_current_left_spec(a: AppModel) -> AppModel {
    let moved = piece::move_left_spec(a.current, false);
    if !(collides(a.pieces, moved) || piece::outside_field(moved)) {
        with_current(a, moved)
    } else {
        a
    }
}

/// The falling piece goes one column right unless that would put a square
/// on a landed one or off the field.
pub open spec fn move_current_right_spec(a: AppModel) -> AppModel {
    let moved = piece::move_right_spec(a.current, false);
    if !(collides(a.pieces, moved) || piece::outside_field(moved)) {
        with_current(a, moved)
    } else {
        a
    }
}

/// The falling piece turns unless that would put a square on a landed one
/// or off the field.
pub open spec fn rotate_current_spec(a: AppModel) -> AppModel {
    let turned = piece::rotate_spec(a.current);
    if !(collides(a.pieces, turned) || piece::outside_field(turned)) {
        with_current(a, turned)
    } else {
        a
    }
}

/// The falling piece rests: one row further down it would meet a landed
/// piece, or it is in the bottom row.
pub open spec fn at_bottom(a: AppModel) -> bool {
    collides(a.pieces, piece::move_down_spec(a.current)) || a.current.min_y == -90
}

// ---------------------------------------------------------------------
// Clearing rows
// ---------------------------------------------------------------------

/// The squares of `cells` outside the row at `row` (rows compared as `i8`).
pub open spec fn off_row(cells: Seq<Cell>, row: int) -> Seq<Cell>
    decreases cells.len(),
{
    if cells.len() == 0 {
        cells
    } else if piece::clamp_i8(cells.last().y) != row {
        off_row(cells.drop_last(), row).push(cells.last())
    } else {
        off_row(cells.drop_last(), row)
    }
}

/// A landed piece loses its squares in row `row`, unless its recorded
/// extent says it does not reach that row.
pub open spec fn trim_spec(p: PieceModel, row: int) -> PieceModel {
    if piece::clamp_i8(p.max_y) < row || piece::clamp_i8(p.min_y) > row {
        p
    } else {
        PieceModel { cells: off_row(p.cells, row), ..p }
    }
}

pub open spec fn delete_row_spec(pieces: Seq<PieceModel>, row: int) -> Seq<PieceModel> {
    Seq::new(pieces.len(), |j: int| trim_spec(pieces[j], row))
}

/// A square at or above `row` drops by one row.
pub open spec fn drop_cell(c: Cell, row: int) -> Cell {
    if piece::clamp_i8(c.y) < row {
        c
    } else {
        Cell { y: c.y - 10, ..c }
    }
}

pub open spec fn fall_spec(p: PieceModel, row: int) -> PieceModel {
    PieceModel { cells: Seq::new(p.cells.len(), |i: int| drop_cell(p.cells[i], row)), ..p }
}

/// Every landed square at or above `row` drops by one row.
pub open spec fn gravity_spec(pieces: Seq<PieceModel>, row: int) -> Seq<PieceModel> {
    Seq::new(pieces.len(), |j: int| fall_spec(pieces[j], row))
}

/// Gravity for each of `rows`, the last first.
pub open spec fn settle(pieces: Seq<PieceModel>, rows: Seq<int>) -> Seq<PieceModel>
    decreases rows.len(),
{
    if rows.len() == 0 {
        pieces
    } else {
        settle(gravity_spec(pieces, rows.last()), rows.drop_last())
    }
}

/// Scans the rows `row, row + 10, ...` up to `hi`: each full one is
/// deleted at once, scores 1000 and is noted in `deleted`.
pub open spec fn scan_rows(
    pieces: Seq<PieceModel>,
    score: int,
    deleted: Seq<int>,
    row: int,
    hi: int,
) -> (Seq<PieceModel>, int, Seq<int>)
    decreases hi + 10 - row,
{
    if row > hi {
        (pieces, score, deleted)
    } else if row_full(pieces, row) {
        scan_rows(delete_row_spec(pieces, row), score + 1000, deleted.push(row), row + 10, hi)
    } else {
        scan_rows(pieces, score, deleted, row + 10, hi)
    }
}

/// Clears the full rows from `min` to `max` (as `i8`, every tenth): they
/// go, score 1000 each and 1000 more each when more than one went, and
/// what was above them drops, the highest cleared row first.
pub open spec fn row_clear_spec(a: AppModel, min: int, max: int) -> AppModel {
    let scanned = scan_rows(a.pieces, a.score, Seq::empty(), piece::clamp_i8(min), piece::clamp_i8(max));
    let deleted = scanned.2;
    let score = if deleted.len() > 1 { scanned.1 + 1000 * deleted.len() } else { scanned.1 };
    AppModel { pieces: settle(scanned.0, deleted), score, ..a }
}

// ---------------------------------------------------------------------
// State flags
// ---------------------------------------------------------------------

pub open spec fn highscore_spec(a: AppModel) -> AppModel {
    if a.score > a.highscore {
        AppModel { highscore: a.score, ..a }
    } else {
        a
    }
}

/// The game is lost once a landed piece's recorded top reaches row 80.
pub open spec fn is_dead_spec(a: AppModel) -> AppModel {
    if exists|j: int| 0 <= j < a.pieces.len() && #[trigger] a.pieces[j].max_y >= 80 {
        AppModel { dead: true, ..a }
    } else {
        a
    }
}

// ---------------------------------------------------------------------
// Collision checks
// ---------------------------------------------------------------------

/// Whether some landed piece covers the place of `c`.
fn blocked_by_any(pieces: &Vec<Piece>, c: &SimplePiece) -> (r: bool)
    ensures
        r == hits(pieces_of(pieces@), c@),
{
    let ghost ps = pieces_of(pieces@);
    let mut j: usize = 0;
    while j < pieces.len()
        invariant
            ps == pieces_of(pieces@),
            j <= pieces@.len(),
            forall|k: int| 0 <= k < j ==> !piece::covers(#[trigger] ps[k], c@),
        decreases pieces@.len() - j,
    {
        if pieces[j].is_blocked(c) {
            assert(piece::covers(ps[j as int], c@));
            return true;
        }
        j = j + 1;
    }
    false
}

/// Whether some square of `p` is at the place of a landed piece's square.
fn collides_with_stack(pieces: &Vec<Piece>, p: &Piece) -> (r: bool)
    ensures
        r == collides(pieces_of(pieces@), p@),
{
    let mut i: usize = 0;
    while i < p.components.len()
        invariant
            i <= p.components@.len(),
            forall|k: int| 0 <= k < i ==> !hits(pieces_of(pieces@), #[trigger] p@.cells[k]),
        decreases p.components@.len() - i,
    {
        if blocked_by_any(pieces, &p.components[i]) {
            assert(hits(pieces_of(pieces@), p@.cells[i as int]));
            return true;
        }
        i = i + 1;
    }
    false
}

/// Whether every square of the row at `row` is covered by a landed piece.
fn row_is_full(pieces: &Vec<Piece>, row: i64) -> (r: bool)
    requires
        piece::within(row as int, piece::piece_limit()),
    ensures
        r == row_full(pieces_of(pieces@), row as int),
{
    let line = Piece::whole_line(row);
    assert(line@.cells.len() == 14);
    assert(line.components@.len() == line@.cells.len());
    let mut k: usize = 0;
    while k < line.components.len()
        invariant
            line@ == piece::whole_line_spec(row as int),
            line.components@.len() == 14,
            k <= 14,
            forall|m: int| 0 <= m < k ==> hits(pieces_of(pieces@), #[trigger] piece::whole_line_spec(row as int).cells[m]),
        decreases 14 - k,
    {
        assert(line@.cells[k as int] == line.components@[k as int]@);
        if !blocked_by_any(pieces, &line.components[k]) {
            assert(!hits(pieces_of(pieces@), piece::whole_line_spec(row as int).cells[k as int]));
            return false;
        }
        k = k + 1;
    }
    true
}

impl App {
    /// One row down for the falling piece, unless a landed piece is in the way.
    pub fn move_current_down(&mut self)
        requires
            old(self)@.current.within(piece::piece_limit()),
        ensures
            final(self)@ == move_current_down_spec(old(self)@),
            final(self).logger == old(self).logger,
    {
        let mut current_piece = self.current_piece.clone();
        current_piece.move_down();
        if !collides_with_stack(&self.pieces, &current_piece) {
            self.current_piece.move_down();
        }
    }

    /// One column left for the falling piece, unless a landed piece or the
    /// edge is in the way.
    pub fn move_current_left(&mut self)
        requires
            old(self)@.current.within(piece::piece_limit()),
        ensures
            final(self)@ == move_current_left_spec(old(self)@),
            final(self).logger == old(self).logger,
    {
        let mut current_piece = self.current_piece.clone();
        current_piece.move_left(false);
        if !(collides_with_stack(&self.pieces, &current_piece) || current_piece.out_of_bounds()) {
            self.current_piece.move_left(false);
        }
    }

    /// One column right for the falling piece, unless a landed piece or the
    /// edge is in the way.
    pub fn move_current_right(&mut self)
        requires
            old(self)@.current.within(piece::piece_limit()),
        ensures
            final(self)@ == move_current_right_spec(old(self)@),
            final(self).logger == old(self).logger,
    {
        let mut current_piece = self.current_piece.clone();
        current_piece.move_right(false);
        if !(collides_with_stack(&self.pieces, &current_piece) || current_piece.out_of_bounds()) {
            self.current_piece.move_right(false);
        }
    }

    /// A quarter turn for the falling piece, unless the turned piece would
    /// meet a landed one or leave the field.
    pub fn rotate_current(&mut self)
        requires
            old(self)@.current.cells.len() > 0,
            old(self)@.current.within(piece::piece_limit()),
        ensures
            final(self)@ == rotate_current_spec(old(self)@),
            final(self).logger == old(self).logger,
    {
        let mut copy = self.current_piece.clone();
        copy.rotate();
        if !(collides_with_stack(&self.pieces, &copy) || copy.out_of_bounds()) {
            self.current_piece.rotate();
        }
    }

    /// Whether the falling piece has come to rest.
    pub fn current_piece_at_bottom(&self) -> (r: bool)
        requires
            self@.current.within(piece::piece_limit()),
        ensures
            r == at_bottom(self@),
    {
        let mut current_piece = self.current_piece.clone();
        current_piece.move_down();
        collides_with_stack(&self.pieces, &current_piece) || self.current_piece.min_y == -90
    }

    /// Raises the high score to the score when the score is higher.
    pub fn highscore(&mut self)
        ensures
            final(self)@ == highscore_spec(old(self)@),
            final(self).logger == old(self).logger,
    {
        if self.score > self.highscore {
            self.highscore = self.score;
        }
    }

    /// Asks the game to end.
    pub fn exit(&mut self)
        ensures
            final(self)@ == (AppModel { exit: true, ..old(self)@ }),
            final(self).logger == old(self).logger,
    {
        self.exit = true;
    }

    /// Pauses a running game, resumes a paused one.
    pub fn pause(&mut self)
        ensures
            final(self)@ == (AppModel { on_pause: !old(self)@.on_pause, ..old(self)@ }),
            final(self).logger == old(self).logger,
    {
        if self.on_pause {
            self.on_pause = false;
        } else {
            self.on_pause = true;
        }
    }

    /// Marks the game lost once a landed piece's recorded top reaches row 80.
    pub fn is_dead(&mut self)
        ensures
            final(self)@ == is_dead_spec(old(self)@),
            final(self).logger == old(self).logger,
    {
        let ghost a = self@;
        let mut j: usize = 0;
        while j < self.pieces.len()
            invariant
                self.logger == old(self).logger,
                a == self@,
                a == old(self)@,
                j <= self.pieces@.len(),
                forall|k: int| 0 <= k < j ==> #[trigger] a.pieces[k].max_y < 80,
            decreases self.pieces@.len() - j,
        {
            if self.pieces[j].max_y >= 80 {
                assert(a.pieces[j as int].max_y >= 80);
                self.dead = true;
                return;
            }
            j = j + 1;
        }
    }
}

// ---------------------------------------------------------------------
// Deleting rows and letting the stack fall
// ---------------------------------------------------------------------

pub open spec fn stack_within(pieces: Seq<PieceModel>, b: int) -> bool {
    forall|j: int| 0 <= j < pieces.len() ==> #[trigger] pieces[j].within(b)
}

spec fn clamp_last_differs(cells: Seq<Cell>, row: int) -> bool {
    piece::clamp_i8(cells.last().y) != row
}

/// Removing squares keeps a piece within the bound it was within.
proof fn lemma_off_row_within(cells: Seq<Cell>, row: int, b: int)
    requires
        forall|i: int| 0 <= i < cells.len() ==> #[trigger] cells[i].within(b),
    ensures
        forall|i: int| 0 <= i < off_row(cells, row).len() ==> #[trigger] off_row(cells, row)[i].within(b),
    decreases cells.len(),
{
    if cells.len() > 0 {
        let init = cells.drop_last();
        assert forall|i: int| 0 <= i < init.len() implies #[trigger] init[i].within(b) by {
            assert(init[i] == cells[i]);
        }
        lemma_off_row_within(init, row, b);
        assert(cells.last() == cells[cells.len() - 1]);
        let o = off_row(cells, row);
        let oi = off_row(init, row);
        if clamp_last_differs(cells, row) {
            assert(o == oi.push(cells.last()));
            assert forall|i: int| 0 <= i < o.len() implies #[trigger] o[i].within(b) by {
                if i < oi.len() {
                    assert(o[i] == oi[i]);
                }
            }
        } else {
            assert(o == oi);
        }
    }
}

pub proof fn lemma_trim_within(p: PieceModel, row: int, b: int)
    requires
        p.within(b),
    ensures
        trim_spec(p, row).within(b),
{
    lemma_off_row_within(p.cells, row, b);
}

/// Falling lowers a square by at most a row.
pub proof fn lemma_fall_within(p: PieceModel, row: int, b: int)
    requires
        p.within(b),
        b >= 0,
    ensures
        fall_spec(p, row).within(b + 10),
{
    let q = fall_spec(p, row);
    assert forall|i: int| 0 <= i < q.cells.len() implies #[trigger] q.cells[i].within(b + 10) by {
        assert(p.cells[i].within(b));
    }
}

/// `p` without its squares in row `row`, unless its recorded extent says it
/// does not reach that row.
fn trimmed(p: &Piece, row: i64) -> (r: Piece)
    ensures
        r@ == trim_spec(p@, row as int),
{
    if piece::saturate_i8(p.max_y) < row || piece::saturate_i8(p.min_y) > row {
        return p.clone();
    }
    let ghost cells = p@.cells;
    let mut kept: Vec<SimplePiece> = Vec::new();
    let mut i: usize = 0;
    while i < p.components.len()
        invariant
            cells == p@.cells,
            i <= p.components@.len(),
            piece::cells_of(kept@) == off_row(cells.subrange(0, i as int), row as int),
        decreases p.components@.len() - i,
    {
        proof {
            piece::lemma_cells_prefix(p.components@, i as int);
        }
        let c = p.components[i];
        let ghost before = kept@;
        if piece::saturate_i8(c.y) != row {
            kept.push(c);
            assert(piece::cells_of(kept@) =~= piece::cells_of(before).push(c@));
        }
        i = i + 1;
    }
    assert(cells.subrange(0, p.components@.len() as int) == cells);
    Piece {
        color: p.color,
        components: kept,
        min_y: p.min_y,
        max_y: p.max_y,
        center_x4: p.center_x4,
        center_y4: p.center_y4,
    }
}

/// `p` with each square at or above row `row` one row lower.
fn fallen(p: &Piece, row: i64) -> (r: Piece)
    requires
        p@.within(2 * piece::piece_limit()),
    ensures
        r@ == fall_spec(p@, row as int),
{
    let ghost cells = p@.cells;
    let mut out: Vec<SimplePiece> = Vec::new();
    let mut i: usize = 0;
    while i < p.components.len()
        invariant
            cells == p@.cells,
            p@.within(2 * piece::piece_limit()),
            i <= p.components@.len(),
            out@.len() == i,
            forall|k: int| 0 <= k < i ==> #[trigger] out@[k]@ == drop_cell(cells[k], row as int),
        decreases p.components@.len() - i,
    {
        let c = p.components[i];
        assert(cells[i as int] == c@);
        assert(cells[i as int].within(2 * piece::piece_limit()));
        if piece::saturate_i8(c.y) < row {
            out.push(c);
        } else {
            out.push(SimplePiece { y: c.y - 10, ..c });
        }
        i = i + 1;
    }
    let r = Piece {
        color: p.color,
        components: out,
        min_y: p.min_y,
        max_y: p.max_y,
        center_x4: p.center_x4,
        center_y4: p.center_y4,
    };
    assert(r@.cells =~= fall_spec(p@, row as int).cells);
    r
}

/// The log entry of deleting row `row`: the `Debug` text of
/// `deleting row at <row>`.
pub open spec fn deleting_row_entry(row: int) -> Seq<char> {
    debug::debug_text("deleting row at "@ + debug::decimal_text(row))
}

/// The log entry of a piece landing with its lowest row at `min_y`: the
/// `Debug` text of `piece at bottom, min y: <min_y>`.
pub open spec fn landing_entry(min_y: int) -> Seq<char> {
    debug::debug_text("piece at bottom, min y: "@ + debug::decimal_text(min_y))
}

impl App {
    /// Removes the squares in row `row` from every landed piece whose
    /// recorded extent reaches that row, and logs the text
    /// `deleting row at <row>`.
    pub fn delete_row(&mut self, row: i8)
        ensures
            final(self)@ == (AppModel { pieces: delete_row_spec(old(self)@.pieces, row as int), ..old(self)@ }),
            debug::appended(old(self).logger.log@, final(self).logger.log@, 1),
            final(self).logger.log@.last().entry@ == deleting_row_entry(row as int),
    {
        let message = debug::labelled("deleting row at ", row as i64);
        self.logger.push_string(message);
        let ghost ps = self@.pieces;
        let mut out: Vec<Piece> = Vec::new();
        let mut j: usize = 0;
        while j < self.pieces.len()
            invariant
                ps == pieces_of(self.pieces@),
                j <= self.pieces@.len(),
                out@.len() == j,
                forall|k: int| 0 <= k < j ==> #[trigger] out@[k]@ == trim_spec(ps[k], row as int),
            decreases self.pieces@.len() - j,
        {
            let t = trimmed(&self.pieces[j], row as i64);
            out.push(t);
            j = j + 1;
        }
        self.pieces = out;
        assert(self@.pieces =~= delete_row_spec(ps, row as int));
    }

    /// Every landed square at or above row `y` drops by one row.
    pub fn gravity(&mut self, y: i8)
        requires
            stack_within(old(self)@.pieces, 2 * piece::piece_limit()),
        ensures
            final(self)@ == (AppModel { pieces: gravity_spec(old(self)@.pieces, y as int), ..old(self)@ }),
            final(self).logger == old(self).logger,
    {
        let ghost ps = self@.pieces;
        let mut out: Vec<Piece> = Vec::new();
        let mut j: usize = 0;
        while j < self.pieces.len()
            invariant
                ps == pieces_of(self.pieces@),
                stack_within(ps, 2 * piece::piece_limit()),
                j <= self.pieces@.len(),
                out@.len() == j,
                forall|k: int| 0 <= k < j ==> #[trigger] out@[k]@ == fall_spec(ps[k], y as int),
            decreases self.pieces@.len() - j,
        {
            assert(ps[j as int] == self.pieces@[j as int]@);
            assert(ps[j as int].within(2 * piece::piece_limit()));
            let f = fallen(&self.pieces[j], y as i64);
            out.push(f);
            j = j + 1;
        }
        self.pieces = out;
        assert(self@.pieces =~= gravity_spec(ps, y as int));
    }
}

pub open spec fn ints(s: Seq<i64>) -> Seq<int> {
    s.map_values(|v: i64| v as int)
}

pub proof fn lemma_stack_within_mono(ps: Seq<PieceModel>, b1: int, b2: int)
    requires
        stack_within(ps, b1),
        b1 <= b2,
    ensures
        stack_within(ps, b2),
{
    assert forall|j: int| 0 <= j < ps.len() implies #[trigger] ps[j].within(b2) by {
        assert(ps[j].within(b1));
        assert forall|i: int| 0 <= i < ps[j].cells.len() implies #[trigger] ps[j].cells[i].within(b2) by {
            assert(ps[j].cells[i].within(b1));
        }
    }
}

pub proof fn lemma_delete_within(ps: Seq<PieceModel>, row: int, b: int)
    requires
        stack_within(ps, b),
    ensures
        stack_within(delete_row_spec(ps, row), b),
{
    assert forall|j: int| 0 <= j < ps.len() implies #[trigger] delete_row_spec(ps, row)[j].within(b) by {
        lemma_trim_within(ps[j], row, b);
    }
}

pub proof fn lemma_gravity_within(ps: Seq<PieceModel>, row: int, b: int)
    requires
        stack_within(ps, b),
        b >= 0,
    ensures
        stack_within(gravity_spec(ps, row), b + 10),
{
    assert forall|j: int| 0 <= j < ps.len() implies #[trigger] gravity_spec(ps, row)[j].within(b + 10) by {
        lemma_fall_within(ps[j], row, b);
    }
}

/// The rows a row clear deletes, in the order it deletes them.
pub open spec fn rows_cleared(a: AppModel, min: int, max: int) -> Seq<int> {
    scan_rows(a.pieces, a.score, Seq::empty(), piece::clamp_i8(min), piece::clamp_i8(max)).2
}

/// After the entries of `old`, `new` holds one deletion entry for each of
/// `rows`, in order.
pub open spec fn row_entries(old: Seq<LogEntry<String>>, new: Seq<LogEntry<String>>, rows: Seq<int>) -> bool {
    row_entries_from(old.len() as int, new, rows)
}

/// From index `start` on, `log` holds one deletion entry for each of `rows`.
pub open spec fn row_entries_from(start: int, log: Seq<LogEntry<String>>, rows: Seq<int>) -> bool {
    forall|q: int| 0 <= q < rows.len() ==> #[trigger] log[start + q].entry@ == deleting_row_entry(rows[q])
}

/// Entries already written stay as they are when more are appended.
pub proof fn lemma_entries_kept(x: Seq<LogEntry<String>>, y: Seq<LogEntry<String>>, k: int, start: int, rows: Seq<int>)
    requires
        debug::appended(x, y, k),
        k >= 0,
        row_entries_from(start, x, rows),
        0 <= start,
        start + rows.len() <= x.len(),
    ensures
        row_entries_from(start, y, rows),
{
    assert forall|q: int| 0 <= q < rows.len() implies #[trigger] y[start + q].entry@ == deleting_row_entry(rows[q]) by {
        assert(y.subrange(0, x.len() as int)[start + q] == y[start + q]);
    }
}

/// The entries a step of the falling piece logs, in order: on landing, the
/// landing entry and the rows the first clear deletes; then the rows the
/// second clear deletes.
pub open spec fn handle_piece_entries(
    old_log: Seq<LogEntry<String>>,
    new_log: Seq<LogEntry<String>>,
    a: AppModel,
    c: PieceChoice,
) -> bool {
    let a1 = move_current_down_spec(a);
    let landed = AppModel { pieces: a1.pieces.push(a1.current), ..a1 };
    let first = rows_cleared(landed, a1.current.min_y, a1.current.max_y);
    let a2 = if at_bottom(a1) {
        next_piece_spec(row_clear_spec(landed, a1.current.min_y, a1.current.max_y), c)
    } else {
        a1
    };
    if at_bottom(a1) {
        &&& new_log[old_log.len() as int].entry@ == landing_entry(a1.current.min_y)
        &&& row_entries_from(old_log.len() + 1int, new_log, first)
        &&& row_entries_from((old_log.len() + 1 + first.len()) as int, new_log, rows_cleared(a2, -90, 80))
    } else {
        row_entries_from(old_log.len() as int, new_log, rows_cleared(a2, -90, 80))
    }
}

/// How many rows a row clear deletes, each logged once.
pub open spec fn cleared_rows(a: AppModel, min: int, max: int) -> int {
    scan_rows(a.pieces, a.score, Seq::empty(), piece::clamp_i8(min), piece::clamp_i8(max)).2.len() as int
}

/// The most `row_clear` can add to the score.
pub open spec fn row_clear_score_room() -> int {
    52000
}

impl App {
    /// Clears the full rows between `min` and `max` (see `row_clear_spec`).
    pub fn row_clear(&mut self, min: i64, max: i64)
        requires
            piece::clamp_i8(max as int) < 127,
            old(self)@.score + row_clear_score_room() <= u64::MAX,
            stack_within(old(self)@.pieces, piece::piece_limit()),
        ensures
            final(self)@ == row_clear_spec(old(self)@, min as int, max as int),
            debug::appended(old(self).logger.log@, final(self).logger.log@, cleared_rows(old(self)@, min as int, max as int)),
            row_entries(old(self).logger.log@, final(self).logger.log@, rows_cleared(old(self)@, min as int, max as int)),
    {
        let ghost a = self@;
        let ghost log0 = self.logger.log@;
        proof {
            debug::lemma_appended_none(log0);
        }
        let lo = piece::saturate_i8(min);
        let hi = piece::saturate_i8(max);
        let ghost target = scan_rows(a.pieces, a.score, Seq::empty(), lo as int, hi as int);
        let mut deleted: Vec<i64> = Vec::new();
        let mut i: i64 = lo;
        let ghost mut k: int = 0;
        assert(ints(deleted@) =~= Seq::<int>::empty());
        while i <= hi
            invariant
                log0 == old(self).logger.log@,
                debug::appended(log0, self.logger.log@, deleted@.len() as int),
                row_entries(log0, self.logger.log@, ints(deleted@)),
                -128 <= lo <= i,
                k == 0 || i <= hi + 10,
                hi <= 126,
                i == lo + 10 * k,
                0 <= k <= 27,
                deleted@.len() <= k,
                self.score == a.score + 1000 * deleted@.len(),
                a.score + row_clear_score_room() <= u64::MAX,
                self@ == (AppModel { pieces: self@.pieces, score: self@.score, ..a }),
                stack_within(self@.pieces, piece::piece_limit()),
                forall|m: int| 0 <= m < deleted@.len() ==> -128 <= #[trigger] deleted@[m] <= 126,
                scan_rows(self@.pieces, self@.score, ints(deleted@), i as int, hi as int) == target,
            decreases hi + 10 - i,
        {
            let ghost before = deleted@;
            if row_is_full(&self.pieces, i) {
                proof {
                    lemma_delete_within(self@.pieces, i as int, piece::piece_limit());
                }
                let ghost log1 = self.logger.log@;
                self.delete_row(i as i8);
                proof {
                    debug::lemma_appended_trans(log0, log1, self.logger.log@, deleted@.len() as int, 1);
                    let log2 = self.logger.log@;
                    assert forall|j: int| 0 <= j < log1.len() implies log2[j] == log1[j] by {
                        assert(log2.subrange(0, log1.len() as int)[j] == log2[j]);
                    }
                }
                self.score = self.score + 1000;
                deleted.push(i);
                assert(ints(deleted@) =~= ints(before).push(i as int));
                assert(row_entries(log0, self.logger.log@, ints(deleted@))) by {
                    let log2 = self.logger.log@;
                    let rows = ints(deleted@);
                    assert forall|q: int| 0 <= q < rows.len() implies #[trigger] log2[log0.len() + q].entry@ == deleting_row_entry(rows[q]) by {
                        if q < rows.len() - 1 {
                            assert(rows[q] == ints(before)[q]);
                        }
                    }
                }
            }
            i = i + 10;
            proof {
                k = k + 1;
            }
        }
        let ghost scanned = self@.pieces;
        assert(target == (scanned, self@.score, ints(deleted@)));
        let n = deleted.len();
        if n > 1 {
            let count = match crate::convert::to_u64(n) {
                Some(c) => c,
                None => { return; },
            };
            self.score = self.score + 1000 * count;
        }
        let ghost rows = ints(deleted@);
        let mut m: usize = n;
        assert(rows.subrange(0, n as int) == rows);
        while m > 0
            invariant
                log0 == old(self).logger.log@,
                row_entries(log0, self.logger.log@, rows),
                debug::appended(log0, self.logger.log@, deleted@.len() as int),
                m <= n,
                n == deleted@.len(),
                rows == ints(deleted@),
                forall|q: int| 0 <= q < deleted@.len() ==> -128 <= #[trigger] deleted@[q] <= 126,
                n <= 27,
                self@ == (AppModel { pieces: self@.pieces, ..row_clear_spec(a, min as int, max as int) }),
                stack_within(self@.pieces, piece::piece_limit() + 10 * (n - m)),
                settle(self@.pieces, rows.subrange(0, m as int)) == settle(scanned, rows),
            decreases m,
        {
            m = m - 1;
            assert(rows.subrange(0, m as int + 1).drop_last() == rows.subrange(0, m as int));
            assert(rows.subrange(0, m as int + 1).last() == deleted@[m as int] as int);
            proof {
                lemma_stack_within_mono(self@.pieces, piece::piece_limit() + 10 * (n - m - 1), 2 * piece::piece_limit());
                lemma_gravity_within(self@.pieces, deleted@[m as int] as int, piece::piece_limit() + 10 * (n - m - 1));
            }
            self.gravity(deleted[m] as i8);
        }
        assert(rows.subrange(0, 0) == Seq::<int>::empty());
    }
}

// ---------------------------------------------------------------------
// New pieces
// ---------------------------------------------------------------------

/// What chance decides when a piece is drawn: its shape (`kind`), which of
/// two mirror images (`flipped`), how many turns are tried on it, and the
/// colour of the piece that comes after it.
#[derive(Clone, Copy, Debug, PartialEq, Eq, Structural)]
pub struct PieceChoice {
    pub kind: u64,
    pub flipped: bool,
    pub rotations: u64,
    pub color: u64,
}

/// The seven colours, in the order they are drawn from.
pub open spec fn palette(i: int) -> PieceColor {
    if i == 0 {
        PieceColor::White
    } else if i == 1 {
        PieceColor::Cyan
    } else if i == 2 {
        PieceColor::Yellow
    } else if i == 3 {
        PieceColor::Red
    } else if i == 4 {
        PieceColor::Blue
    } else if i == 5 {
        PieceColor::Magenta
    } else {
        PieceColor::Green
    }
}

/// The piece of shape `kind` (0 straight, 1 block, 2 T, 3 L, 4 Z; the
/// last two mirrored when `flipped`); `old` for any other kind.
pub open spec fn shape_spec(kind: int, flipped: bool, old: PieceModel) -> PieceModel {
    if kind == 0 {
        piece::long_spec()
    } else if kind == 1 {
        piece::square_spec()
    } else if kind == 2 {
        piece::t_piece_spec()
    } else if kind == 3 {
        if flipped { piece::inverted_l_piece_spec() } else { piece::l_piece_spec() }
    } else if kind == 4 {
        if flipped { piece::inverted_z_piece_spec() } else { piece::z_piece_spec() }
    } else {
        old
    }
}

pub open spec fn pushed_right(p: PieceModel, n: nat) -> PieceModel
    decreases n,
{
    if n == 0 { p } else { piece::move_right_spec(pushed_right(p, (n - 1) as nat), true) }
}

pub open spec fn pushed_left(p: PieceModel, n: nat) -> PieceModel
    decreases n,
{
    if n == 0 { p } else { piece::move_left_spec(pushed_left(p, (n - 1) as nat), true) }
}

pub open spec fn lowered(p: PieceModel, n: nat) -> PieceModel
    decreases n,
{
    if n == 0 { p } else { piece::move_down_spec(lowered(p, (n - 1) as nat)) }
}

pub open spec fn raised(p: PieceModel, n: nat) -> PieceModel
    decreases n,
{
    if n == 0 { p } else { piece::move_up_spec(raised(p, (n - 1) as nat)) }
}

/// `n` attempts to turn the falling piece.
pub open spec fn turned(a: AppModel, n: nat) -> AppModel
    decreases n,
{
    if n == 0 { a } else { rotate_current_spec(turned(a, (n - 1) as nat)) }
}

/// The waiting piece starts to fall and a new one waits: the new one is
/// shown twelve columns right and three rows down of where it is made;
/// the falling one comes twelve columns left and up to three rows up
/// from where it waited.
pub open spec fn next_piece_spec(a: AppModel, c: PieceChoice) -> AppModel {
    let a1 = AppModel {
        current: piece::set_center_spec(a.next),
        next: shape_spec(c.kind as int, c.flipped, a.next),
        ..a
    };
    let a2 = turned(a1, c.rotations as nat);
    let shown = PieceModel { color: palette(c.color as int), ..a2.next };
    AppModel {
        current: raised(pushed_left(a2.current, 12), 3),
        next: lowered(pushed_right(shown, 12), 3),
        ..a2
    }
}

/// The first waiting piece of a game (shapes 0 to 3 only).
pub open spec fn init_queue_spec(a: AppModel, c: PieceChoice) -> AppModel {
    let made = if c.kind <= 3 { shape_spec(c.kind as int, c.flipped, a.next) } else { a.next };
    let shown = PieceModel { color: palette(c.color as int), ..made };
    AppModel { next: lowered(pushed_right(shown, 12), 3), ..a }
}

/// The choices chance can make: a shape below `kinds`, fewer than three
/// turns, one of the seven colours.
pub open spec fn valid_choice(c: PieceChoice, kinds: int) -> bool {
    &&& c.kind < kinds
    &&& c.rotations < 3
    &&& c.color < 7
}

/// The bound on a piece about to fall, up to which all the steps of
/// bringing it in stay within machine integers.
pub open spec fn spawn_limit() -> int {
    0x4_0000_0000_0000
}

/// The most turns tried on one new piece that the machine integers allow
/// for: each accepted turn moves the squares' own centres by at most 42
/// quarter pixels.
pub open spec fn turn_limit() -> int {
    0x1_0000_0000
}

pub open spec fn turned_bound() -> int {
    spawn_limit() + 11 * turn_limit()
}

/// The shapes lie within 100 pixels of the origin.
proof fn lemma_shape_small(kind: int, flipped: bool, old: PieceModel)
    requires
        0 <= kind <= 4,
    ensures
        shape_spec(kind, flipped, old).within(100),
{
    let q = shape_spec(kind, flipped, old);
    assert forall|i: int| 0 <= i < q.cells.len() implies #[trigger] q.cells[i].within(100) by {}
}

proof fn lemma_shape_within(kind: int, flipped: bool, old: PieceModel, b: int)
    requires
        old.within(b),
        b >= 100,
    ensures
        shape_spec(kind, flipped, old).within(b),
        0 <= kind <= 4 ==> shape_spec(kind, flipped, old).cells.len() == 4,
{
    let q = shape_spec(kind, flipped, old);
    if 0 <= kind <= 4 {
        assert forall|i: int| 0 <= i < q.cells.len() implies #[trigger] q.cells[i].within(b) by {}
    }
}

proof fn lemma_pushes_within(p: PieceModel, n: nat, b: int)
    requires
        p.within(b),
        b >= 0,
    ensures
        pushed_right(p, n).within(b + 10 * n),
        pushed_left(p, n).within(b + 10 * n),
        lowered(p, n).within(b + 10 * n),
        raised(p, n).within(b + 10 * n),
    decreases n,
{
    if n > 0 {
        let m = (n - 1) as nat;
        lemma_pushes_within(p, m, b);
        piece::lemma_moves_within(pushed_right(p, m), true, b + 10 * m);
        piece::lemma_moves_within(pushed_left(p, m), true, b + 10 * m);
        piece::lemma_moves_within(lowered(p, m), true, b + 10 * m);
        piece::lemma_moves_within(raised(p, m), true, b + 10 * m);
    }
}

/// Turning touches only the falling piece.
pub proof fn lemma_turned_keeps(a: AppModel, n: nat)
    ensures
        turned(a, n) == (AppModel { current: turned(a, n).current, ..a }),
    decreases n,
{
    if n > 0 {
        lemma_turned_keeps(a, (n - 1) as nat);
    }
}

/// An attempted turn keeps the falling piece's squares and takes it at
/// most 11 pixels further out: a turn that is kept leaves every square on
/// the field, and only moves the squares' centres by less than 11 pixels.
proof fn lemma_rotate_current_within(a: AppModel, b: int)
    requires
        a.current.within(b),
        a.current.cells.len() > 0,
        b >= 100,
    ensures
        rotate_current_spec(a).current.within(b + 11),
        rotate_current_spec(a).current.cells.len() == a.current.cells.len(),
        rotate_current_spec(a) == (AppModel { current: rotate_current_spec(a).current, ..a }),
{
    let p = a.current;
    let q = piece::rotate_spec(p);
    piece::lemma_within_mono(p, b, b + 11);
    piece::lemma_rotation_positions(p, 0);
    if !(collides(a.pieces, q) || piece::outside_field(q)) {
        piece::lemma_extremes(p.cells);
        let kx = choose|k: int| 0 <= k < p.cells.len() && #[trigger] p.cells[k].x == piece::lowest_x(p.cells);
        let kh = choose|k: int| 0 <= k < p.cells.len() && #[trigger] p.cells[k].x == piece::highest_x(p.cells);
        piece::lemma_rotation_positions(p, kx);
        piece::lemma_rotation_positions(p, kh);
        assert(!piece::off_field(q.cells[kx]));
        assert(!piece::off_field(q.cells[kh]));
        let xd = piece::round_to_tenths_spec(p.center_x4 + p.center_y4 - 4 * piece::highest_y(p.cells));
        let yd = piece::round_to_tenths_spec(4 * piece::lowest_x(p.cells) - p.center_x4 + p.center_y4);
        piece::lemma_round_to_tenths_small(p.center_x4 + p.center_y4 - 4 * piece::highest_y(p.cells));
        piece::lemma_round_to_tenths_small(4 * piece::lowest_x(p.cells) - p.center_x4 + p.center_y4);
        assert forall|i: int| 0 <= i < q.cells.len() implies #[trigger] q.cells[i].within(b + 11) by {
            assert(!piece::off_field(q.cells[i]));
            assert(p.cells[i].within(b));
        }
        piece::lemma_center_within(p.cells, b);
    }
}

impl App {
    /// The waiting piece starts to fall and a new one, decided by `choice`,
    /// waits (see `next_piece_spec`).
    pub fn next_piece_with(&mut self, choice: PieceChoice)
        requires
            choice.rotations <= turn_limit(),
            choice.color < 7,
            old(self)@.next.within(spawn_limit()),
            choice.rotations > 0 ==> old(self)@.next.cells.len() > 0,
        ensures
            final(self)@ == next_piece_spec(old(self)@, choice),
            final(self).logger == old(self).logger,
    {
        let ghost a = self@;
        self.current_piece = self.next_piece.clone();
        if choice.kind == 0 {
            self.next_piece = Piece::long();
        } else if choice.kind == 1 {
            self.next_piece = Piece::square();
        } else if choice.kind == 2 {
            self.next_piece = Piece::t_piece();
        } else if choice.kind == 3 {
            if choice.flipped {
                self.next_piece = Piece::inverted_l_piece();
            } else {
                self.next_piece = Piece::l_piece();
            }
        } else if choice.kind == 4 {
            if choice.flipped {
                self.next_piece = Piece::inverted_z_piece();
            } else {
                self.next_piece = Piece::z_piece();
            }
        }
        proof {
            piece::lemma_within_mono(a.next, spawn_limit(), 2 * piece::piece_limit());
            lemma_shape_within(choice.kind as int, choice.flipped, a.next, spawn_limit());
        }
        self.current_piece.set_center();
        let ghost a1 = self@;
        assert(a1 == (AppModel {
            current: piece::set_center_spec(a.next),
            next: shape_spec(choice.kind as int, choice.flipped, a.next),
            ..a
        }));
        proof {
            piece::lemma_set_center_within(a.next, spawn_limit());
        }
        let mut r: u64 = 0;
        while r < choice.rotations
            invariant
                self.logger == old(self).logger,
                r <= choice.rotations <= turn_limit(),
                self@ == turned(a1, r as nat),
                self@.current.cells.len() == a.next.cells.len(),
                choice.rotations > 0 ==> a.next.cells.len() > 0,
                self@.current.within(spawn_limit() + 11 * r),
            decreases choice.rotations - r,
        {
            proof {
                lemma_rotate_current_within(self@, spawn_limit() + 11 * r);
                piece::lemma_within_mono(self@.current, spawn_limit() + 11 * r, piece::piece_limit());
            }
            self.rotate_current();
            r = r + 1;
        }
        let ghost a2 = self@;
        proof {
            lemma_turned_keeps(a1, r as nat);
            piece::lemma_within_mono(a2.current, spawn_limit() + 11 * r, turned_bound());
        }
        let colors = vec![
            PieceColor::White,
            PieceColor::Cyan,
            PieceColor::Yellow,
            PieceColor::Red,
            PieceColor::Blue,
            PieceColor::Magenta,
            PieceColor::Green,
        ];
        self.next_piece.color = colors[choice.color as usize];
        let ghost shown = self@.next;
        assert(shown == (PieceModel { color: palette(choice.color as int), ..a2.next }));
        let ghost cur2 = a2.current;
        let mut k: u64 = 0;
        while k < 12
            invariant
                self.logger == old(self).logger,
                k <= 12,
                self@ == (AppModel { current: pushed_left(cur2, k as nat), next: pushed_right(shown, k as nat), ..a2 }),
                cur2.within(turned_bound()),
                shown.within(spawn_limit()),
            decreases 12 - k,
        {
            proof {
                lemma_pushes_within(cur2, k as nat, turned_bound());
                lemma_pushes_within(shown, k as nat, spawn_limit());
                piece::lemma_within_mono(self@.current, turned_bound() + 10 * k, piece::piece_limit());
                piece::lemma_within_mono(self@.next, spawn_limit() + 10 * k, piece::piece_limit());
            }
            self.next_piece.move_right(true);
            self.current_piece.move_left(true);
            k = k + 1;
        }
        let ghost cur3 = self@.current;
        let ghost next3 = self@.next;
        proof {
            lemma_pushes_within(cur2, 12, turned_bound());
            lemma_pushes_within(shown, 12, spawn_limit());
        }
        let mut k: u64 = 0;
        while k < 3
            invariant
                self.logger == old(self).logger,
                k <= 3,
                self@ == (AppModel { current: raised(cur3, k as nat), next: lowered(next3, k as nat), ..a2 }),
                cur3.within(turned_bound() + 120),
                next3.within(spawn_limit() + 120),
            decreases 3 - k,
        {
            proof {
                lemma_pushes_within(cur3, k as nat, turned_bound() + 120);
                lemma_pushes_within(next3, k as nat, spawn_limit() + 120);
                piece::lemma_within_mono(self@.current, turned_bound() + 120 + 10 * k, piece::piece_limit());
                piece::lemma_within_mono(self@.next, spawn_limit() + 120 + 10 * k, piece::piece_limit());
            }
            self.next_piece.move_down();
            self.current_piece.move_up();
            k = k + 1;
        }
    }
}

// ---------------------------------------------------------------------
// What a row clear can change
// ---------------------------------------------------------------------

/// How many of the rows `row, row + 10, ...` lie at or below `hi`.
pub open spec fn rows_between(row: int, hi: int) -> int {
    if row > hi { 0 } else { (hi - row) / 10 + 1 }
}

proof fn lemma_scan_rows(ps: Seq<PieceModel>, score: int, deleted: Seq<int>, row: int, hi: int, b: int)
    requires
        stack_within(ps, b),
    ensures
        ({
            let r = scan_rows(ps, score, deleted, row, hi);
            &&& r.2.len() >= deleted.len()
            &&& r.2.len() - deleted.len() <= rows_between(row, hi)
            &&& r.1 == score + 1000 * (r.2.len() - deleted.len())
            &&& stack_within(r.0, b)
        }),
    decreases hi + 10 - row,
{
    if row <= hi {
        if row_full(ps, row) {
            lemma_delete_within(ps, row, b);
            lemma_scan_rows(delete_row_spec(ps, row), score + 1000, deleted.push(row), row + 10, hi, b);
        } else {
            lemma_scan_rows(ps, score, deleted, row + 10, hi, b);
        }
    }
}

proof fn lemma_settle_within(ps: Seq<PieceModel>, rows: Seq<int>, b: int)
    requires
        stack_within(ps, b),
        b >= 0,
    ensures
        stack_within(settle(ps, rows), b + 10 * rows.len()),
    decreases rows.len(),
{
    if rows.len() > 0 {
        lemma_gravity_within(ps, rows.last(), b);
        lemma_settle_within(gravity_spec(ps, rows.last()), rows.drop_last(), b + 10);
    }
}

/// A row clear raises the score by at most `row_clear_score_room()` and
/// lowers landed squares by at most 26 rows; nothing else changes.
pub proof fn lemma_row_clear_bounds(a: AppModel, min: int, max: int, b: int)
    requires
        stack_within(a.pieces, b),
        b >= 0,
    ensures
        a.score <= row_clear_spec(a, min, max).score <= a.score + row_clear_score_room(),
        stack_within(row_clear_spec(a, min, max).pieces, b + 260),
        row_clear_spec(a, min, max) == (AppModel {
            pieces: row_clear_spec(a, min, max).pieces,
            score: row_clear_spec(a, min, max).score,
            ..a
        }),
{
    let lo = piece::clamp_i8(min);
    let hi = piece::clamp_i8(max);
    lemma_scan_rows(a.pieces, a.score, Seq::empty(), lo, hi, b);
    let r = scan_rows(a.pieces, a.score, Seq::empty(), lo, hi);
    assert(rows_between(lo, hi) <= 26);
    lemma_settle_within(r.0, r.2, b);
    lemma_stack_within_mono(settle(r.0, r.2), b + 10 * r.2.len(), b + 260);
}

// ---------------------------------------------------------------------
// One step of the game
// ---------------------------------------------------------------------

/// The falling piece moves a row down; if it has then come to rest it
/// joins the stack, the rows it spans are cleared and the next piece
/// starts to fall; then every row of the field is checked and cleared.
pub open spec fn handle_piece_spec(a: AppModel, c: PieceChoice) -> AppModel {
    let a1 = move_current_down_spec(a);
    let a2 = if at_bottom(a1) {
        next_piece_spec(
            row_clear_spec(
                AppModel { pieces: a1.pieces.push(a1.current), ..a1 },
                a1.current.min_y,
                a1.current.max_y,
            ),
            c,
        )
    } else {
        a1
    };
    row_clear_spec(a2, -90, 80)
}

/// One tick of a running game: unless paused or lost, a step of the falling
/// piece, then the high score and the loss are brought up to date.
pub open spec fn tick_spec(a: AppModel, c: PieceChoice) -> AppModel {
    if a.on_pause || a.dead {
        a
    } else {
        is_dead_spec(highscore_spec(handle_piece_spec(a, c)))
    }
}

/// The most a step of the game can add to the score.
pub open spec fn step_score_room() -> int {
    2 * row_clear_score_room()
}

/// How many entries a step of the falling piece logs: one on landing and
/// one for each row deleted by the two row clears.
pub open spec fn handle_piece_log_count(a: AppModel, c: PieceChoice) -> int {
    let a1 = move_current_down_spec(a);
    let landed = AppModel { pieces: a1.pieces.push(a1.current), ..a1 };
    let a2 = if at_bottom(a1) {
        next_piece_spec(row_clear_spec(landed, a1.current.min_y, a1.current.max_y), c)
    } else {
        a1
    };
    (if at_bottom(a1) { 1 + cleared_rows(landed, a1.current.min_y, a1.current.max_y) } else { 0 })
        + cleared_rows(a2, -90, 80)
}

/// How many entries a tick logs: none while paused or lost.
pub open spec fn tick_log_count(a: AppModel, c: PieceChoice) -> int {
    if a.on_pause || a.dead { 0 } else { handle_piece_log_count(a, c) }
}

pub proof fn lemma_cleared_rows_nonneg(a: AppModel, min: int, max: int)
    ensures
        cleared_rows(a, min, max) >= 0,
{
}

/// The machine limits of a step: every coordinate within `spawn_limit()`
/// and room in the score counter for what a step can add.
pub open spec fn steady(a: AppModel) -> bool {
    &&& a.current.within(spawn_limit())
    &&& a.next.within(spawn_limit())
    &&& stack_within(a.pieces, spawn_limit())
    &&& a.score + step_score_room() <= u64::MAX
}

/// The piece that lands can be cleared row by row: its recorded top, as
/// `i8`, is below 127.
pub open spec fn lands_in_range(a: AppModel) -> bool {
    let a1 = move_current_down_spec(a);
    at_bottom(a1) ==> piece::clamp_i8(a1.current.max_y) < 127
}

/// Bringing in the next piece touches only the falling and waiting pieces.
proof fn lemma_next_piece_keeps(a: AppModel, c: PieceChoice)
    ensures
        next_piece_spec(a, c) == (AppModel {
            current: next_piece_spec(a, c).current,
            next: next_piece_spec(a, c).next,
            ..a
        }),
{
    let a1 = AppModel {
        current: piece::set_center_spec(a.next),
        next: shape_spec(c.kind as int, c.flipped, a.next),
        ..a
    };
    lemma_turned_keeps(a1, c.rotations as nat);
}

proof fn lemma_push_within(ps: Seq<PieceModel>, p: PieceModel, b: int)
    requires
        stack_within(ps, b),
        p.within(b),
    ensures
        stack_within(ps.push(p), b),
{
    assert forall|j: int| 0 <= j < ps.push(p).len() implies #[trigger] ps.push(p)[j].within(b) by {
        if j < ps.len() {
            assert(ps.push(p)[j] == ps[j]);
        }
    }
}

impl App {
    /// A step of the falling piece, with `choice` deciding the next piece
    /// should one be needed (see `handle_piece_spec`).
    pub fn handle_piece_with(&mut self, choice: PieceChoice)
        requires
            steady(old(self)@),
            lands_in_range(old(self)@),
            choice.rotations <= turn_limit(),
            choice.color < 7,
            choice.rotations > 0 ==> old(self)@.next.cells.len() > 0,
        ensures
            final(self)@ == handle_piece_spec(old(self)@, choice),
            debug::appended(old(self).logger.log@, final(self).logger.log@, handle_piece_log_count(old(self)@, choice)),
            handle_piece_entries(old(self).logger.log@, final(self).logger.log@, old(self)@, choice),
    {
        let ghost a = self@;
        let ghost log0 = self.logger.log@;
        proof {
            piece::lemma_within_mono(a.current, spawn_limit(), piece::piece_limit());
            piece::lemma_moves_within(a.current, false, spawn_limit());
            piece::lemma_within_mono(a.current, spawn_limit(), spawn_limit() + 10);
        }
        self.move_current_down();
        let ghost a1 = self@;
        proof {
            piece::lemma_within_mono(a1.current, spawn_limit() + 10, piece::piece_limit());
        }
        let ghost log1 = self.logger.log@;
        if self.current_piece_at_bottom() {
            let message = debug::labelled("piece at bottom, min y: ", self.current_piece.min_y);
            self.logger.push_string(message);
            let ghost log2 = self.logger.log@;
            assert(log2[log1.len() as int] == log2.last());
            assert(log2[log1.len() as int].entry@ == landing_entry(a1.current.min_y));
            let landed = self.current_piece.clone();
            self.pieces.push(landed);
            assert(pieces_of(self.pieces@) =~= a1.pieces.push(a1.current));
            proof {
                lemma_stack_within_mono(a1.pieces, spawn_limit(), spawn_limit() + 10);
                lemma_push_within(a1.pieces, a1.current, spawn_limit() + 10);
                lemma_stack_within_mono(self@.pieces, spawn_limit() + 10, piece::piece_limit());
                lemma_row_clear_bounds(self@, a1.current.min_y, a1.current.max_y, spawn_limit() + 10);
            }
            let min_y = self.current_piece.min_y;
            let max_y = self.current_piece.max_y;
            let ghost landed_state = self@;
            self.row_clear(min_y, max_y);
            proof {
                debug::lemma_appended_trans(log1, log2, self.logger.log@, 1, cleared_rows(landed_state, min_y as int, max_y as int));
                let log4 = self.logger.log@;
                assert(log4.subrange(0, log2.len() as int)[log1.len() as int] == log4[log1.len() as int]);
                assert(log4[log1.len() as int].entry@ == landing_entry(a1.current.min_y));
                assert(row_entries_from(log1.len() + 1int, log4, rows_cleared(landed_state, min_y as int, max_y as int)));
            }
            let ghost a3 = self@;
            proof {
                lemma_next_piece_keeps(a3, choice);
            }
            self.next_piece_with(choice);
            assert(stack_within(self@.pieces, spawn_limit() + 270));
        } else {
            proof {
                lemma_stack_within_mono(a1.pieces, spawn_limit(), spawn_limit() + 270);
                debug::lemma_appended_none(log1);
            }
        }
        let ghost a2 = self@;
        let ghost log3 = self.logger.log@;
        proof {
            lemma_stack_within_mono(a2.pieces, spawn_limit() + 270, piece::piece_limit());
        }
        self.row_clear(-90, 80);
        proof {
            lemma_cleared_rows_nonneg(a2, -90, 80);
            debug::lemma_appended_trans(log1, log3, self.logger.log@, log3.len() - log1.len(), cleared_rows(a2, -90, 80));
            let log5 = self.logger.log@;
            let a1m = move_current_down_spec(a);
            if at_bottom(a1m) {
                let landed = AppModel { pieces: a1m.pieces.push(a1m.current), ..a1m };
                let first = rows_cleared(landed, a1m.current.min_y, a1m.current.max_y);
                assert(log5.subrange(0, log3.len() as int)[log1.len() as int] == log5[log1.len() as int]);
                lemma_entries_kept(log3, log5, cleared_rows(a2, -90, 80), log1.len() + 1int, first);
            }
        }
    }

    /// One tick of a running game, with `choice` deciding the next piece
    /// should one be needed (see `tick_spec`).
    pub fn tick_with(&mut self, choice: PieceChoice)
        requires
            !(old(self)@.on_pause || old(self)@.dead) ==> {
                &&& steady(old(self)@)
                &&& lands_in_range(old(self)@)
                &&& choice.rotations <= turn_limit()
                &&& choice.color < 7
                &&& choice.rotations > 0 ==> old(self)@.next.cells.len() > 0
            },
        ensures
            final(self)@ == tick_spec(old(self)@, choice),
            debug::appended(old(self).logger.log@, final(self).logger.log@, tick_log_count(old(self)@, choice)),
            !(old(self)@.on_pause || old(self)@.dead) ==>
                handle_piece_entries(old(self).logger.log@, final(self).logger.log@, old(self)@, choice),
    {
        if self.on_pause || self.dead {
            proof {
                debug::lemma_appended_none(self.logger.log@);
            }
            return;
        }
        self.handle_piece_with(choice);
        self.highscore();
        self.is_dead();
    }
}

// ---------------------------------------------------------------------
// Starting, restarting, and the keyboard
// ---------------------------------------------------------------------

/// A game before its first pieces: nothing scored, nothing landed, the
/// falling and waiting pieces still without squares.
pub open spec fn initial_spec() -> AppModel {
    AppModel {
        score: 0,
        highscore: 0,
        exit: false,
        on_pause: false,
        dead: false,
        current: piece::placeholder_spec(),
        pieces: Seq::empty(),
        next: piece::placeholder_spec(),
    }
}

/// A new game: the first waiting piece is made (by `first`), then it
/// starts to fall and the second (by `second`) waits.
pub open spec fn new_spec(first: PieceChoice, second: PieceChoice) -> AppModel {
    next_piece_spec(init_queue_spec(initial_spec(), first), second)
}

/// A game started over: the high score becomes `stored`, the score and the
/// stack are emptied, pause and loss are lifted, and the next piece falls.
pub open spec fn restart_spec(a: AppModel, stored: int, c: PieceChoice) -> AppModel {
    next_piece_spec(
        AppModel { highscore: stored, score: 0, on_pause: false, dead: false, pieces: Seq::empty(), ..a },
        c,
    )
}

/// The keys the game answers to.
#[derive(Clone, Copy, Debug, PartialEq, Eq, Structural)]
pub enum Key {
    Char(char),
    Esc,
    Enter,
    Left,
    Right,
    Up,
    Down,
    Other,
}

/// `q` asks to quit, Esc pauses or resumes, the arrows move (left, right)
/// or turn (up) the falling piece; Enter (a restart, which needs the stored
/// high score) and every other key leave the game as it is.
pub open spec fn key_spec(a: AppModel, key: Key) -> AppModel {
    match key {
        Key::Char(c) => if c == 'q' { AppModel { exit: true, ..a } } else { a },
        Key::Esc => AppModel { on_pause: !a.on_pause, ..a },
        Key::Right => move_current_right_spec(a),
        Key::Left => move_current_left_spec(a),
        Key::Up => rotate_current_spec(a),
        _ => a,
    }
}

proof fn lemma_init_queue_within(a: AppModel, c: PieceChoice, b: int)
    requires
        a.next.within(b),
        b >= 100,
    ensures
        init_queue_spec(a, c).next.within(b + 150),
        c.kind <= 3 ==> init_queue_spec(a, c).next.cells.len() == 4,
{
    let made = if c.kind <= 3 { shape_spec(c.kind as int, c.flipped, a.next) } else { a.next };
    lemma_shape_within(c.kind as int, c.flipped, a.next, b);
    let shown = PieceModel { color: palette(c.color as int), ..made };
    lemma_pushes_within(shown, 12, b);
    lemma_pushes_within(pushed_right(shown, 12), 3, b + 120);
    lemma_cells_kept(shown, 12, 3);
}

/// Pushing a piece about keeps its number of squares.
proof fn lemma_cells_kept(p: PieceModel, n: nat, m: nat)
    ensures
        lowered(pushed_right(p, n), m).cells.len() == p.cells.len(),
    decreases n + m,
{
    if m > 0 {
        lemma_cells_kept(p, n, (m - 1) as nat);
    } else if n > 0 {
        lemma_cells_kept(p, (n - 1) as nat, 0);
    }
}

/// Draws what chance decides for a new piece: a shape below `kinds`, a
/// mirror image for the shapes that have one, a number of turns when
/// `turns`, and a colour. Which values come up is chance; only shapes 3
/// and 4 are drawn mirrored, and no turns are drawn without `turns`.
fn draw_choice(kinds: u64, turns: bool) -> (c: PieceChoice)
    requires
        kinds > 0,
    ensures
        valid_choice(c, kinds as int),
        c.kind < 3 ==> !c.flipped,
        !turns ==> c.rotations == 0,
{
    let kind = crate::chance::random_below(kinds);
    let flipped = if kind >= 3 { crate::chance::random_bool() } else { false };
    let rotations = if turns { crate::chance::random_below(3) } else { 0 };
    let color = crate::chance::random_below(7);
    PieceChoice { kind, flipped, rotations, color }
}

impl App {
    /// The first waiting piece of a game, decided by `choice` (shapes 0 to 3;
    /// see `init_queue_spec`).
    pub fn init_queue_with(&mut self, choice: PieceChoice)
        requires
            choice.color < 7,
            choice.kind >= 4 ==> old(self)@.next.within(spawn_limit()),
        ensures
            final(self)@ == init_queue_spec(old(self)@, choice),
            final(self).logger == old(self).logger,
    {
        let ghost a = self@;
        if choice.kind == 0 {
            self.next_piece = Piece::long();
        } else if choice.kind == 1 {
            self.next_piece = Piece::square();
        } else if choice.kind == 2 {
            self.next_piece = Piece::t_piece();
        } else if choice.kind == 3 {
            if choice.flipped {
                self.next_piece = Piece::inverted_l_piece();
            } else {
                self.next_piece = Piece::l_piece();
            }
        }
        let colors = vec![
            PieceColor::White,
            PieceColor::Cyan,
            PieceColor::Yellow,
            PieceColor::Red,
            PieceColor::Blue,
            PieceColor::Magenta,
            PieceColor::Green,
        ];
        self.next_piece.color = colors[choice.color as usize];
        let ghost shown = self@.next;
        proof {
            if choice.kind <= 3 {
                lemma_shape_small(choice.kind as int, choice.flipped, a.next);
                piece::lemma_within_mono(shown, 100, spawn_limit());
            }
        }
        assert(self@ == (AppModel { next: shown, ..a }));
        let mut k: u64 = 0;
        while k < 12
            invariant
                self.logger == old(self).logger,
                k <= 12,
                self@ == (AppModel { next: pushed_right(shown, k as nat), ..a }),
                shown.within(spawn_limit()),
            decreases 12 - k,
        {
            proof {
                lemma_pushes_within(shown, k as nat, spawn_limit());
                piece::lemma_within_mono(self@.next, spawn_limit() + 10 * k, piece::piece_limit());
            }
            self.next_piece.move_right(true);
            k = k + 1;
        }
        let ghost moved = self@.next;
        proof {
            lemma_pushes_within(shown, 12, spawn_limit());
        }
        let mut k: u64 = 0;
        while k < 3
            invariant
                self.logger == old(self).logger,
                k <= 3,
                self@ == (AppModel { next: lowered(moved, k as nat), ..a }),
                moved.within(spawn_limit() + 120),
            decreases 3 - k,
        {
            proof {
                lemma_pushes_within(moved, k as nat, spawn_limit() + 120);
                piece::lemma_within_mono(self@.next, spawn_limit() + 120 + 10 * k, piece::piece_limit());
            }
            self.next_piece.move_down();
            k = k + 1;
        }
    }

    /// The first waiting piece of a game, drawn at random among shapes 0 to 3.
    pub fn init_queue(&mut self)
        ensures
            exists|c: PieceChoice| valid_choice(c, 4) && final(self)@ == init_queue_spec(old(self)@, c),
            final(self).logger == old(self).logger,
    {
        let c = draw_choice(4, false);
        self.init_queue_with(c);
    }

    /// The waiting piece starts to fall and a new one, drawn at random,
    /// waits.
    pub fn next_piece(&mut self)
        requires
            old(self)@.next.within(spawn_limit()),
            old(self)@.next.cells.len() > 0,
        ensures
            exists|c: PieceChoice| valid_choice(c, 5) && final(self)@ == next_piece_spec(old(self)@, c),
            final(self).logger == old(self).logger,
    {
        let c = draw_choice(5, true);
        self.next_piece_with(c);
    }

    /// A new game logging into `logger`: a first piece waits, then starts to
    /// fall as a second one waits; both drawn at random.
    pub fn new(logger: Logger) -> (app: App)
        ensures
            exists|first: PieceChoice, second: PieceChoice|
                valid_choice(first, 4) && valid_choice(second, 5) && app@ == new_spec(first, second),
            app.logger == logger,
    {
        let mut app = App {
            score: 0,
            highscore: 0,
            exit: false,
            on_pause: false,
            dead: false,
            current_piece: Piece::placeholder(),
            pieces: Vec::new(),
            next_piece: Piece::placeholder(),
            logger,
        };
        assert(app@ == initial_spec());
        let first = draw_choice(4, false);
        app.init_queue_with(first);
        proof {
            piece::lemma_within_mono(initial_spec().next, 0, 100);
            lemma_init_queue_within(initial_spec(), first, 100);
            piece::lemma_within_mono(app@.next, 250, spawn_limit());
        }
        let second = draw_choice(5, true);
        app.next_piece_with(second);
        assert(valid_choice(first, 4) && valid_choice(second, 5) && app@ == new_spec(first, second));
        app
    }

    /// Starts the game over with `stored` as the high score and `choice`
    /// deciding the next piece (see `restart_spec`).
    pub fn restart_with(&mut self, stored: u64, choice: PieceChoice)
        requires
            choice.rotations <= turn_limit(),
            choice.color < 7,
            old(self)@.next.within(spawn_limit()),
            choice.rotations > 0 ==> old(self)@.next.cells.len() > 0,
        ensures
            final(self)@ == restart_spec(old(self)@, stored as int, choice),
            final(self).logger == old(self).logger,
    {
        self.highscore = stored;
        self.score = 0;
        self.on_pause = false;
        self.dead = false;
        self.pieces = Vec::new();
        assert(pieces_of(self.pieces@) =~= Seq::<PieceModel>::empty());
        self.next_piece_with(choice);
    }

    /// Starts the game over with `stored` as the high score; the next piece
    /// is drawn at random.
    pub fn restart(&mut self, stored: u64)
        requires
            old(self)@.next.within(spawn_limit()),
            old(self)@.next.cells.len() > 0,
        ensures
            exists|c: PieceChoice| valid_choice(c, 5) && final(self)@ == restart_spec(old(self)@, stored as int, c),
            final(self).logger == old(self).logger,
    {
        let c = draw_choice(5, true);
        self.restart_with(stored, c);
    }

    /// One tick of a running game; the next piece, should one be needed, is
    /// drawn at random.
    pub fn tick(&mut self)
        requires
            !(old(self)@.on_pause || old(self)@.dead) ==> {
                &&& steady(old(self)@)
                &&& lands_in_range(old(self)@)
                &&& old(self)@.next.cells.len() > 0
            },
        ensures
            exists|c: PieceChoice|
                valid_choice(c, 5) && final(self)@ == tick_spec(old(self)@, c)
                    && debug::appended(old(self).logger.log@, final(self).logger.log@, tick_log_count(old(self)@, c))
                    && (!(old(self)@.on_pause || old(self)@.dead) ==>
                        handle_piece_entries(old(self).logger.log@, final(self).logger.log@, old(self)@, c)),
    {
        let c = draw_choice(5, true);
        self.tick_with(c);
    }

    /// Answers a key (see `key_spec`); returns whether the key asks for a
    /// restart, which the caller carries out with the stored high score.
    pub fn handle_key_event(&mut self, key: Key) -> (restart: bool)
        requires
            old(self)@.current.within(piece::piece_limit()),
            key == Key::Up ==> old(self)@.current.cells.len() > 0,
        ensures
            restart == (key == Key::Enter),
            final(self)@ == key_spec(old(self)@, key),
            final(self).logger == old(self).logger,
    {
        match key {
            Key::Char(c) => {
                if c == 'q' {
                    self.exit();
                }
                false
            },
            Key::Esc => {
                self.pause();
                false
            },
            Key::Enter => true,
            Key::Right => {
                self.move_current_right();
                false
            },
            Key::Left => {
                self.move_current_left();
                false
            },
            Key::Up => {
                self.rotate_current();
                false
            },
            _ => false,
        }
    }
}

// ---------------------------------------------------------------------
// Checking the limits before a step
// ---------------------------------------------------------------------

/// Whether every coordinate of `p` lies within `b` pixels (its centres
/// within `4 b` quarter pixels).
fn piece_within(p: &Piece, b: i64) -> (r: bool)
    requires
        0 <= b <= 0x1000_0000_0000_0000,
    ensures
        r == p@.within(b as int),
{
    let b4: i64 = 4 * b;
    let mut i: usize = 0;
    while i < p.components.len()
        invariant
            0 <= b <= 0x1000_0000_0000_0000,
            b4 == 4 * b,
            i <= p.components@.len(),
            forall|k: int| 0 <= k < i ==> #[trigger] p@.cells[k].within(b as int),
        decreases p.components@.len() - i,
    {
        let c = p.components[i];
        assert(p@.cells[i as int] == c@);
        if !(-b <= c.x && c.x <= b && -b <= c.y && c.y <= b && -b4 <= c.center_x4 && c.center_x4 <= b4
            && -b4 <= c.center_y4 && c.center_y4 <= b4) {
            assert(!p@.cells[i as int].within(b as int));
            return false;
        }
        i = i + 1;
    }
    -b <= p.min_y && p.min_y <= b && -b <= p.max_y && p.max_y <= b && -b4 <= p.center_x4 && p.center_x4 <= b4
        && -b4 <= p.center_y4 && p.center_y4 <= b4
}

impl App {
    /// Whether a step of the game can be taken: the machine limits hold
    /// (`steady`), a landing piece can be cleared row by row
    /// (`lands_in_range`), and the falling and waiting pieces have squares.
    pub fn ready(&self) -> (r: bool)
        ensures
            r == (steady(self@) && lands_in_range(self@) && self@.current.cells.len() > 0
                && self@.next.cells.len() > 0),
    {
        let limit: i64 = 0x4_0000_0000_0000;
        if !(piece_within(&self.current_piece, limit) && piece_within(&self.next_piece, limit)) {
            return false;
        }
        let mut j: usize = 0;
        while j < self.pieces.len()
            invariant
                limit == spawn_limit(),
                j <= self.pieces@.len(),
                forall|k: int| 0 <= k < j ==> #[trigger] self@.pieces[k].within(spawn_limit()),
            decreases self.pieces@.len() - j,
        {
            assert(self@.pieces[j as int] == self.pieces@[j as int]@);
            if !piece_within(&self.pieces[j], limit) {
                assert(!self@.pieces[j as int].within(spawn_limit()));
                return false;
            }
            j = j + 1;
        }
        if self.score > u64::MAX - 104000 {
            return false;
        }
        if self.current_piece.components.len() == 0 || self.next_piece.components.len() == 0 {
            return false;
        }
        proof {
            piece::lemma_within_mono(self@.current, spawn_limit(), piece::piece_limit());
            piece::lemma_moves_within(self@.current, false, spawn_limit());
        }
        let mut moved = self.current_piece.clone();
        moved.move_down();
        let landing = if !collides_with_stack(&self.pieces, &moved) { moved } else { self.current_piece.clone() };
        proof {
            piece::lemma_within_mono(self@.current, spawn_limit(), spawn_limit() + 10);
            piece::lemma_within_mono(landing@, spawn_limit() + 10, piece::piece_limit());
        }
        let mut further = landing.clone();
        further.move_down();
        let rests = collides_with_stack(&self.pieces, &further) || landing.min_y == -90;
        !rests || piece::saturate_i8(landing.max_y) < 127
    }
}

} // verus!
