//! What holds of the game across its operations.
use vstd::prelude::*;
use crate::game;
use crate::game::{AppModel, Key, PieceChoice};
use crate::piece;
use crate::piece::PieceModel;

verus! {

/// Pressing Esc twice leaves the game as it was.
pub proof fn law_pause_twice(a: AppModel)
    ensures
        game::key_spec(game::key_spec(a, Key::Esc), Key::Esc) == a,
{
}

/// While the game is paused or lost, a tick changes nothing.
pub proof fn law_halted_tick(a: AppModel, c: PieceChoice)
    requires
        a.on_pause || a.dead,
    ensures
        game::tick_spec(a, c) == a,
{
}

/// A lost game stays lost and a quit request stays made, whatever tick or
/// key comes (until a restart).
pub proof fn law_flags_stay(a: AppModel, c: PieceChoice, key: Key)
    ensures
        a.dead ==> game::tick_spec(a, c).dead && game::key_spec(a, key).dead,
        a.exit ==> game::tick_spec(a, c).exit && game::key_spec(a, key).exit,
{
    if !(a.on_pause || a.dead) {
        lemma_handle_piece_flags(a, c);
    }
}

proof fn lemma_handle_piece_flags(a: AppModel, c: PieceChoice)
    ensures
        game::handle_piece_spec(a, c).dead == a.dead,
        game::handle_piece_spec(a, c).exit == a.exit,
        game::handle_piece_spec(a, c).highscore == a.highscore,
{
    let a1 = game::move_current_down_spec(a);
    if game::at_bottom(a1) {
        let b = game::row_clear_spec(
            AppModel { pieces: a1.pieces.push(a1.current), ..a1 },
            a1.current.min_y,
            a1.current.max_y,
        );
        lemma_next_piece_flags(b, c);
    }
}

proof fn lemma_turned_flags(a: AppModel, n: nat)
    ensures
        game::turned(a, n).dead == a.dead,
        game::turned(a, n).on_pause == a.on_pause,
        game::turned(a, n).exit == a.exit,
        game::turned(a, n).score == a.score,
        game::turned(a, n).highscore == a.highscore,
        game::turned(a, n).pieces == a.pieces,
    decreases n,
{
    if n > 0 {
        lemma_turned_flags(a, (n - 1) as nat);
    }
}

proof fn lemma_next_piece_flags(a: AppModel, c: PieceChoice)
    ensures
        game::next_piece_spec(a, c).dead == a.dead,
        game::next_piece_spec(a, c).on_pause == a.on_pause,
        game::next_piece_spec(a, c).exit == a.exit,
        game::next_piece_spec(a, c).score == a.score,
        game::next_piece_spec(a, c).highscore == a.highscore,
        game::next_piece_spec(a, c).pieces == a.pieces,
{
    let a1 = AppModel {
        current: piece::set_center_spec(a.next),
        next: game::shape_spec(c.kind as int, c.flipped, a.next),
        ..a
    };
    lemma_turned_flags(a1, c.rotations as nat);
}

/// What clearing `n` rows at once scores.
pub open spec fn clear_score(n: nat) -> int {
    if n > 1 { 2000 * (n as int) } else { 1000 * (n as int) }
}

pub open spec fn thousands(m: nat) -> int {
    1000 * (m as int)
}

proof fn lemma_scan_score(ps: Seq<PieceModel>, score: int, deleted: Seq<int>, row: int, hi: int)
    ensures
        game::scan_rows(ps, score, deleted, row, hi).2.len() >= deleted.len(),
        game::scan_rows(ps, score, deleted, row, hi).1
            == score + 1000 * (game::scan_rows(ps, score, deleted, row, hi).2.len() - deleted.len()),
    decreases hi + 10 - row,
{
    if row <= hi {
        if game::row_full(ps, row) {
            lemma_scan_score(game::delete_row_spec(ps, row), score + 1000, deleted.push(row), row + 10, hi);
        } else {
            lemma_scan_score(ps, score, deleted, row + 10, hi);
        }
    }
}

/// A row clear scores 1000 for each cleared row, and 1000 more for each
/// when more than one was cleared at once.
pub proof fn law_row_clear_score(a: AppModel, min: int, max: int)
    ensures
        exists|n: nat|
            game::row_clear_spec(a, min, max).score == a.score + clear_score(n),
{
    let lo = piece::clamp_i8(min);
    let hi = piece::clamp_i8(max);
    lemma_scan_score(a.pieces, a.score, Seq::empty(), lo, hi);
    let n = game::scan_rows(a.pieces, a.score, Seq::empty(), lo, hi).2.len();
    assert(game::row_clear_spec(a, min, max).score == a.score + clear_score(n));
}

proof fn lemma_row_clear_thousands(a: AppModel, min: int, max: int)
    ensures
        exists|m: nat| game::row_clear_spec(a, min, max).score == a.score + thousands(m),
{
    law_row_clear_score(a, min, max);
    let n = choose|n: nat|
        game::row_clear_spec(a, min, max).score == a.score + clear_score(n);
    if n > 1 {
        assert(game::row_clear_spec(a, min, max).score == a.score + thousands((2 * n) as nat));
    } else {
        assert(game::row_clear_spec(a, min, max).score == a.score + thousands(n));
    }
}

/// A tick never lowers the score and raises it in whole thousands; after a
/// tick of a running game the high score is at least the score, and it
/// never drops.
pub proof fn law_tick_score(a: AppModel, c: PieceChoice)
    ensures
        exists|m: nat| game::tick_spec(a, c).score == a.score + thousands(m),
        game::tick_spec(a, c).highscore >= a.highscore,
        !(a.on_pause || a.dead) ==> game::tick_spec(a, c).highscore >= game::tick_spec(a, c).score,
{
    if a.on_pause || a.dead {
        assert(game::tick_spec(a, c).score == a.score + thousands(0));
    } else {
        lemma_handle_piece_flags(a, c);
        let a1 = game::move_current_down_spec(a);
        let a2 = if game::at_bottom(a1) {
            let b = game::row_clear_spec(
                AppModel { pieces: a1.pieces.push(a1.current), ..a1 },
                a1.current.min_y,
                a1.current.max_y,
            );
            lemma_row_clear_thousands(AppModel { pieces: a1.pieces.push(a1.current), ..a1 }, a1.current.min_y, a1.current.max_y);
            lemma_next_piece_flags(b, c);
            game::next_piece_spec(b, c)
        } else {
            a1
        };
        assert(exists|m: nat| a2.score == a.score + thousands(m)) by {
            if !game::at_bottom(a1) {
                assert(a2.score == a.score + thousands(0));
            }
        }
        let m1 = choose|m: nat| a2.score == a.score + thousands(m);
        lemma_row_clear_thousands(a2, -90, 80);
        let m2 = choose|m: nat| game::row_clear_spec(a2, -90, 80).score == a2.score + thousands(m);
        assert(game::tick_spec(a, c).score == a.score + thousands((m1 + m2) as nat));
    }
}

/// A move or turn of the falling piece never puts it onto a landed square:
/// if it was clear of the stack, it still is.
pub proof fn law_moves_avoid_stack(a: AppModel)
    requires
        !game::collides(a.pieces, a.current),
    ensures
        !game::collides(game::move_current_down_spec(a).pieces, game::move_current_down_spec(a).current),
        !game::collides(game::move_current_left_spec(a).pieces, game::move_current_left_spec(a).current),
        !game::collides(game::move_current_right_spec(a).pieces, game::move_current_right_spec(a).current),
        !game::collides(game::rotate_current_spec(a).pieces, game::rotate_current_spec(a).current),
{
}

/// A sideways move or a turn never takes the falling piece off the field:
/// if it was on the field, it still is.
pub proof fn law_moves_stay_on_field(a: AppModel)
    requires
        !piece::outside_field(a.current),
    ensures
        !piece::outside_field(game::move_current_left_spec(a).current),
        !piece::outside_field(game::move_current_right_spec(a).current),
        !piece::outside_field(game::rotate_current_spec(a).current),
{
}

/// Every square of the piece is on the grid of tens.
pub open spec fn on_grid(p: PieceModel) -> bool {
    forall|i: int| 0 <= i < p.cells.len() ==> #[trigger] p.cells[i].x % 10 == 0 && p.cells[i].y % 10 == 0
}

/// Where a turn puts each square: the squares of a turned piece are those
/// of the piece turned a quarter about a point, then shifted by whole
/// tens so that the lowest and leftmost ones are on the grid.
pub proof fn law_rotation_positions(p: PieceModel, i: int)
    requires
        p.cells.len() > 0,
        0 <= i < p.cells.len(),
    ensures
        ({
            let tx = piece::tens(piece::round_quarter(p.center_x4 + p.center_y4 - 4 * piece::highest_y(p.cells)));
            let ty = piece::tens(piece::round_quarter(4 * piece::lowest_x(p.cells) - p.center_x4 + p.center_y4));
            &&& piece::rotate_spec(p).cells[i].x == piece::highest_y(p.cells) - p.cells[i].y + 10 * tx
            &&& piece::rotate_spec(p).cells[i].y == p.cells[i].x - piece::lowest_x(p.cells) + 10 * ty
            &&& piece::rotate_spec(p).min_y == 10 * ty
            &&& piece::rotate_spec(p).max_y == piece::highest_x(p.cells) - piece::lowest_x(p.cells) + 10 * ty
        }),
{
    piece::lemma_rotation_positions(p, i);
}

/// A turn is a rigid quarter turn: the offsets between any two squares turn
/// by a right angle, and the number of squares stays.
pub proof fn law_rotation_is_quarter_turn(p: PieceModel, i: int, j: int)
    requires
        p.cells.len() > 0,
        0 <= i < p.cells.len(),
        0 <= j < p.cells.len(),
    ensures
        piece::rotate_spec(p).cells.len() == p.cells.len(),
        piece::rotate_spec(p).cells[i].x - piece::rotate_spec(p).cells[j].x == p.cells[j].y - p.cells[i].y,
        piece::rotate_spec(p).cells[i].y - piece::rotate_spec(p).cells[j].y == p.cells[i].x - p.cells[j].x,
{
    law_rotation_positions(p, i);
    law_rotation_positions(p, j);
}

/// Moves and turns keep a piece's squares on the grid of tens.
pub proof fn law_grid_kept(p: PieceModel, force: bool)
    requires
        on_grid(p),
    ensures
        on_grid(piece::move_right_spec(p, force)),
        on_grid(piece::move_left_spec(p, force)),
        on_grid(piece::move_down_spec(p)),
        on_grid(piece::move_up_spec(p)),
        p.cells.len() > 0 ==> on_grid(piece::rotate_spec(p)),
{
    lemma_shift_grid(p, 10, 0);
    lemma_shift_grid(p, -10, 0);
    lemma_shift_grid(p, 0, -10);
    lemma_shift_grid(p, 0, 10);
    if p.cells.len() > 0 {
        lemma_rotate_grid(p);
    }
}

/// Shifting by whole tens keeps squares on the grid.
proof fn lemma_shift_grid(p: PieceModel, dx: int, dy: int)
    requires
        on_grid(p),
        dx % 10 == 0,
        dy % 10 == 0,
    ensures
        on_grid(piece::recentered(p, piece::shift_cells(p.cells, dx, dy))),
        on_grid(piece::recentered(
            PieceModel { min_y: p.min_y + dy, max_y: p.max_y + dy, ..p },
            piece::shift_cells(p.cells, dx, dy),
        )),
{
    let q = piece::shift_cells(p.cells, dx, dy);
    assert(q.len() == p.cells.len());
    assert forall|i: int| 0 <= i < q.len() implies #[trigger] q[i].x % 10 == 0 && q[i].y % 10 == 0 by {
        assert(p.cells[i].x % 10 == 0 && p.cells[i].y % 10 == 0);
        lemma_grid_step(p.cells[i].x, -dx, 0);
        lemma_grid_step(p.cells[i].y, -dy, 0);
    }
}

proof fn lemma_grid_step(a: int, b: int, t: int)
    requires
        a % 10 == 0,
        b % 10 == 0,
    ensures
        (a - b + 10 * t) % 10 == 0,
{
    assert((a - b + 10 * t) % 10 == 0) by (nonlinear_arith)
        requires
            a % 10 == 0,
            b % 10 == 0,
    ;
}

proof fn lemma_rotate_grid(p: PieceModel)
    requires
        on_grid(p),
        p.cells.len() > 0,
    ensures
        on_grid(piece::rotate_spec(p)),
{
    piece::lemma_extremes(p.cells);
    let ky = choose|k: int| 0 <= k < p.cells.len() && #[trigger] p.cells[k].y == piece::highest_y(p.cells);
    let kx = choose|k: int| 0 <= k < p.cells.len() && #[trigger] p.cells[k].x == piece::lowest_x(p.cells);
    assert(p.cells[ky].x % 10 == 0 && p.cells[ky].y % 10 == 0);
    assert(p.cells[kx].x % 10 == 0 && p.cells[kx].y % 10 == 0);
    let q = piece::rotate_spec(p);
    assert(q.cells.len() == p.cells.len());
    let tx = piece::tens(piece::round_quarter(p.center_x4 + p.center_y4 - 4 * piece::highest_y(p.cells)));
    let ty = piece::tens(piece::round_quarter(4 * piece::lowest_x(p.cells) - p.center_x4 + p.center_y4));
    assert forall|i: int| 0 <= i < q.cells.len() implies #[trigger] q.cells[i].x % 10 == 0 && q.cells[i].y % 10 == 0 by {
        assert(p.cells[i].x % 10 == 0 && p.cells[i].y % 10 == 0);
        law_rotation_positions(p, i);
        lemma_grid_step(piece::highest_y(p.cells), p.cells[i].y, tx);
        lemma_grid_step(p.cells[i].x, piece::lowest_x(p.cells), ty);
    }
}

/// A forced move right then left, or a move down then up (away from the
/// floor and the top), brings the squares back where they were.
pub proof fn law_moves_undo(p: PieceModel)
    ensures
        piece::move_left_spec(piece::move_right_spec(p, true), true).cells == p.cells,
        piece::move_right_spec(piece::move_left_spec(p, true), true).cells == p.cells,
        (forall|i: int| 0 <= i < p.cells.len() ==> -90 < #[trigger] p.cells[i].y < 90) ==> {
            &&& piece::move_up_spec(piece::move_down_spec(p)).cells == p.cells
            &&& piece::move_up_spec(piece::move_down_spec(p)).min_y == p.min_y
            &&& piece::move_up_spec(piece::move_down_spec(p)).max_y == p.max_y
        },
{
    assert(piece::move_left_spec(piece::move_right_spec(p, true), true).cells =~= p.cells);
    assert(piece::move_right_spec(piece::move_left_spec(p, true), true).cells =~= p.cells);
    if forall|i: int| 0 <= i < p.cells.len() ==> -90 < #[trigger] p.cells[i].y < 90 {
        let d = piece::move_down_spec(p);
        assert(!exists|i: int| 0 <= i < p.cells.len() && #[trigger] p.cells[i].y <= -90);
        assert(!exists|i: int| 0 <= i < d.cells.len() && #[trigger] d.cells[i].y >= 80) by {
            assert forall|i: int| 0 <= i < d.cells.len() implies #[trigger] d.cells[i].y < 80 by {
                assert(-90 < p.cells[i].y < 90);
            }
        }
        assert(piece::move_up_spec(d).cells =~= p.cells);
    }
}

proof fn lemma_off_row_clear(cells: Seq<piece::Cell>, row: int)
    ensures
        forall|i: int| 0 <= i < game::off_row(cells, row).len() ==> piece::clamp_i8(#[trigger] game::off_row(cells, row)[i].y) != row,
        game::off_row(cells, row).len() <= cells.len(),
    decreases cells.len(),
{
    if cells.len() > 0 {
        lemma_off_row_clear(cells.drop_last(), row);
        let o = game::off_row(cells, row);
        let oi = game::off_row(cells.drop_last(), row);
        if piece::clamp_i8(cells.last().y) != row {
            assert forall|i: int| 0 <= i < o.len() implies piece::clamp_i8(#[trigger] o[i].y) != row by {
                if i < oi.len() {
                    assert(o[i] == oi[i]);
                }
            }
        }
    }
}

/// Deleting a row leaves no square in that row in any landed piece whose
/// recorded extent reaches it, and leaves the other pieces as they were.
pub proof fn law_delete_row_clears(ps: Seq<PieceModel>, row: int, j: int)
    requires
        0 <= j < ps.len(),
    ensures
        game::delete_row_spec(ps, row).len() == ps.len(),
        piece::clamp_i8(ps[j].max_y) >= row && piece::clamp_i8(ps[j].min_y) <= row ==>
            forall|i: int| 0 <= i < game::delete_row_spec(ps, row)[j].cells.len()
                ==> piece::clamp_i8(#[trigger] game::delete_row_spec(ps, row)[j].cells[i].y) != row,
        !(piece::clamp_i8(ps[j].max_y) >= row && piece::clamp_i8(ps[j].min_y) <= row) ==>
            game::delete_row_spec(ps, row)[j] == ps[j],
{
    lemma_off_row_clear(ps[j].cells, row);
}

/// Four squares whose centres add up to whole pixels: the centre of such a
/// piece is their exact mean, with nothing rounded away.
pub open spec fn aligned(p: PieceModel) -> bool {
    &&& p.cells.len() == 4
    &&& piece::sum_x4(p.cells) % 4 == 0
    &&& piece::sum_y4(p.cells) % 4 == 0
}

proof fn lemma_sum_offset(a: Seq<piece::Cell>, b: Seq<piece::Cell>, dx: int, dy: int)
    requires
        a.len() == b.len(),
        forall|i: int| 0 <= i < a.len() ==> #[trigger] b[i].center_x4 == a[i].center_x4 + dx
            && b[i].center_y4 == a[i].center_y4 + dy,
    ensures
        piece::sum_x4(b) == piece::sum_x4(a) + a.len() * dx,
        piece::sum_y4(b) == piece::sum_y4(a) + a.len() * dy,
    decreases a.len(),
{
    if a.len() == 0 {
        assert(a.len() * dx == 0 && a.len() * dy == 0) by (nonlinear_arith)
            requires
                a.len() == 0,
        ;
    } else {
        let a0 = a.drop_last();
        let b0 = b.drop_last();
        assert forall|i: int| 0 <= i < a0.len() implies #[trigger] b0[i].center_x4 == a0[i].center_x4 + dx
            && b0[i].center_y4 == a0[i].center_y4 + dy by {
            assert(a0[i] == a[i]);
            assert(b0[i] == b[i]);
        }
        lemma_sum_offset(a0, b0, dx, dy);
        assert(b.last() == b[a.len() - 1]);
        assert(a.last() == a[a.len() - 1]);
        let n0 = a0.len() as int;
        let n = a.len() as int;
        assert(n0 * dx + dx == n * dx && n0 * dy + dy == n * dy) by (nonlinear_arith)
            requires
                n0 + 1 == n,
        ;
        assert(piece::sum_x4(a) == piece::sum_x4(a0) + a.last().center_x4);
        assert(piece::sum_x4(b) == piece::sum_x4(b0) + b.last().center_x4);
        assert(piece::sum_y4(a) == piece::sum_y4(a0) + a.last().center_y4);
        assert(piece::sum_y4(b) == piece::sum_y4(b0) + b.last().center_y4);
    }
}

/// Every shape the game makes is aligned.
pub proof fn law_shapes_aligned()
    ensures
        aligned(piece::long_spec()),
        aligned(piece::square_spec()),
        aligned(piece::t_piece_spec()),
        aligned(piece::l_piece_spec()),
        aligned(piece::inverted_l_piece_spec()),
        aligned(piece::z_piece_spec()),
        aligned(piece::inverted_z_piece_spec()),
{
    reveal_with_fuel(piece::sum_x4, 5);
    reveal_with_fuel(piece::sum_y4, 5);
}

proof fn lemma_aligned_center(p: PieceModel)
    requires
        aligned(p),
    ensures
        4 * piece::center_of(p.cells).0 == piece::sum_x4(p.cells),
        4 * piece::center_of(p.cells).1 == piece::sum_y4(p.cells),
{
}

/// Moves and turns keep a piece aligned, so the centre a piece turns about
/// is always the exact mean of its squares' centres.
pub proof fn law_aligned_kept(p: PieceModel, force: bool)
    requires
        aligned(p),
    ensures
        4 * piece::center_of(p.cells).0 == piece::sum_x4(p.cells),
        4 * piece::center_of(p.cells).1 == piece::sum_y4(p.cells),
        aligned(piece::move_right_spec(p, force)),
        aligned(piece::move_left_spec(p, force)),
        aligned(piece::move_down_spec(p)),
        aligned(piece::move_up_spec(p)),
        aligned(piece::rotate_spec(p)),
{
    lemma_aligned_center(p);
    lemma_sum_offset(p.cells, piece::shift_cells(p.cells, 10, 0), 40, 0);
    lemma_sum_offset(p.cells, piece::shift_cells(p.cells, -10, 0), -40, 0);
    lemma_sum_offset(p.cells, piece::shift_cells(p.cells, 0, -10), 0, -40);
    lemma_sum_offset(p.cells, piece::shift_cells(p.cells, 0, 10), 0, 40);
    let q = piece::rotate_spec(p);
    let xd = piece::round_to_tenths_spec(p.center_x4 + p.center_y4 - 4 * piece::highest_y(p.cells));
    let yd = piece::round_to_tenths_spec(4 * piece::lowest_x(p.cells) - p.center_x4 + p.center_y4);
    lemma_sum_offset(p.cells, q.cells, -xd, -yd);
}

/// A new game starts at nothing: no score, no high score, nothing landed,
/// neither paused, lost, nor quitting.
pub proof fn law_new_game(first: PieceChoice, second: PieceChoice)
    ensures
        game::new_spec(first, second).score == 0,
        game::new_spec(first, second).highscore == 0,
        game::new_spec(first, second).pieces.len() == 0,
        !game::new_spec(first, second).on_pause,
        !game::new_spec(first, second).dead,
        !game::new_spec(first, second).exit,
{
    lemma_next_piece_flags(game::init_queue_spec(game::initial_spec(), first), second);
}

/// A restart empties the stack, zeroes the score, lifts pause and loss, and
/// takes the stored high score.
pub proof fn law_restart(a: AppModel, stored: int, c: PieceChoice)
    ensures
        game::restart_spec(a, stored, c).score == 0,
        game::restart_spec(a, stored, c).highscore == stored,
        game::restart_spec(a, stored, c).pieces.len() == 0,
        !game::restart_spec(a, stored, c).on_pause,
        !game::restart_spec(a, stored, c).dead,
        game::restart_spec(a, stored, c).exit == a.exit,
{
    lemma_next_piece_flags(
        AppModel { highscore: stored, score: 0, on_pause: false, dead: false, pieces: Seq::empty(), ..a },
        c,
    );
}

/// A value that bounds a sequence of squares from below and is one of
/// their rows is its lowest row (and likewise for the highest).
proof fn lemma_extreme_unique(cells: Seq<piece::Cell>, m: int, k: int)
    requires
        cells.len() > 0,
        0 <= k < cells.len(),
        cells[k].y == m,
    ensures
        (forall|i: int| 0 <= i < cells.len() ==> m <= #[trigger] cells[i].y) ==> piece::lowest_y(cells) == m,
        (forall|i: int| 0 <= i < cells.len() ==> #[trigger] cells[i].y <= m) ==> piece::highest_y(cells) == m,
{
    piece::lemma_extremes(cells);
}

/// After a turn the recorded lowest and highest rows are those of the
/// turned squares.
pub proof fn law_rotation_extent(p: PieceModel)
    requires
        p.cells.len() > 0,
    ensures
        piece::rotate_spec(p).min_y == piece::lowest_y(piece::rotate_spec(p).cells),
        piece::rotate_spec(p).max_y == piece::highest_y(piece::rotate_spec(p).cells),
{
    let q = piece::rotate_spec(p);
    piece::lemma_extremes(p.cells);
    let kx = choose|k: int| 0 <= k < p.cells.len() && #[trigger] p.cells[k].x == piece::lowest_x(p.cells);
    let kh = choose|k: int| 0 <= k < p.cells.len() && #[trigger] p.cells[k].x == piece::highest_x(p.cells);
    piece::lemma_rotation_positions(p, kx);
    piece::lemma_rotation_positions(p, kh);
    assert forall|i: int| 0 <= i < q.cells.len() implies q.min_y <= #[trigger] q.cells[i].y && q.cells[i].y <= q.max_y by {
        piece::lemma_rotation_positions(p, i);
    }
    lemma_extreme_unique(q.cells, q.min_y, kx);
    lemma_extreme_unique(q.cells, q.max_y, kh);
}

/// A piece whose centre is the centre of its squares (as after any move)
/// comes back whole from a forced move right then left, and from a move up
/// then down when its squares lie in rows -90 to 70.
pub proof fn law_moves_undo_whole(p: PieceModel)
    requires
        piece::set_center_spec(p) == p,
    ensures
        piece::move_left_spec(piece::move_right_spec(p, true), true) == p,
        (forall|i: int| 0 <= i < p.cells.len() ==> -90 <= #[trigger] p.cells[i].y <= 70) ==>
            piece::move_down_spec(piece::move_up_spec(p)) == p,
{
    assert(piece::shift_cells(piece::shift_cells(p.cells, 10, 0), -10, 0) =~= p.cells);
    if forall|i: int| 0 <= i < p.cells.len() ==> -90 <= #[trigger] p.cells[i].y <= 70 {
        let u = piece::move_up_spec(p);
        assert(!exists|i: int| 0 <= i < p.cells.len() && #[trigger] p.cells[i].y >= 80) by {
            assert forall|i: int| 0 <= i < p.cells.len() implies #[trigger] p.cells[i].y < 80 by {
                assert(-90 <= p.cells[i].y <= 70);
            }
        }
        assert(!exists|i: int| 0 <= i < u.cells.len() && #[trigger] u.cells[i].y <= -90) by {
            assert forall|i: int| 0 <= i < u.cells.len() implies #[trigger] u.cells[i].y > -90 by {
                assert(-90 <= p.cells[i].y <= 70);
            }
        }
        assert(piece::shift_cells(piece::shift_cells(p.cells, 0, 10), 0, -10) =~= p.cells);
    }
}

// ---------------------------------------------------------------------
// Clearing rows: which rows go
// ---------------------------------------------------------------------

/// The rows `row, row + 10, ...` up to and including `hi` that are full in
/// `pieces`, from the bottom up.
pub open spec fn full_rows_between(pieces: Seq<PieceModel>, row: int, hi: int) -> Seq<int>
    decreases hi + 10 - row,
{
    if row > hi {
        Seq::empty()
    } else {
        (if game::row_full(pieces, row) { seq![row] } else { Seq::empty() }) + full_rows_between(pieces, row + 10, hi)
    }
}

/// Dropping the squares of row `r` from a list of squares does not change
/// whether a square of another row `c.y` is among them.
proof fn lemma_off_row_same_place(cells: Seq<piece::Cell>, r: int, c: piece::Cell)
    requires
        -128 <= c.y <= 127,
        c.y != r,
    ensures
        (exists|i: int| 0 <= i < game::off_row(cells, r).len() && piece::same_place(#[trigger] game::off_row(cells, r)[i], c))
            == (exists|i: int| 0 <= i < cells.len() && piece::same_place(#[trigger] cells[i], c)),
    decreases cells.len(),
{
    if cells.len() > 0 {
        let init = cells.drop_last();
        lemma_off_row_same_place(init, r, c);
        let o = game::off_row(cells, r);
        let oi = game::off_row(init, r);
        let last = cells.last();
        assert(last == cells[cells.len() - 1]);
        if exists|i: int| 0 <= i < cells.len() && piece::same_place(#[trigger] cells[i], c) {
            let i = choose|i: int| 0 <= i < cells.len() && piece::same_place(#[trigger] cells[i], c);
            if i < init.len() {
                assert(init[i] == cells[i]);
                let k = choose|k: int| 0 <= k < oi.len() && piece::same_place(#[trigger] oi[k], c);
                if piece::clamp_i8(last.y) != r {
                    assert(o[k] == oi[k]);
                } else {
                    assert(o == oi);
                }
            } else {
                assert(piece::clamp_i8(last.y) != r);
                assert(o == oi.push(last));
                assert(o[oi.len() as int] == last);
            }
        }
        if exists|i: int| 0 <= i < o.len() && piece::same_place(#[trigger] o[i], c) {
            let i = choose|i: int| 0 <= i < o.len() && piece::same_place(#[trigger] o[i], c);
            if piece::clamp_i8(last.y) != r {
                assert(o == oi.push(last));
                if i < oi.len() {
                    assert(o[i] == oi[i]);
                    let k = choose|k: int| 0 <= k < init.len() && piece::same_place(#[trigger] init[k], c);
                    assert(init[k] == cells[k]);
                } else {
                    assert(o[i] == last);
                }
            } else {
                assert(o == oi);
                let k = choose|k: int| 0 <= k < init.len() && piece::same_place(#[trigger] init[k], c);
                assert(init[k] == cells[k]);
            }
        }
    }
}

/// Deleting row `r` does not change whether another row is full.
proof fn lemma_delete_keeps_full(ps: Seq<PieceModel>, r: int, r2: int)
    requires
        -128 <= r2 <= 127,
        r != r2,
    ensures
        game::row_full(game::delete_row_spec(ps, r), r2) == game::row_full(ps, r2),
{
    let d = game::delete_row_spec(ps, r);
    assert forall|k: int| 0 <= k < 14 implies game::hits(d, #[trigger] piece::whole_line_spec(r2).cells[k])
        == game::hits(ps, piece::whole_line_spec(r2).cells[k]) by {
        let c = piece::whole_line_spec(r2).cells[k];
        assert(c.y == r2);
        assert forall|j: int| 0 <= j < ps.len() implies piece::covers(#[trigger] d[j], c) == piece::covers(ps[j], c) by {
            assert(d[j] == game::trim_spec(ps[j], r));
            lemma_off_row_same_place(ps[j].cells, r, c);
        }
        if game::hits(d, c) {
            let j = choose|j: int| 0 <= j < d.len() && piece::covers(#[trigger] d[j], c);
            assert(piece::covers(ps[j], c));
        }
        if game::hits(ps, c) {
            let j = choose|j: int| 0 <= j < ps.len() && piece::covers(#[trigger] ps[j], c);
            assert(piece::covers(d[j], c));
        }
    }
    if game::row_full(ps, r2) {
        assert forall|k: int| 0 <= k < 14 implies game::hits(d, #[trigger] piece::whole_line_spec(r2).cells[k]) by {
            assert(game::hits(ps, piece::whole_line_spec(r2).cells[k]));
        }
    }
    if game::row_full(d, r2) {
        assert forall|k: int| 0 <= k < 14 implies game::hits(ps, #[trigger] piece::whole_line_spec(r2).cells[k]) by {
            assert(game::hits(d, piece::whole_line_spec(r2).cells[k]));
        }
    }
}

proof fn lemma_full_rows_after_delete(ps: Seq<PieceModel>, r: int, row: int, hi: int)
    requires
        r < row,
        -128 <= row,
        hi <= 127,
    ensures
        full_rows_between(game::delete_row_spec(ps, r), row, hi) == full_rows_between(ps, row, hi),
    decreases hi + 10 - row,
{
    if row <= hi {
        lemma_delete_keeps_full(ps, r, row);
        lemma_full_rows_after_delete(ps, r, row + 10, hi);
    }
}

proof fn lemma_scan_finds_full_rows(ps: Seq<PieceModel>, score: int, deleted: Seq<int>, row: int, hi: int)
    requires
        -128 <= row,
        hi <= 127,
    ensures
        game::scan_rows(ps, score, deleted, row, hi).2 == deleted + full_rows_between(ps, row, hi),
    decreases hi + 10 - row,
{
    if row > hi {
        assert(deleted + Seq::<int>::empty() =~= deleted);
    } else if game::row_full(ps, row) {
        lemma_scan_finds_full_rows(game::delete_row_spec(ps, row), score + 1000, deleted.push(row), row + 10, hi);
        lemma_full_rows_after_delete(ps, row, row + 10, hi);
        assert(deleted.push(row) + full_rows_between(ps, row + 10, hi)
            =~= deleted + (seq![row] + full_rows_between(ps, row + 10, hi)));
    } else {
        lemma_scan_finds_full_rows(ps, score, deleted, row + 10, hi);
        assert(Seq::<int>::empty() + full_rows_between(ps, row + 10, hi) =~= full_rows_between(ps, row + 10, hi));
    }
}

/// A row clear from `min` to `max` deletes exactly the full rows
/// `min, min + 10, ...` up to and including `max` (as `i8`), bottom up, logs
/// one entry for each, and scores 1000 for each, doubled when more than one
/// goes at once.
pub proof fn law_row_clear_full_rows(a: AppModel, min: int, max: int)
    ensures
        game::rows_cleared(a, min, max) == full_rows_between(a.pieces, piece::clamp_i8(min), piece::clamp_i8(max)),
        game::cleared_rows(a, min, max) == full_rows_between(a.pieces, piece::clamp_i8(min), piece::clamp_i8(max)).len(),
        game::row_clear_spec(a, min, max).score
            == a.score + clear_score(full_rows_between(a.pieces, piece::clamp_i8(min), piece::clamp_i8(max)).len()),
{
    let lo = piece::clamp_i8(min);
    let hi = piece::clamp_i8(max);
    lemma_scan_finds_full_rows(a.pieces, a.score, Seq::empty(), lo, hi);
    assert(Seq::<int>::empty() + full_rows_between(a.pieces, lo, hi) =~= full_rows_between(a.pieces, lo, hi));
    lemma_scan_score(a.pieces, a.score, Seq::empty(), lo, hi);
}

// ---------------------------------------------------------------------
// When the falling piece comes to rest
// ---------------------------------------------------------------------

/// Some landed piece covers the place one row below square `i` of the
/// falling piece.
pub open spec fn blocked_below(a: AppModel, i: int) -> bool {
    exists|j: int| 0 <= j < a.pieces.len() && piece::covers(#[trigger] a.pieces[j], piece::shift_cell(a.current.cells[i], 0, -10))
}

/// The falling piece is at rest when its recorded lowest row is the floor
/// row -90; above the floor, it is at rest exactly when a landed square
/// lies right below one of its squares. An unobstructed piece off the floor
/// keeps falling.
pub proof fn law_at_rest(a: AppModel)
    ensures
        a.current.min_y == -90 ==> game::at_bottom(a),
        (forall|i: int| 0 <= i < a.current.cells.len() ==> #[trigger] a.current.cells[i].y > -90) ==> (game::at_bottom(a)
            <==> (a.current.min_y == -90 || exists|i: int| 0 <= i < a.current.cells.len() && #[trigger] blocked_below(a, i))),
{
    let p = a.current;
    if forall|i: int| 0 <= i < p.cells.len() ==> #[trigger] p.cells[i].y > -90 {
        let d = piece::move_down_spec(p);
        assert(!exists|i: int| 0 <= i < p.cells.len() && #[trigger] p.cells[i].y <= -90);
        assert(d.cells == piece::shift_cells(p.cells, 0, -10));
        if game::collides(a.pieces, d) {
            let i = choose|i: int| 0 <= i < d.cells.len() && game::hits(a.pieces, #[trigger] d.cells[i]);
            assert(d.cells[i] == piece::shift_cell(p.cells[i], 0, -10));
            assert(blocked_below(a, i));
        }
        if exists|i: int| 0 <= i < p.cells.len() && #[trigger] blocked_below(a, i) {
            let i = choose|i: int| 0 <= i < p.cells.len() && #[trigger] blocked_below(a, i);
            assert(d.cells[i] == piece::shift_cell(p.cells[i], 0, -10));
            assert(game::hits(a.pieces, d.cells[i]));
        }
    }
}

// ---------------------------------------------------------------------
// The waiting piece
// ---------------------------------------------------------------------

/// The squares (lower-left corners) of each shape as made: 0 the upright
/// line, 1 the block, 2 the T, 3 the L (with its foot left when flipped),
/// 4 the Z (mirrored when flipped: its upper pair right of its lower pair).
pub open spec fn shape_squares(kind: int, flipped: bool) -> Seq<(int, int)> {
    if kind == 0 {
        seq![(0, 90), (0, 80), (0, 70), (0, 60)]
    } else if kind == 1 {
        seq![(0, 90), (10, 90), (0, 80), (10, 80)]
    } else if kind == 2 {
        seq![(0, 90), (-10, 90), (10, 90), (0, 80)]
    } else if kind == 3 {
        if flipped {
            seq![(0, 90), (0, 80), (0, 70), (-10, 70)]
        } else {
            seq![(0, 90), (0, 80), (0, 70), (10, 70)]
        }
    } else {
        if flipped {
            seq![(-10, 80), (0, 80), (0, 90), (10, 90)]
        } else {
            seq![(-10, 90), (0, 90), (0, 80), (10, 80)]
        }
    }
}

proof fn lemma_pushed_right_cells(p: PieceModel, n: nat)
    ensures
        game::pushed_right(p, n).cells.len() == p.cells.len(),
        forall|i: int| #![trigger game::pushed_right(p, n).cells[i]] 0 <= i < p.cells.len() ==>
            game::pushed_right(p, n).cells[i].x == p.cells[i].x + 10 * n
            && game::pushed_right(p, n).cells[i].y == p.cells[i].y,
    decreases n,
{
    if n > 0 {
        lemma_pushed_right_cells(p, (n - 1) as nat);
    }
}

proof fn lemma_lowered_cells(p: PieceModel, n: nat)
    requires
        forall|i: int| 0 <= i < p.cells.len() ==> #[trigger] p.cells[i].y > -90 + 10 * n,
    ensures
        game::lowered(p, n).cells.len() == p.cells.len(),
        forall|i: int| #![trigger game::lowered(p, n).cells[i]] 0 <= i < p.cells.len() ==>
            game::lowered(p, n).cells[i].x == p.cells[i].x
            && game::lowered(p, n).cells[i].y == p.cells[i].y - 10 * n,
    decreases n,
{
    if n > 0 {
        let m = (n - 1) as nat;
        assert forall|i: int| 0 <= i < p.cells.len() implies #[trigger] p.cells[i].y > -90 + 10 * m by {
            assert(p.cells[i].y > -90 + 10 * n);
        }
        lemma_lowered_cells(p, m);
        let q = game::lowered(p, m);
        assert(!exists|i: int| 0 <= i < q.cells.len() && #[trigger] q.cells[i].y <= -90) by {
            assert forall|i: int| 0 <= i < q.cells.len() implies #[trigger] q.cells[i].y > -90 by {
                assert(p.cells[i].y > -90 + 10 * n);
                assert(q.cells[i].y == p.cells[i].y - 10 * m);
            }
        }
    }
}

/// After a new piece comes in, the waiting piece is the drawn shape, shown
/// twelve columns right of and three rows below where it is made; the two
/// mirror images of shapes 3 and 4 differ.
pub proof fn law_waiting_piece(a: AppModel, c: PieceChoice)
    requires
        0 <= c.kind <= 4,
    ensures
        game::next_piece_spec(a, c).next.cells.len() == 4,
        forall|i: int| 0 <= i < 4 ==> {
            &&& #[trigger] game::next_piece_spec(a, c).next.cells[i].x == shape_squares(c.kind as int, c.flipped)[i].0 + 120
            &&& game::next_piece_spec(a, c).next.cells[i].y == shape_squares(c.kind as int, c.flipped)[i].1 - 30
        },
        shape_squares(3, true) != shape_squares(3, false),
        shape_squares(4, true) != shape_squares(4, false),
{
    let a1 = AppModel {
        current: piece::set_center_spec(a.next),
        next: game::shape_spec(c.kind as int, c.flipped, a.next),
        ..a
    };
    game::lemma_turned_keeps(a1, c.rotations as nat);
    let made = game::shape_spec(c.kind as int, c.flipped, a.next);
    let shown = PieceModel { color: game::palette(c.color as int), ..made };
    assert(made.cells.len() == 4);
    assert forall|i: int| 0 <= i < 4 implies #[trigger] made.cells[i].x == shape_squares(c.kind as int, c.flipped)[i].0
        && made.cells[i].y == shape_squares(c.kind as int, c.flipped)[i].1 by {
        if c.kind == 0 {
        } else if c.kind == 1 {
        } else if c.kind == 2 {
        } else if c.kind == 3 {
        } else {
        }
    }
    lemma_pushed_right_cells(shown, 12);
    let pushed = game::pushed_right(shown, 12);
    assert forall|i: int| 0 <= i < pushed.cells.len() implies #[trigger] pushed.cells[i].y > -90 + 10 * 3 by {
        assert(pushed.cells[i].y == shown.cells[i].y);
        assert(made.cells[i].y == shape_squares(c.kind as int, c.flipped)[i].1);
    }
    lemma_lowered_cells(pushed, 3);
    let fin = game::lowered(pushed, 3);
    assert(game::next_piece_spec(a, c).next == fin);
    assert forall|i: int| 0 <= i < 4 implies {
        &&& #[trigger] game::next_piece_spec(a, c).next.cells[i].x == shape_squares(c.kind as int, c.flipped)[i].0 + 120
        &&& game::next_piece_spec(a, c).next.cells[i].y == shape_squares(c.kind as int, c.flipped)[i].1 - 30
    } by {
        assert(fin.cells[i].x == pushed.cells[i].x);
        assert(pushed.cells[i].x == shown.cells[i].x + 120);
        assert(made.cells[i].x == shape_squares(c.kind as int, c.flipped)[i].0);
    }
    assert(shape_squares(3, true)[3] != shape_squares(3, false)[3]);
    assert(shape_squares(4, true)[0] != shape_squares(4, false)[0]);
}


/// No key puts the falling piece onto a landed square or off the field: if
/// it was clear of the stack and on the field before the key, it still is
/// after; Up either turns the piece or leaves it where it was.
pub proof fn law_keys_keep_clear(a: AppModel, key: Key)
    ensures
        !game::collides(a.pieces, a.current) ==> !game::collides(
            game::key_spec(a, key).pieces,
            game::key_spec(a, key).current,
        ),
        !piece::outside_field(a.current) ==> !piece::outside_field(game::key_spec(a, key).current),
        game::key_spec(a, key).pieces == a.pieces,
        game::key_spec(a, Key::Up).current == a.current
            || game::key_spec(a, Key::Up).current == piece::rotate_spec(a.current),
{
}

/// After a tick of a running game, the game is lost exactly when some
/// landed piece's recorded top has reached row 80.
pub proof fn law_tick_death(a: AppModel, c: PieceChoice)
    requires
        !a.on_pause,
        !a.dead,
    ensures
        game::tick_spec(a, c).dead <==> exists|j: int|
            0 <= j < game::tick_spec(a, c).pieces.len() && #[trigger] game::tick_spec(a, c).pieces[j].max_y >= 80,
{
    lemma_handle_piece_flags(a, c);
    let h = game::highscore_spec(game::handle_piece_spec(a, c));
    assert(h.pieces == game::handle_piece_spec(a, c).pieces);
    assert(!h.dead);
    assert(game::tick_spec(a, c).pieces == h.pieces);
}

} // verus!
