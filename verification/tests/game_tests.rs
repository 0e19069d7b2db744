use tetris::debug::Logger;
use tetris::game::{App, Key, PieceChoice};
use tetris::piece::{Piece, PieceColor, SimplePiece};

fn empty_app() -> App {
    App {
        score: 0,
        highscore: 0,
        exit: false,
        on_pause: false,
        dead: false,
        current_piece: Piece::placeholder(),
        pieces: vec![],
        next_piece: Piece::placeholder(),
        logger: Logger::default(),
    }
}

fn coords(p: &Piece) -> Vec<(i64, i64)> {
    p.components.iter().map(|c| (c.x, c.y)).collect()
}

/// A landed piece made of the given squares, its extent as given.
fn landed(squares: &[(i64, i64)], min_y: i64, max_y: i64) -> Piece {
    Piece {
        color: PieceColor::Red,
        components: squares.iter().map(|&(x, y)| SimplePiece::new(x, y)).collect(),
        min_y,
        max_y,
        center_x4: 0,
        center_y4: 0,
    }
}

fn row(y: i64) -> Vec<(i64, i64)> {
    (0..14).map(|k| (-70 + 10 * k, y)).collect()
}

fn choice(kind: u64, flipped: bool, rotations: u64, color: u64) -> PieceChoice {
    PieceChoice { kind, flipped, rotations, color }
}

#[test]
fn a_full_row_is_cleared_and_scores_1000() {
    let mut app = empty_app();
    app.pieces.push(landed(&row(-90), -90, -90));
    app.pieces.push(landed(&[(0, -80)], -80, -80));
    app.row_clear(-90, 80);
    assert_eq!(app.score, 1000);
    assert!(app.pieces[0].components.is_empty());
    // the square above drops into the cleared row
    assert_eq!(coords(&app.pieces[1]), vec![(0, -90)]);
}

#[test]
fn two_rows_at_once_score_double() {
    let mut app = empty_app();
    let mut both = row(-90);
    both.extend(row(-80));
    app.pieces.push(landed(&both, -90, -80));
    app.pieces.push(landed(&[(20, -70)], -70, -70));
    app.row_clear(-90, 80);
    assert_eq!(app.score, 4000);
    assert_eq!(app.logger.text(), "\"deleting row at -90\"\n\"deleting row at -80\"\n");
    assert!(app.pieces[0].components.is_empty());
    assert_eq!(coords(&app.pieces[1]), vec![(20, -90)]);
}

#[test]
fn a_row_with_a_gap_stays() {
    let mut app = empty_app();
    let mut almost = row(-90);
    almost.pop();
    app.pieces.push(landed(&almost, -90, -90));
    app.row_clear(-90, 80);
    assert_eq!(app.score, 0);
    assert!(app.logger.log.is_empty());
    assert_eq!(app.pieces[0].components.len(), 13);
}

#[test]
fn a_piece_whose_recorded_extent_misses_the_row_keeps_its_squares() {
    let mut app = empty_app();
    // squares in row -90, but recorded as spanning rows 0 to 10
    app.pieces.push(landed(&row(-90), 0, 10));
    app.row_clear(-90, 80);
    // the row counts as full and scores, but its squares stay and then drop
    assert_eq!(app.score, 1000);
    assert_eq!(app.pieces[0].components.len(), 14);
    assert!(app.pieces[0].components.iter().all(|c| c.y == -100));
}

#[test]
fn delete_row_and_gravity() {
    let mut app = empty_app();
    app.pieces.push(landed(&[(0, -90), (0, -80), (0, -70)], -90, -70));
    app.delete_row(-80);
    assert_eq!(coords(&app.pieces[0]), vec![(0, -90), (0, -70)]);
    assert_eq!(app.logger.log.len(), 1);
    assert_eq!(app.logger.log[0].entry, "\"deleting row at -80\"");
    app.gravity(-80);
    assert_eq!(app.logger.log.len(), 1);
    assert_eq!(coords(&app.pieces[0]), vec![(0, -90), (0, -80)]);
    // the recorded extent is not updated
    assert_eq!((app.pieces[0].min_y, app.pieces[0].max_y), (-90, -70));
}

#[test]
fn dead_once_a_piece_reaches_the_top() {
    let mut app = empty_app();
    app.pieces.push(landed(&[(0, 70)], 70, 70));
    app.is_dead();
    assert!(!app.dead);
    app.pieces.push(landed(&[(0, 80)], 80, 80));
    app.is_dead();
    assert!(app.dead);
}

#[test]
fn highscore_follows_the_score() {
    let mut app = empty_app();
    app.score = 5000;
    app.highscore = 3000;
    app.highscore();
    assert_eq!(app.highscore, 5000);
    app.score = 1000;
    app.highscore();
    assert_eq!(app.highscore, 5000);
}

#[test]
fn pausing_twice_resumes() {
    let mut app = empty_app();
    assert!(!app.handle_key_event(Key::Esc));
    assert!(app.on_pause);
    assert!(!app.handle_key_event(Key::Esc));
    assert!(!app.on_pause);
}

#[test]
fn keys() {
    let mut app = empty_app();
    app.init_queue_with(choice(1, false, 0, 0));
    app.next_piece_with(choice(0, false, 0, 0));
    assert!(app.handle_key_event(Key::Enter));
    assert!(!app.handle_key_event(Key::Char('x')));
    assert!(!app.exit);
    let before = coords(&app.current_piece);
    assert!(!app.handle_key_event(Key::Left));
    let after = coords(&app.current_piece);
    assert_eq!(after, before.iter().map(|&(x, y)| (x - 10, y)).collect::<Vec<_>>());
    assert!(!app.handle_key_event(Key::Right));
    assert_eq!(coords(&app.current_piece), before);
    assert!(!app.handle_key_event(Key::Down));
    assert_eq!(coords(&app.current_piece), before);
    assert!(!app.handle_key_event(Key::Char('q')));
    assert!(app.exit);
}

#[test]
fn a_new_piece_comes_in_from_the_waiting_place() {
    let mut app = empty_app();
    app.init_queue_with(choice(0, false, 0, 1));
    // the waiting piece is shown 12 columns right and 3 rows down
    assert_eq!(coords(&app.next_piece), vec![(120, 60), (120, 50), (120, 40), (120, 30)]);
    assert_eq!(app.next_piece.color, PieceColor::Cyan);
    app.next_piece_with(choice(1, false, 0, 2));
    // it then falls from the field, raised until its top reaches row 80
    assert_eq!(coords(&app.current_piece), vec![(0, 80), (0, 70), (0, 60), (0, 50)]);
    assert_eq!((app.current_piece.min_y, app.current_piece.max_y), (50, 80));
    assert_eq!(app.current_piece.color, PieceColor::Cyan);
    assert_eq!(coords(&app.next_piece), vec![(120, 60), (130, 60), (120, 50), (130, 50)]);
    assert_eq!(app.next_piece.color, PieceColor::Yellow);
}

#[test]
fn mirrored_shapes_and_turns_while_waiting() {
    let mut app = empty_app();
    app.init_queue_with(choice(3, true, 0, 0));
    assert_eq!(coords(&app.next_piece), vec![(120, 60), (120, 50), (120, 40), (110, 40)]);
    // turns tried on the piece at its waiting place are refused: it is off the field
    app.next_piece_with(choice(4, true, 2, 6));
    assert_eq!(coords(&app.current_piece), vec![(0, 80), (0, 70), (0, 60), (-10, 60)]);
    assert_eq!(coords(&app.next_piece), vec![(110, 50), (120, 50), (120, 60), (130, 60)]);
    assert_eq!(app.next_piece.color, PieceColor::Green);
}

#[test]
fn a_resting_piece_lands_and_the_next_one_falls() {
    let mut app = empty_app();
    app.init_queue_with(choice(0, false, 0, 0));
    app.next_piece_with(choice(1, false, 0, 0));
    // put the falling piece on the floor
    app.current_piece = Piece::square();
    for _ in 0..20 {
        app.current_piece.move_down();
    }
    assert_eq!(app.current_piece.min_y, -90);
    assert_eq!(coords(&app.next_piece), vec![(120, 60), (130, 60), (120, 50), (130, 50)]);
    assert!(app.ready());
    app.tick_with(choice(2, false, 0, 3));
    assert_eq!(app.logger.text(), "\"piece at bottom, min y: -90\"\n");
    assert_eq!(app.pieces.len(), 1);
    assert_eq!(coords(&app.pieces[0]), vec![(0, -80), (10, -80), (0, -90), (10, -90)]);
    // the waiting block came in: 12 columns left, raised until its top is in row 80
    assert_eq!(coords(&app.current_piece), vec![(0, 80), (10, 80), (0, 70), (10, 70)]);
    assert_eq!(coords(&app.next_piece), vec![(120, 60), (110, 60), (130, 60), (120, 50)]);
    assert_eq!(app.score, 0);
    assert!(!app.dead);
}

#[test]
fn a_paused_game_does_not_move() {
    let mut app = empty_app();
    app.init_queue_with(choice(0, false, 0, 0));
    app.next_piece_with(choice(1, false, 0, 0));
    app.pause();
    let before = coords(&app.current_piece);
    app.tick_with(choice(0, false, 0, 0));
    assert_eq!(coords(&app.current_piece), before);
    app.pause();
    app.tick_with(choice(0, false, 0, 0));
    assert_eq!(coords(&app.current_piece), before.iter().map(|&(x, y)| (x, y - 10)).collect::<Vec<_>>());
}

#[test]
fn restart_clears_the_game() {
    let mut app = empty_app();
    app.init_queue_with(choice(0, false, 0, 0));
    app.next_piece_with(choice(1, false, 0, 0));
    app.score = 7000;
    app.dead = true;
    app.on_pause = true;
    app.pieces.push(landed(&[(0, -90)], -90, -90));
    app.restart_with(9000, choice(2, false, 1, 4));
    assert_eq!((app.score, app.highscore), (0, 9000));
    assert!(!app.dead && !app.on_pause);
    assert!(app.pieces.is_empty());
    assert_eq!(app.next_piece.color, PieceColor::Blue);
}

#[test]
fn a_new_game() {
    let mut logger = Logger::default();
    logger.push("before");
    let app = App::new(logger);
    assert_eq!(app.logger.text(), "\"before\"\n");
    assert_eq!((app.score, app.highscore), (0, 0));
    assert!(app.pieces.is_empty());
    assert!(!app.dead && !app.on_pause && !app.exit);
    assert_eq!(app.current_piece.components.len(), 4);
    assert_eq!(app.next_piece.components.len(), 4);
    // the falling piece starts on the field, at the top
    assert!(!app.current_piece.out_of_bounds());
    assert!(app.ready());
}

#[test]
fn random_ticks_keep_the_score_in_thousands() {
    let mut app = App::new(Logger::default());
    for _ in 0..300 {
        if !app.ready() || app.dead {
            break;
        }
        let before = app.score;
        let high = app.highscore;
        app.tick();
        assert!(app.score >= before);
        assert_eq!((app.score - before) % 1000, 0);
        assert!(app.highscore >= high);
        assert!(app.highscore >= app.score);
    }
}

#[test]
fn moves_never_put_the_piece_on_the_stack() {
    let mut app = empty_app();
    app.init_queue_with(choice(1, false, 0, 0));
    app.next_piece_with(choice(0, false, 0, 0));
    // a landed column right of the falling square
    app.pieces.push(landed(&[(20, 80), (20, 70), (20, 60)], 60, 80));
    let before = coords(&app.current_piece);
    app.move_current_right();
    assert_eq!(coords(&app.current_piece), before);
    app.rotate_current();
    app.move_current_left();
    for c in app.current_piece.components.iter() {
        assert!(!app.pieces[0].is_blocked(c));
    }
}
