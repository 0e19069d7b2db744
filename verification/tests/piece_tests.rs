use tetris::piece::{get_center, get_min_x, get_max_y, get_min_y, round_to_tenths, saturate_i8, Piece, PieceColor, SimplePiece};

fn coords(p: &Piece) -> Vec<(i64, i64)> {
    p.components.iter().map(|c| (c.x, c.y)).collect()
}

#[test]
fn simple_piece_new_has_its_centre_in_the_middle() {
    let s = SimplePiece::new(10, -20);
    assert_eq!((s.x, s.y, s.width, s.height), (10, -20, 10, 10));
    assert_eq!((s.center_x4, s.center_y4), (60, -60));
}

#[test]
fn is_equal_compares_as_i8() {
    assert!(SimplePiece::new(10, 20).is_equal(&SimplePiece::new(10, 20)));
    assert!(!SimplePiece::new(10, 20).is_equal(&SimplePiece::new(20, 20)));
    assert!(!SimplePiece::new(10, 20).is_equal(&SimplePiece::new(10, 30)));
    // Both out of the range of i8: both convert to None, so they count as equal.
    assert!(SimplePiece::new(200, 20).is_equal(&SimplePiece::new(300, 20)));
    assert!(!SimplePiece::new(200, 20).is_equal(&SimplePiece::new(120, 20)));
}

#[test]
fn shapes_are_as_drawn() {
    let l = Piece::long();
    assert_eq!(coords(&l), vec![(0, 90), (0, 80), (0, 70), (0, 60)]);
    assert_eq!((l.min_y, l.max_y, l.center_x4, l.center_y4), (60, 90, 0, 300));
    assert_eq!(l.color, PieceColor::White);
    assert_eq!(coords(&Piece::square()), vec![(0, 90), (10, 90), (0, 80), (10, 80)]);
    assert_eq!(coords(&Piece::t_piece()), vec![(0, 90), (-10, 90), (10, 90), (0, 80)]);
    assert_eq!(coords(&Piece::l_piece()), vec![(0, 90), (0, 80), (0, 70), (10, 70)]);
    assert_eq!(coords(&Piece::inverted_l_piece()), vec![(0, 90), (0, 80), (0, 70), (-10, 70)]);
    assert_eq!(coords(&Piece::z_piece()), vec![(-10, 90), (0, 90), (0, 80), (10, 80)]);
    assert_eq!(coords(&Piece::inverted_z_piece()), vec![(-10, 80), (0, 80), (0, 90), (10, 90)]);
    let z = Piece::z_piece();
    assert_eq!((z.min_y, z.max_y, z.center_x4, z.center_y4), (80, 90, 0, 360));
}

#[test]
fn whole_line_spans_the_field() {
    let line = Piece::whole_line(-50);
    assert_eq!(line.components.len(), 14);
    assert_eq!(line.components[0].x, -70);
    assert_eq!(line.components[13].x, 60);
    assert!(line.components.iter().all(|c| c.y == -50));
    assert_eq!((line.min_y, line.max_y, line.center_x4, line.center_y4), (-50, -50, 20, -180));
}

#[test]
fn placeholder_is_empty() {
    let p = Piece::placeholder();
    assert!(p.components.is_empty());
    assert_eq!((p.min_y, p.max_y, p.center_x4, p.center_y4), (0, 0, 0, 0));
}

#[test]
fn center_is_the_mean_of_square_centres() {
    // long: square centres (5, 95), (5, 85), (5, 75), (5, 65) -> (5, 80)
    assert_eq!(get_center(Piece::long().components), (20, 320));
    // t: (5,95) (-5,95) (15,95) (5,85) -> (5, 92.5)
    assert_eq!(get_center(Piece::t_piece().components), (20, 370));
    assert_eq!(get_center(vec![]), (0, 0));
    // three squares: the mean rounded down to a quarter pixel
    let three = vec![SimplePiece::new(0, 0), SimplePiece::new(10, 0), SimplePiece::new(10, 10)];
    // x centres 5, 15, 15 -> 35/3 = 11.67 -> 46 quarters (11.5);
    // y centres 5, 5, 15 -> 25/3 = 8.33 -> 33 quarters (8.25)
    assert_eq!(get_center(three), (46, 33));
}

#[test]
fn extremes_of_squares() {
    let t = Piece::t_piece();
    assert_eq!(get_min_y(t.components.clone()), Some(80));
    assert_eq!(get_max_y(t.components.clone()), Some(90));
    assert_eq!(get_min_x(t.components.clone()), Some(-10));
    assert_eq!(get_min_y(vec![]), None);
    assert_eq!(get_max_y(vec![]), None);
    assert_eq!(get_min_x(vec![]), None);
}

#[test]
fn round_to_tenths_values() {
    // 75 px -> 5 px
    assert_eq!(round_to_tenths(300), 20);
    // -15 px -> -5 px
    assert_eq!(round_to_tenths(-60), -20);
    // 72.5 px rounds to 73 -> 2.5 px past 70
    assert_eq!(round_to_tenths(290), 10);
    // -2.5 px rounds to -3 -> whole tens of -3 is 0 -> -2.5 px
    assert_eq!(round_to_tenths(-10), -10);
    assert_eq!(round_to_tenths(0), 0);
    // 100 px -> 0
    assert_eq!(round_to_tenths(400), 0);
}

#[test]
fn saturating_i8() {
    assert_eq!(saturate_i8(-200), -128);
    assert_eq!(saturate_i8(500), 127);
    assert_eq!(saturate_i8(-90), -90);
}

#[test]
fn moving_sideways_stops_at_the_edges() {
    let mut p = Piece::square();
    p.move_right(false);
    assert_eq!(coords(&p), vec![(10, 90), (20, 90), (10, 80), (20, 80)]);
    assert_eq!((p.center_x4, p.center_y4), (80, 360));
    for _ in 0..10 {
        p.move_right(false);
    }
    // the right column stops at 60
    assert_eq!(p.components.iter().map(|c| c.x).max(), Some(60));
    p.move_right(true);
    assert_eq!(p.components.iter().map(|c| c.x).max(), Some(70));
    let mut q = Piece::square();
    for _ in 0..20 {
        q.move_left(false);
    }
    assert_eq!(q.components.iter().map(|c| c.x).min(), Some(-70));
}

#[test]
fn moving_down_stops_at_the_floor() {
    let mut p = Piece::long();
    p.move_down();
    assert_eq!(coords(&p), vec![(0, 80), (0, 70), (0, 60), (0, 50)]);
    assert_eq!((p.min_y, p.max_y), (50, 80));
    for _ in 0..30 {
        p.move_down();
    }
    assert_eq!(p.min_y, -90);
    assert_eq!(p.components.iter().map(|c| c.y).min(), Some(-90));
}

#[test]
fn moving_up_stops_at_the_top_row() {
    let mut p = Piece::square();
    p.move_up();
    // a square is at 90 already, so nothing moves
    assert_eq!(coords(&p), coords(&Piece::square()));
    let mut q = Piece::square();
    q.move_down();
    q.move_down();
    q.move_up();
    assert_eq!(q.max_y, 80);
    assert_eq!(coords(&q), vec![(0, 80), (10, 80), (0, 70), (10, 70)]);
}

#[test]
fn rotating_the_long_piece() {
    let mut p = Piece::long();
    p.rotate();
    assert_eq!(coords(&p), vec![(-10, 70), (0, 70), (10, 70), (20, 70)]);
    assert_eq!((p.min_y, p.max_y), (70, 70));
    // the new centre is the mean of the square centres before the shift
    assert_eq!((p.center_x4, p.center_y4), (20, 320));
    // the squares' own centres only took the shift (x by -5, y by -5 pixels)
    assert_eq!((p.components[0].center_x4, p.components[0].center_y4), (40, 360));
}

#[test]
fn rotating_the_t_piece() {
    let mut p = Piece::t_piece();
    p.set_center();
    // centre (5, 92.5)
    p.rotate();
    // quarter turn about (5, 92.5): x' = 97.5 - y, y' = x + 87.5, then
    // shifted by (-7.5, -7.5) onto the grid
    let got = coords(&p);
    assert_eq!(got.len(), 4);
    // offsets turned by a right angle: (dx, dy) -> (-dy, dx)
    let orig = coords(&Piece::t_piece());
    for i in 0..4 {
        for j in 0..4 {
            assert_eq!(got[i].0 - got[j].0, orig[j].1 - orig[i].1);
            assert_eq!(got[i].1 - got[j].1, orig[i].0 - orig[j].0);
        }
    }
    assert!(got.iter().all(|&(x, y)| x % 10 == 0 && y % 10 == 0));
    assert_eq!(got, vec![(0, 80), (0, 70), (0, 90), (10, 80)]);
    assert_eq!((p.min_y, p.max_y), (70, 90));
}

#[test]
fn blocked_and_out_of_bounds() {
    let p = Piece::square();
    assert!(p.is_blocked(&SimplePiece::new(10, 80)));
    assert!(!p.is_blocked(&SimplePiece::new(20, 80)));
    // the top row of the shapes is at 90, above the field
    assert!(p.out_of_bounds());
    let mut q = Piece::square();
    q.move_down();
    assert!(!q.out_of_bounds());
}

#[test]
fn moves_undo_each_other() {
    let mut p = Piece::l_piece();
    p.move_right(true);
    p.move_left(true);
    assert_eq!(coords(&p), coords(&Piece::l_piece()));
    let mut q = Piece::l_piece();
    q.move_down();
    q.move_down();
    let before = coords(&q);
    q.move_down();
    q.move_up();
    assert_eq!(coords(&q), before);
}

#[test]
fn up_then_down_restores_a_centred_piece() {
    let mut p = Piece::square();
    p.move_down();
    p.move_down();
    let before = (coords(&p), p.min_y, p.max_y, p.center_x4, p.center_y4);
    p.move_up();
    p.move_down();
    assert_eq!((coords(&p), p.min_y, p.max_y, p.center_x4, p.center_y4), before);
}

#[test]
fn a_turn_records_the_turned_extent() {
    let mut p = Piece::l_piece();
    p.rotate();
    let ys: Vec<i64> = p.components.iter().map(|c| c.y).collect();
    assert_eq!(p.min_y, *ys.iter().min().unwrap());
    assert_eq!(p.max_y, *ys.iter().max().unwrap());
}
