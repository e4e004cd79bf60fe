use draughts_engine::{forced_moves, get_best_move, get_winner, possible_moves};
use draughts_engine::{Board, Color, IFigure, Kind, Move, MoveError};

const WHITE_MAN: IFigure = IFigure { color: Color::White, kind: Kind::Man };
const WHITE_KING: IFigure = IFigure { color: Color::White, kind: Kind::King };
const BLACK_MAN: IFigure = IFigure { color: Color::Black, kind: Kind::Man };
const BLACK_KING: IFigure = IFigure { color: Color::Black, kind: Kind::King };

fn board(pieces: &[(i32, IFigure)]) -> Board {
    Board::from_pieces(&pieces.to_vec()).expect("squares on the board")
}

fn plain(from: i32, fig: IFigure, to: i32) -> Move {
    Move { moved_figure_no: from, moved_figure: fig, square_no: to, captured_figure_no: None, captured_figure: None }
}

fn capture(from: i32, fig: IFigure, over: i32, taken: IFigure, to: i32) -> Move {
    Move {
        moved_figure_no: from,
        moved_figure: fig,
        square_no: to,
        captured_figure_no: Some(over),
        captured_figure: Some(taken),
    }
}

fn brute_minimax(b: &mut Board, depth: u32, color: Color) -> i32 {
    if depth == 0 || b.get_winner().is_some() {
        return b.get_rating();
    }
    let seqs = b.get_available_moves(color);
    let mut best = if color == Color::White { i32::MIN } else { i32::MAX };
    for s in &seqs {
        b.make_moves(s);
        let v = brute_minimax(b, depth - 1, color.other());
        b.unmake_moves(s);
        if color == Color::White { best = best.max(v) } else { best = best.min(v) }
    }
    best
}

#[test]
fn capture_is_the_only_move_when_available() {
    let start = board(&[(45, WHITE_MAN), (34, BLACK_MAN)]);
    let moves = possible_moves(45, &start).unwrap();
    assert_eq!(moves, vec![capture(45, WHITE_MAN, 34, BLACK_MAN, 23)]);
    let mut b = start;
    b.make_moves(&moves);
    assert_eq!(b.get(45), None);
    assert_eq!(b.get(34), None);
    assert_eq!(b.get(23), Some(WHITE_MAN));
    b.unmake_moves(&moves);
    assert_eq!(b, start);
}

#[test]
fn lone_man_has_two_plain_moves() {
    let b = board(&[(45, WHITE_MAN)]);
    let moves = possible_moves(45, &b).unwrap();
    assert_eq!(moves, vec![plain(45, WHITE_MAN, 34), plain(45, WHITE_MAN, 36)]);
}

#[test]
fn black_man_advances_toward_higher_squares() {
    let b = board(&[(54, BLACK_MAN)]);
    let moves = possible_moves(54, &b).unwrap();
    assert_eq!(moves, vec![plain(54, BLACK_MAN, 63), plain(54, BLACK_MAN, 65)]);
}

#[test]
fn border_men_do_not_wrap() {
    let b = board(&[(40, WHITE_MAN), (49, BLACK_MAN)]);
    assert_eq!(possible_moves(40, &b).unwrap(), vec![plain(40, WHITE_MAN, 31)]);
    assert_eq!(possible_moves(49, &b).unwrap(), vec![plain(49, BLACK_MAN, 58)]);
}

#[test]
fn men_on_the_last_row_stay_on_the_board() {
    let b = board(&[(3, WHITE_MAN), (96, BLACK_MAN)]);
    assert_eq!(possible_moves(3, &b).unwrap(), vec![]);
    assert_eq!(possible_moves(96, &b).unwrap(), vec![]);
}

#[test]
fn every_generated_target_is_on_a_diagonal() {
    for sq in 0..100 {
        for fig in [WHITE_MAN, BLACK_MAN, WHITE_KING, BLACK_KING] {
            let b = board(&[(sq, fig)]);
            for m in possible_moves(sq, &b).unwrap() {
                assert!((0..100).contains(&m.square_no));
                let dr = (m.square_no / 10 - sq / 10).abs();
                let dc = (m.square_no % 10 - sq % 10).abs();
                assert!(dr > 0 && dr == dc);
            }
        }
    }
}

#[test]
fn corner_king_scans_its_only_ray() {
    let b = board(&[(0, WHITE_KING)]);
    let targets: Vec<i32> = possible_moves(0, &b).unwrap().iter().map(|m| m.square_no).collect();
    assert_eq!(targets, vec![11, 22, 33, 44, 55, 66, 77, 88, 99]);
}

#[test]
fn king_captures_from_a_distance() {
    let b = board(&[(0, WHITE_KING), (33, BLACK_MAN)]);
    let moves = possible_moves(0, &b).unwrap();
    assert_eq!(moves, vec![capture(0, WHITE_KING, 33, BLACK_MAN, 44)]);
}

#[test]
fn king_scan_stops_at_blocked_piece() {
    let b = board(&[(0, WHITE_KING), (33, BLACK_MAN), (44, BLACK_MAN)]);
    let moves = possible_moves(0, &b).unwrap();
    assert_eq!(moves, vec![plain(0, WHITE_KING, 11), plain(0, WHITE_KING, 22)]);
}

#[test]
fn no_capture_of_a_piece_on_the_border() {
    let b = board(&[(51, WHITE_MAN), (40, BLACK_MAN)]);
    assert_eq!(possible_moves(51, &b).unwrap(), vec![plain(51, WHITE_MAN, 42)]);
}

#[test]
fn no_capture_of_own_piece() {
    let b = board(&[(45, WHITE_MAN), (34, WHITE_MAN)]);
    assert_eq!(possible_moves(45, &b).unwrap(), vec![plain(45, WHITE_MAN, 36)]);
}

#[test]
fn no_capture_when_landing_is_occupied() {
    let b = board(&[(45, WHITE_MAN), (34, BLACK_MAN), (23, BLACK_MAN)]);
    assert_eq!(possible_moves(45, &b).unwrap(), vec![plain(45, WHITE_MAN, 36)]);
}

#[test]
fn man_captures_backwards() {
    let b = board(&[(45, WHITE_MAN), (56, BLACK_MAN)]);
    assert_eq!(possible_moves(45, &b).unwrap(), vec![capture(45, WHITE_MAN, 56, BLACK_MAN, 67)]);
}

#[test]
fn possible_moves_rejects_bad_squares() {
    let b = board(&[(45, WHITE_MAN)]);
    assert_eq!(possible_moves(100, &b), Err(MoveError::InvalidSquare));
    assert_eq!(possible_moves(-1, &b), Err(MoveError::InvalidSquare));
    assert_eq!(possible_moves(44, &b), Err(MoveError::EmptySquare));
}

#[test]
fn from_pieces_rejects_squares_off_the_board() {
    assert_eq!(Board::from_pieces(&vec![(45, WHITE_MAN), (100, BLACK_MAN)]), Err(MoveError::InvalidSquare));
    assert_eq!(Board::from_pieces(&vec![(-3, BLACK_MAN)]), Err(MoveError::InvalidSquare));
    let b = Board::from_pieces(&vec![(45, WHITE_MAN), (45, BLACK_KING)]).unwrap();
    assert_eq!(b.get(45), Some(BLACK_KING));
}

#[test]
fn forced_moves_keep_only_the_longest_chain() {
    let b = board(&[(63, WHITE_MAN), (52, BLACK_MAN), (67, WHITE_MAN), (56, BLACK_MAN), (34, BLACK_MAN)]);
    assert_eq!(forced_moves(Color::White, &b), vec![capture(67, WHITE_MAN, 56, BLACK_MAN, 45)]);
    let mut work = b;
    let chains = work.get_forced_moves(Color::White);
    assert_eq!(
        chains,
        vec![vec![capture(67, WHITE_MAN, 56, BLACK_MAN, 45), capture(45, WHITE_MAN, 34, BLACK_MAN, 23)]]
    );
    assert_eq!(work, b);
}

#[test]
fn forced_moves_keep_ties() {
    let b = board(&[(63, WHITE_MAN), (52, BLACK_MAN), (67, WHITE_MAN), (56, BLACK_MAN)]);
    assert_eq!(
        forced_moves(Color::White, &b),
        vec![capture(63, WHITE_MAN, 52, BLACK_MAN, 41), capture(67, WHITE_MAN, 56, BLACK_MAN, 45)]
    );
}

#[test]
fn forced_moves_empty_without_capture() {
    let b = board(&[(45, WHITE_MAN), (14, BLACK_MAN)]);
    assert_eq!(forced_moves(Color::White, &b), vec![]);
    assert_eq!(forced_moves(Color::Black, &b), vec![]);
}

#[test]
fn piece_moves_follow_its_longest_chain() {
    let b = board(&[(67, WHITE_MAN), (56, BLACK_MAN), (34, BLACK_MAN), (58, BLACK_MAN)]);
    assert_eq!(possible_moves(67, &b).unwrap(), vec![capture(67, WHITE_MAN, 56, BLACK_MAN, 45)]);
}

#[test]
fn undo_restores_a_capture_chain() {
    let start = board(&[(67, WHITE_MAN), (56, BLACK_MAN), (34, BLACK_MAN), (90, BLACK_KING)]);
    let chain = vec![capture(67, WHITE_MAN, 56, BLACK_MAN, 45), capture(45, WHITE_MAN, 34, BLACK_MAN, 23)];
    let mut b = start;
    b.make_moves(&chain);
    assert_eq!(b, board(&[(23, WHITE_MAN), (90, BLACK_KING)]));
    b.unmake_moves(&chain);
    assert_eq!(b, start);
}

#[test]
fn lone_white_king_wins() {
    for sq in [0, 9, 45, 90, 99] {
        assert_eq!(get_winner(&board(&[(sq, WHITE_KING)])), Some(Color::White));
    }
}

#[test]
fn winner_of_blocked_positions() {
    assert_eq!(get_winner(&board(&[(45, BLACK_KING)])), Some(Color::Black));
    assert_eq!(get_winner(&Board::new()), Some(Color::Black));
    assert_eq!(get_winner(&board(&[(45, WHITE_MAN), (14, BLACK_MAN)])), None);
    assert_eq!(get_winner(&board(&[(3, WHITE_MAN), (88, BLACK_MAN)])), Some(Color::Black));
    assert_eq!(get_winner(&board(&[(3, WHITE_MAN), (14, BLACK_MAN)])), None);
}

#[test]
fn rating_counts_men_and_kings() {
    let b = board(&[(45, WHITE_MAN), (47, WHITE_KING), (14, BLACK_MAN)]);
    assert_eq!(b.get_rating(), 3);
    let b = board(&[(45, WHITE_MAN), (14, BLACK_KING), (16, BLACK_KING)]);
    assert_eq!(b.get_rating(), -5);
    assert_eq!(Board::new().get_rating(), 0);
}

#[test]
fn best_move_takes_the_forced_capture() {
    let b = board(&[(45, WHITE_MAN), (34, BLACK_MAN), (18, BLACK_MAN)]);
    assert_eq!(get_best_move(Color::White, &b, 3), vec![capture(45, WHITE_MAN, 34, BLACK_MAN, 23)]);
}

#[test]
fn best_move_empty_at_depth_zero_or_game_over() {
    let b = board(&[(45, WHITE_MAN), (34, BLACK_MAN)]);
    assert_eq!(get_best_move(Color::White, &b, 0), vec![]);
    assert_eq!(get_best_move(Color::White, &board(&[(45, WHITE_KING)]), 4), vec![]);
}

#[test]
fn alpha_beta_matches_exhaustive_minimax() {
    let positions = [
        board(&[(45, WHITE_MAN), (34, BLACK_MAN), (18, BLACK_MAN), (72, WHITE_MAN)]),
        board(&[(56, WHITE_KING), (23, BLACK_MAN), (25, BLACK_MAN), (81, WHITE_MAN), (14, BLACK_KING)]),
        board(&[(63, WHITE_MAN), (52, BLACK_MAN), (67, WHITE_MAN), (56, BLACK_MAN), (34, BLACK_MAN)]),
    ];
    for p in positions.iter() {
        for depth in 0..4 {
            for color in [Color::White, Color::Black] {
                let mut a = *p;
                let expected = brute_minimax(&mut a, depth, color);
                assert_eq!(a, *p);
                let mut b = *p;
                let (score, best) = b.minimax(depth, i32::MIN, i32::MAX, color);
                assert_eq!(b, *p);
                assert_eq!(score, expected);
                assert_eq!(get_best_move(color, p, depth), best);
                if !best.is_empty() {
                    let mut c = *p;
                    c.make_moves(&best);
                    assert_eq!(brute_minimax(&mut c, depth - 1, color.other()), expected);
                }
            }
        }
    }
}

#[test]
fn search_leaves_board_unchanged() {
    let p = board(&[(67, WHITE_MAN), (56, BLACK_MAN), (34, BLACK_MAN), (90, BLACK_KING), (81, WHITE_KING)]);
    let mut b = p;
    let _ = b.get_available_moves(Color::White);
    let _ = b.minimax(3, i32::MIN, i32::MAX, Color::Black);
    assert_eq!(b, p);
}
