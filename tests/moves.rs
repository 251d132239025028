use chess::board::{Board, Color, MoveError, Square};
use chess::pieces::{king_exposed, Piece, Pieces};

fn place(board: &mut Board, x: u8, y: u8, kind: Pieces, color: Color) {
    board.get_index_mut(x, y).set_piece(Piece::from(kind, color));
}

fn moves_of(board: &Board, x: u8, y: u8) -> Vec<(u8, u8)> {
    let piece = board.get_index(x, y).get_piece().expect("a piece");
    piece
        .get_moves(board, board.get_index(x, y))
        .into_iter()
        .map(Square::u8_to_tuple)
        .collect()
}

fn snapshot(board: &Board) -> (Vec<(u8, Option<Piece>)>, Vec<u8>, Vec<u8>) {
    let cells = board
        .get_state()
        .iter()
        .map(|s| (s.get_coords_u8(), s.get_piece()))
        .collect();
    (
        cells,
        board.get_enpassantable(Color::Black),
        board.get_enpassantable(Color::White),
    )
}

fn started() -> Board {
    let mut board = Board::new();
    board.init("");
    board
}

#[test]
fn new_board_has_every_coordinate_and_no_flag() {
    let board = Board::new();
    for y in 0..8u8 {
        for x in 0..8u8 {
            let sq = board.get_index(x, y);
            assert_eq!(sq.get_coords_tuple(), (x, y));
            assert_eq!(sq.get_coords_u8(), x * 16 + y);
            assert!(sq.get_piece().is_none());
        }
    }
    assert!(board.get_enpassantable(Color::Black).is_empty());
    assert!(board.get_enpassantable(Color::White).is_empty());
}

#[test]
fn init_places_standard_position() {
    let board = started();
    let mut counts = std::collections::HashMap::new();
    for sq in board.get_state().iter() {
        if let Some(p) = sq.get_piece() {
            *counts.entry((p.kind, p.color)).or_insert(0) += 1;
        }
    }
    for color in [Color::White, Color::Black] {
        assert_eq!(counts[&(Pieces::Pawn, color)], 8);
        assert_eq!(counts[&(Pieces::Rook, color)], 2);
        assert_eq!(counts[&(Pieces::Knight, color)], 2);
        assert_eq!(counts[&(Pieces::Bishop, color)], 2);
        assert_eq!(counts[&(Pieces::Queen, color)], 1);
        assert_eq!(counts[&(Pieces::King, color)], 1);
    }
    let back = [
        Pieces::Rook,
        Pieces::Knight,
        Pieces::Bishop,
        Pieces::Queen,
        Pieces::King,
        Pieces::Bishop,
        Pieces::Knight,
        Pieces::Rook,
    ];
    for x in 0..8u8 {
        assert_eq!(board.get_index(x, 0).get_piece(), Some(Piece::from(back[x as usize], Color::White)));
        assert_eq!(board.get_index(x, 1).get_piece(), Some(Piece::from(Pieces::Pawn, Color::White)));
        assert_eq!(board.get_index(x, 6).get_piece(), Some(Piece::from(Pieces::Pawn, Color::Black)));
        assert_eq!(board.get_index(x, 7).get_piece(), Some(Piece::from(back[x as usize], Color::Black)));
        for y in 2..6u8 {
            assert!(board.get_index(x, y).get_piece().is_none());
        }
    }
}

#[test]
fn moves_stay_on_board() {
    let mut board = Board::new();
    place(&mut board, 0, 0, Pieces::King, Color::White);
    place(&mut board, 7, 7, Pieces::King, Color::Black);
    place(&mut board, 0, 7, Pieces::Queen, Color::White);
    place(&mut board, 7, 0, Pieces::Knight, Color::Black);
    place(&mut board, 3, 3, Pieces::Rook, Color::White);
    place(&mut board, 7, 3, Pieces::Bishop, Color::Black);
    for y in 0..8u8 {
        for x in 0..8u8 {
            if board.get_index(x, y).get_piece().is_some() {
                for (mx, my) in moves_of(&board, x, y) {
                    assert!(mx < 8 && my < 8);
                }
            }
        }
    }
    let started = started();
    for y in 0..8u8 {
        for x in 0..8u8 {
            if started.get_index(x, y).get_piece().is_some() {
                for (mx, my) in moves_of(&started, x, y) {
                    assert!(mx < 8 && my < 8);
                }
            }
        }
    }
}

#[test]
fn sliders_stop_at_blockers() {
    let mut board = Board::new();
    place(&mut board, 0, 0, Pieces::King, Color::White);
    place(&mut board, 7, 7, Pieces::King, Color::Black);
    place(&mut board, 3, 3, Pieces::Rook, Color::White);
    place(&mut board, 3, 5, Pieces::Pawn, Color::Black);
    place(&mut board, 5, 3, Pieces::Pawn, Color::White);
    let m = moves_of(&board, 3, 3);
    assert!(m.contains(&(3, 4)));
    assert!(m.contains(&(3, 5)));
    assert!(!m.contains(&(3, 6)));
    assert!(!m.contains(&(3, 7)));
    assert!(m.contains(&(4, 3)));
    assert!(!m.contains(&(5, 3)));
    assert!(!m.contains(&(6, 3)));
    assert_eq!(m.len(), 9);

    place(&mut board, 5, 5, Pieces::Bishop, Color::Black);
    board.get_index_mut(3, 3).remove_piece();
    place(&mut board, 3, 3, Pieces::Queen, Color::White);
    let q = moves_of(&board, 3, 3);
    assert!(q.contains(&(4, 4)));
    assert!(q.contains(&(5, 5)));
    assert!(!q.contains(&(6, 6)));
    assert!(q.contains(&(2, 2)));
    assert!(q.contains(&(1, 1)));
    assert!(!q.contains(&(0, 0)));
}

#[test]
fn bishop_blocked_by_own_piece() {
    let board = started();
    assert!(moves_of(&board, 2, 0).is_empty());
    assert!(moves_of(&board, 0, 0).is_empty());
    assert!(moves_of(&board, 3, 0).is_empty());
    assert!(moves_of(&board, 4, 0).is_empty());
}

#[test]
fn knight_jumps_over_neighbours() {
    let mut board = Board::new();
    place(&mut board, 0, 0, Pieces::King, Color::White);
    place(&mut board, 7, 7, Pieces::King, Color::Black);
    place(&mut board, 4, 4, Pieces::Knight, Color::White);
    for (dx, dy) in [(-1i8, -1i8), (0, -1), (1, -1), (-1, 0), (1, 0), (-1, 1), (0, 1), (1, 1)] {
        let color = if dx == 0 { Color::Black } else { Color::White };
        place(&mut board, (4 + dx) as u8, (4 + dy) as u8, Pieces::Pawn, color);
    }
    place(&mut board, 6, 5, Pieces::Pawn, Color::White);
    place(&mut board, 2, 3, Pieces::Rook, Color::Black);
    let m = moves_of(&board, 4, 4);
    let mut expected = vec![(2, 5), (3, 2), (3, 6), (5, 2), (5, 6), (6, 3), (2, 3)];
    expected.sort();
    let mut got = m.clone();
    got.sort();
    assert_eq!(got, expected);
}

#[test]
fn knight_moves_from_start() {
    let board = started();
    assert_eq!(moves_of(&board, 1, 0), vec![(0, 2), (2, 2)]);
    assert_eq!(moves_of(&board, 6, 7), vec![(5, 5), (7, 5)]);
}

#[test]
fn pawn_moves_from_start() {
    let board = started();
    assert_eq!(moves_of(&board, 4, 1), vec![(4, 2), (4, 3)]);
    assert_eq!(moves_of(&board, 4, 6), vec![(4, 4), (4, 5)]);
}

#[test]
fn pawn_blocked_and_capturing() {
    let mut board = Board::new();
    place(&mut board, 0, 0, Pieces::King, Color::White);
    place(&mut board, 7, 7, Pieces::King, Color::Black);
    place(&mut board, 3, 1, Pieces::Pawn, Color::White);
    place(&mut board, 3, 2, Pieces::Knight, Color::Black);
    place(&mut board, 4, 2, Pieces::Knight, Color::Black);
    place(&mut board, 2, 2, Pieces::Knight, Color::White);
    assert_eq!(moves_of(&board, 3, 1), vec![(4, 2)]);
    board.get_index_mut(3, 2).remove_piece();
    place(&mut board, 3, 3, Pieces::Knight, Color::Black);
    assert_eq!(moves_of(&board, 3, 1), vec![(3, 2), (4, 2)]);
}

#[test]
fn en_passant_flag_set_then_cleared() {
    let mut board = started();
    board.move_piece("E2", "E4").unwrap();
    assert_eq!(board.get_enpassantable(Color::White), vec![4]);
    assert!(board.get_enpassantable(Color::Black).is_empty());
    board.move_piece("A7", "A6").unwrap();
    assert!(board.get_enpassantable(Color::White).is_empty());
    assert!(board.get_enpassantable(Color::Black).is_empty());
}

#[test]
fn en_passant_black_double_step() {
    let mut board = started();
    board.move_piece("d7", "d5").unwrap();
    assert!(board.get_enpassantable(Color::Black).is_empty());
    assert!(board.get_enpassantable(Color::White).is_empty());
}

#[test]
fn en_passant_capture_offered() {
    let mut board = Board::new();
    place(&mut board, 4, 0, Pieces::King, Color::White);
    place(&mut board, 4, 7, Pieces::King, Color::Black);
    place(&mut board, 4, 1, Pieces::Pawn, Color::White);
    place(&mut board, 3, 3, Pieces::Pawn, Color::Black);
    board.move_piece("E2", "E4").unwrap();
    assert_eq!(board.get_enpassantable(Color::White), vec![4]);
    let m = moves_of(&board, 3, 3);
    assert_eq!(m, vec![(3, 1), (3, 2), (4, 2)]);
    board.move_piece("D4", "E3").unwrap();
    assert_eq!(board.get_index(4, 2).get_piece(), Some(Piece::from(Pieces::Pawn, Color::Black)));
    assert!(board.get_enpassantable(Color::Black).is_empty());
    assert!(board.get_enpassantable(Color::White).is_empty());
}

#[test]
fn pinned_rook_keeps_line_moves() {
    let mut board = Board::new();
    place(&mut board, 4, 0, Pieces::King, Color::White);
    place(&mut board, 4, 1, Pieces::Rook, Color::White);
    place(&mut board, 4, 7, Pieces::Rook, Color::Black);
    place(&mut board, 0, 7, Pieces::King, Color::Black);
    let m = moves_of(&board, 4, 1);
    assert_eq!(m, vec![(4, 2), (4, 3), (4, 4), (4, 5), (4, 6), (4, 7)]);
}

#[test]
fn pinned_by_bishop_knight_has_no_move() {
    let mut board = Board::new();
    place(&mut board, 4, 0, Pieces::King, Color::White);
    place(&mut board, 5, 1, Pieces::Knight, Color::White);
    place(&mut board, 7, 3, Pieces::Bishop, Color::Black);
    place(&mut board, 0, 7, Pieces::King, Color::Black);
    assert!(moves_of(&board, 5, 1).is_empty());
}

#[test]
fn king_avoids_attacked_squares() {
    let mut board = Board::new();
    place(&mut board, 4, 0, Pieces::King, Color::White);
    place(&mut board, 0, 7, Pieces::King, Color::Black);
    place(&mut board, 3, 2, Pieces::Knight, Color::Black);
    place(&mut board, 5, 2, Pieces::Pawn, Color::Black);
    place(&mut board, 0, 1, Pieces::Rook, Color::Black);
    let m = moves_of(&board, 4, 0);
    assert_eq!(m, vec![(3, 0), (5, 0)]);
}

#[test]
fn adjacent_kings_attack() {
    let mut board = Board::new();
    place(&mut board, 4, 0, Pieces::King, Color::White);
    place(&mut board, 4, 2, Pieces::King, Color::Black);
    let m = moves_of(&board, 4, 0);
    assert_eq!(m, vec![(3, 0), (5, 0)]);
}

#[test]
fn king_exposed_reports_attacks() {
    let mut board = Board::new();
    place(&mut board, 4, 0, Pieces::King, Color::White);
    assert!(!king_exposed(&board, Color::White));
    assert!(!king_exposed(&board, Color::Black));
    place(&mut board, 4, 6, Pieces::Queen, Color::Black);
    assert!(king_exposed(&board, Color::White));
    place(&mut board, 4, 3, Pieces::Knight, Color::Black);
    assert!(!king_exposed(&board, Color::White));
    place(&mut board, 5, 2, Pieces::Knight, Color::Black);
    assert!(king_exposed(&board, Color::White));
    board.get_index_mut(5, 2).remove_piece();
    place(&mut board, 3, 1, Pieces::Pawn, Color::Black);
    assert!(king_exposed(&board, Color::White));
    board.get_index_mut(3, 1).remove_piece();
    place(&mut board, 3, 1, Pieces::Pawn, Color::White);
    assert!(!king_exposed(&board, Color::White));
}

#[test]
fn round_trip_two_single_steps() {
    let mut board = started();
    assert_eq!(board.move_piece("A2", "A3"), Ok(()));
    assert_eq!(board.move_piece("A3", "A4"), Ok(()));
    assert!(board.get_index(0, 1).get_piece().is_none());
    assert!(board.get_index(0, 2).get_piece().is_none());
    assert_eq!(board.get_index(0, 3).get_piece(), Some(Piece::from(Pieces::Pawn, Color::White)));
}

#[test]
fn failed_moves_leave_board_unchanged() {
    let mut board = started();
    board.move_piece("E2", "E4").unwrap();
    let before = snapshot(&board);
    assert_eq!(board.move_piece("E5", "E6"), Err(MoveError::NoPieceAtStart));
    assert_eq!(snapshot(&board), before);
    assert_eq!(board.move_piece("A1", "A3"), Err(MoveError::IllegalMove));
    assert_eq!(snapshot(&board), before);
    assert_eq!(board.move_piece("B1", "B3"), Err(MoveError::IllegalMove));
    assert_eq!(snapshot(&board), before);
}

#[test]
fn double_step_sets_only_file_e() {
    let mut board = started();
    board.move_piece("E2", "E4").unwrap();
    assert_eq!(board.get_enpassantable(Color::White), vec![4]);
    assert_eq!(board.get_enpassantable(Color::Black), Vec::<u8>::new());
    for f in 0..8u8 {
        assert_eq!(board.is_enpassantable(Color::White, f), f == 4);
        assert!(!board.is_enpassantable(Color::Black, f));
    }
}

#[test]
fn mask_set_and_clear() {
    let mut board = Board::new();
    board.set_enpassantable(Color::Black, 2);
    board.set_enpassantable(Color::White, 7);
    board.set_enpassantable(Color::White, 0);
    assert_eq!(board.get_enpassantable(Color::Black), vec![2]);
    assert_eq!(board.get_enpassantable(Color::White), vec![0, 7]);
    board.clear_epassantable(Some(Color::Black));
    assert!(board.get_enpassantable(Color::Black).is_empty());
    assert_eq!(board.get_enpassantable(Color::White), vec![0, 7]);
    board.set_enpassantable(Color::Black, 5);
    board.clear_epassantable(Some(Color::White));
    assert_eq!(board.get_enpassantable(Color::Black), vec![5]);
    assert!(board.get_enpassantable(Color::White).is_empty());
    board.set_enpassantable(Color::White, 3);
    board.clear_epassantable(None);
    assert!(board.get_enpassantable(Color::Black).is_empty());
    assert!(board.get_enpassantable(Color::White).is_empty());
}

#[test]
fn square_coordinates_and_tint() {
    let a1 = Square::from(0, 0);
    assert_eq!(a1.get_color(), Color::Black);
    assert_eq!(a1.get_char(), '#');
    let b1 = Square::from(1, 0);
    assert_eq!(b1.get_color(), Color::White);
    assert_eq!(b1.get_char(), ' ');
    let h8 = Square::from(7, 7);
    assert_eq!(h8.get_coords_u8(), 0x77);
    assert_eq!(h8.get_coords_tuple(), (7, 7));
    assert_eq!(h8.get_color(), Color::Black);
    let sq = Square::new();
    assert_eq!(sq.get_coords_tuple(), (0, 0));
    let mut e4 = Square::from(4, 3);
    e4.set_piece(Piece::from(Pieces::Queen, Color::White));
    assert_eq!(e4.get_char(), 'Q');
    e4.remove_piece();
    assert_eq!(e4.get_char(), ' ');
}

#[test]
fn coordinate_text() {
    assert_eq!(Square::string_to_tuple("A1"), (0, 0));
    assert_eq!(Square::string_to_tuple("e4"), (4, 3));
    assert_eq!(Square::string_to_tuple("H8"), (7, 7));
    assert_eq!(Square::string_to_u8("E4"), 0x43);
    assert_eq!(Square::string_to_u8("b7"), 0x16);
    assert_eq!(Square::u8_to_tuple(0x43), (4, 3));
    assert_eq!(Square::u8_to_tuple(0x75), (7, 5));
}

#[test]
fn piece_letters() {
    assert_eq!(Piece::from(Pieces::Pawn, Color::Black).get_char(), 'p');
    assert_eq!(Piece::from(Pieces::Knight, Color::White).get_char(), 'N');
    assert_eq!(Piece::from(Pieces::King, Color::Black).get_char(), 'k');
    assert_eq!(Piece::from(Pieces::Bishop, Color::White).get_char(), 'B');
    assert_eq!(Piece::from(Pieces::Rook, Color::White).get_char(), 'R');
    assert_eq!(Piece::from(Pieces::Queen, Color::Black).get_char(), 'q');
}

#[test]
fn color_opposite() {
    assert_eq!(Color::Black.opposite(), Color::White);
    assert_eq!(Color::White.opposite(), Color::Black);
    assert!(Color::Black < Color::White);
}
