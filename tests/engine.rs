use chess::fen::{board_to_fen, fen_to_board, parse_fen, FenError};
use chess::game::{move_piece, parse_movement, MoveError};
use chess::piece::{
    position_to_piece, starting_pieces, Game, Piece, Side, BISHOP, KING, KNIGHT, PAWN, QUEEN,
    ROOK,
};

const START: &str = "rnbqkbnr/pppppppp/8/8/8/8/PPPPPPPP/RNBQKBNR w KQkq - 0 1";

fn sorted(mut v: Vec<(usize, usize)>) -> Vec<(usize, usize)> {
    v.sort();
    v.dedup();
    v
}

fn moves_at(pieces: &Vec<Piece>, sq: (usize, usize)) -> Vec<(usize, usize)> {
    let i = position_to_piece(pieces, sq).expect("a piece on the square");
    sorted(pieces[i].valid_movements(pieces))
}

fn board(placement: &str) -> Vec<Piece> {
    fen_to_board(placement).expect("a well-formed placement")
}

#[test]
fn start_position_from_placement_matches_layout() {
    assert_eq!(fen_to_board(START).unwrap(), starting_pieces());
    assert_eq!(starting_pieces().len(), 32);
}

#[test]
fn lone_line_break_leaves_fresh_game_to_caller() {
    assert_eq!(parse_fen("\n").map(|g| g.is_none()), Ok(true));
    assert_eq!(parse_fen("").map(|g| g.is_none()), Err(FenError));
    let g = parse_fen(&format!("{}\n", START)).unwrap().unwrap();
    assert_eq!(g.pieces, starting_pieces());
    assert_eq!(g.side, Side::White);
}

#[test]
fn game_from_placement_line() {
    let g = parse_fen("8/8/8/8/8/8/8/4K3 b - - 0 1\n").unwrap().unwrap();
    assert_eq!(g.side, Side::White);
    assert_eq!(g.pieces.len(), 1);
    assert_eq!(g.pieces[0].position, (7, 4));
    assert_eq!(g.pieces[0].typ_index, KING);
    assert_eq!(g.pieces[0].side, Side::White);
    assert_eq!(parse_fen("8/8/x7/8/8/8/8/8\n").map(|g| g.is_some()), Err(FenError));
    assert_eq!(parse_fen("8/8/8\n").map(|g| g.is_some()), Err(FenError));
}

#[test]
fn placement_reads_ranks_files_and_sides() {
    let b = board("r6k/8/3P4/8/8/8/8/7K");
    assert_eq!(b.len(), 4);
    assert_eq!((b[0].typ_index, b[0].side, b[0].position), (ROOK, Side::Black, (0, 0)));
    assert_eq!((b[1].typ_index, b[1].side, b[1].position), (KING, Side::Black, (0, 7)));
    assert_eq!((b[2].typ_index, b[2].side, b[2].position), (PAWN, Side::White, (2, 3)));
    assert_eq!((b[3].typ_index, b[3].side, b[3].position), (KING, Side::White, (7, 7)));
    assert!(b.iter().all(|p| p.times_moved == 0 && !p.captured));
}

#[test]
fn malformed_placements_are_refused() {
    assert!(fen_to_board("rnbqkbnr/ppppxppp/8/8/8/8/PPPPPPPP/RNBQKBNR").is_none());
    assert!(fen_to_board("9/8/8/8/8/8/8/8").is_none());
    assert!(fen_to_board("ppppppppp/8/8/8/8/8/8/8").is_none());
    assert!(fen_to_board("8/8/8/8/8/8/8/8/p").is_none());
    assert!(fen_to_board("44p/8/8/8/8/8/8/8").is_none());
    assert!(fen_to_board("7").is_none());
    assert!(fen_to_board("").is_none());
    assert!(fen_to_board("8/8/8/8/8/8/8").is_none());
    assert!(fen_to_board("8/8/8/8/8/8/8/7").is_none());
    assert!(fen_to_board("8/8/8/7/8/8/8/8").is_none());
    assert!(fen_to_board("rnbqkbnrr/8/8/8/8/8/8/8").is_none());
    assert!(fen_to_board("8/8/8/8/8/8/8/7 w").is_none());
}

#[test]
fn fields_after_the_placement_are_not_read() {
    assert_eq!(board("8/8/8/8/8/8/8/8 w x y z"), Vec::<Piece>::new());
    assert_eq!(board("k7/8/8/8/8/8/8/K7 junk/ignored"), board("k7/8/8/8/8/8/8/K7"));
    assert_eq!(board("k7/8/8/8/8/8/8/K7\nmore"), board("k7/8/8/8/8/8/8/K7"));
}

#[test]
fn lookup_skips_captured_pieces() {
    let mut b = starting_pieces();
    assert_eq!(position_to_piece(&b, (0, 4)), Some(4));
    assert_eq!(position_to_piece(&b, (4, 4)), None);
    b[4].captured = true;
    assert_eq!(position_to_piece(&b, (0, 4)), None);
}

#[test]
fn kind_names() {
    let b = starting_pieces();
    assert_eq!(b[0].typ(), "rook  ");
    assert_eq!(b[1].typ(), "knight");
    assert_eq!(b[2].typ(), "bishop");
    assert_eq!(b[3].typ(), "queen ");
    assert_eq!(b[4].typ(), "king  ");
    assert_eq!(b[8].typ(), "pawn  ");
}

#[test]
fn transform_changes_only_the_kind() {
    let mut p = starting_pieces()[8];
    p.transform_typ("queen ");
    assert_eq!(p.typ_index, QUEEN);
    assert_eq!(p.position, (1, 0));
    assert_eq!(p.side, Side::Black);
    p.transform_typ("knight");
    assert_eq!(p.typ_index, KNIGHT);
}

#[test]
fn opening_moves_of_every_piece() {
    let b = starting_pieces();
    for p in b.iter() {
        let got = sorted(p.valid_movements(&b));
        let (r, f) = p.position;
        let want: Vec<(usize, usize)> = if p.typ_index == PAWN {
            if p.side == Side::White {
                vec![(4, f), (5, f)]
            } else {
                vec![(2, f), (3, f)]
            }
        } else if p.typ_index == KNIGHT {
            let to = if r == 7 { 5 } else { 2 };
            sorted(vec![(to, f - 1), (to, f + 1)])
        } else {
            vec![]
        };
        assert_eq!(got, want, "piece at {:?}", p.position);
    }
}

#[test]
fn knight_leaves_its_opening_square() {
    let mut b = starting_pieces();
    assert_eq!(moves_at(&b, (7, 1)), vec![(5, 0), (5, 2)]);
    assert_eq!(move_piece(&mut b, (7, 1), (5, 2), Side::White), Ok(()));
    assert_eq!(b[25].position, (5, 2));
    assert_eq!(b[25].times_moved, 1);
    let mut b = starting_pieces();
    assert_eq!(
        move_piece(&mut b, (7, 1), (6, 3), Side::White),
        Err(MoveError::IllegalDestination)
    );
    assert_eq!(b, starting_pieces());
}

#[test]
fn no_destination_holds_a_friendly_piece() {
    let b = board("4k3/8/8/3p4/2PQP3/3N4/8/4K3");
    for p in b.iter() {
        for t in p.valid_movements(&b) {
            if let Some(j) = position_to_piece(&b, t) {
                assert_ne!(b[j].side, p.side);
            }
        }
    }
    assert_eq!(moves_at(&b, (4, 3)).contains(&(3, 3)), true);
    assert_eq!(moves_at(&b, (4, 3)).contains(&(4, 2)), false);
}

#[test]
fn rook_stops_at_first_piece() {
    let b = board("8/8/8/8/R2p1P2/8/8/8");
    assert_eq!(
        moves_at(&b, (4, 0)),
        vec![(0, 0), (1, 0), (2, 0), (3, 0), (4, 1), (4, 2), (4, 3), (5, 0), (6, 0), (7, 0)]
    );
}

#[test]
fn bishop_queen_and_king_rays() {
    let b = board("8/8/8/3B4/8/8/8/8");
    assert_eq!(moves_at(&b, (3, 3)).len(), 13);
    let b = board("8/8/8/3Q4/8/8/8/8");
    assert_eq!(moves_at(&b, (3, 3)).len(), 27);
    let b = board("8/8/8/3K4/8/8/8/8");
    assert_eq!(
        moves_at(&b, (3, 3)),
        vec![(2, 2), (2, 3), (2, 4), (3, 2), (3, 4), (4, 2), (4, 3), (4, 4)]
    );
    let b = board("K7/8/8/8/8/8/8/8");
    assert_eq!(moves_at(&b, (0, 0)), vec![(0, 1), (1, 0), (1, 1)]);
    let b = board("8/8/1p6/8/3b4/8/8/6P1");
    assert_eq!(moves_at(&b, (4, 3)).contains(&(7, 6)), true);
    assert_eq!(moves_at(&b, (4, 3)).contains(&(1, 0)), false);
    assert_eq!(moves_at(&b, (4, 3)).contains(&(6, 5)), true);
    assert_eq!(moves_at(&b, (4, 3)).contains(&(2, 1)), false);
    assert_eq!(moves_at(&b, (4, 3)).contains(&(3, 2)), true);
}

#[test]
fn pawn_double_step_only_first_move() {
    let mut b = board("4k3/8/8/8/8/8/4P3/4K3");
    assert_eq!(moves_at(&b, (6, 4)), vec![(4, 4), (5, 4)]);
    assert_eq!(move_piece(&mut b, (6, 4), (5, 4), Side::White), Ok(()));
    assert_eq!(moves_at(&b, (5, 4)), vec![(4, 4)]);
}

#[test]
fn pawn_forward_blocked() {
    let b = board("8/8/8/8/8/4p3/4P3/8");
    assert_eq!(moves_at(&b, (6, 4)), Vec::<(usize, usize)>::new());
    let b = board("8/8/8/8/4p3/8/4P3/8");
    assert_eq!(moves_at(&b, (6, 4)), vec![(5, 4)]);
}

#[test]
fn pawn_diagonal_only_onto_enemy() {
    let b = board("8/8/8/8/8/3p1P2/4P3/8");
    assert_eq!(moves_at(&b, (6, 4)), vec![(4, 4), (5, 3), (5, 4)]);
    let b = board("8/8/8/8/8/8/4P3/8");
    assert_eq!(moves_at(&b, (6, 4)), vec![(4, 4), (5, 4)]);
    let b = board("8/3p4/2P1P3/8/8/8/8/8");
    assert_eq!(moves_at(&b, (1, 3)), vec![(2, 2), (2, 3), (2, 4), (3, 3)]);
}

#[test]
fn pawn_reaching_back_row_becomes_queen() {
    let mut b = board("8/P7/8/8/8/8/7p/8");
    assert_eq!(move_piece(&mut b, (1, 0), (0, 0), Side::White), Ok(()));
    assert_eq!(b[0].typ_index, QUEEN);
    assert_eq!(b[0].typ(), "queen ");
    assert_eq!(move_piece(&mut b, (6, 7), (7, 7), Side::Black), Ok(()));
    assert_eq!(b[1].typ_index, QUEEN);
    assert_eq!(move_piece(&mut b, (0, 0), (7, 0), Side::White), Ok(()));
    assert_eq!(b[0].typ_index, QUEEN);
    let mut b = board("8/8/8/8/8/8/8/R7");
    assert_eq!(move_piece(&mut b, (7, 0), (0, 0), Side::White), Ok(()));
    assert_eq!(b[0].typ_index, ROOK);
}

#[test]
fn rejection_is_repeatable_and_changes_nothing() {
    let mut b = starting_pieces();
    let first = move_piece(&mut b, (7, 0), (5, 0), Side::White);
    assert_eq!(first, Err(MoveError::IllegalDestination));
    assert_eq!(b, starting_pieces());
    let second = move_piece(&mut b, (7, 0), (5, 0), Side::White);
    assert_eq!(second, first);
    assert_eq!(b, starting_pieces());
}

#[test]
fn each_rejection_reason() {
    let mut b = starting_pieces();
    assert_eq!(move_piece(&mut b, (6, 0), (8, 0), Side::White), Err(MoveError::OutOfBounds));
    assert_eq!(move_piece(&mut b, (6, 0), (5, 8), Side::White), Err(MoveError::OutOfBounds));
    assert_eq!(move_piece(&mut b, (4, 4), (3, 4), Side::White), Err(MoveError::NoPieceAtSource));
    assert_eq!(move_piece(&mut b, (1, 4), (3, 4), Side::White), Err(MoveError::WrongSideToMove));
    assert_eq!(move_piece(&mut b, (6, 4), (3, 4), Side::White), Err(MoveError::IllegalDestination));
    assert_eq!(b, starting_pieces());
}

#[test]
fn opening_sequence_with_capture() {
    let mut g = Game { pieces: starting_pieces(), side: Side::White };
    assert_eq!(g.play_move((6, 4), (4, 4)), Ok(()));
    assert_eq!(g.side, Side::Black);
    assert_eq!(g.play_move((1, 3), (3, 3)), Ok(()));
    assert_eq!(g.side, Side::White);
    assert_eq!(g.play_move((4, 4), (3, 3)), Ok(()));
    assert_eq!(g.side, Side::Black);
    assert!(g.pieces[11].captured);
    assert_eq!(g.pieces[11].position, (3, 3));
    assert_eq!(position_to_piece(&g.pieces, (3, 3)), Some(20));
    assert_eq!(g.play_move((1, 4), (4, 4)), Err(MoveError::IllegalDestination));
    assert_eq!(g.side, Side::Black);
    let before = g.pieces.clone();
    assert_eq!(
        move_piece(&mut g.pieces, (7, 0), (7, 5), Side::White),
        Err(MoveError::IllegalDestination)
    );
    assert_eq!(g.pieces, before);
}

#[test]
fn white_cannot_move_on_blacks_turn() {
    let mut g = Game { pieces: starting_pieces(), side: Side::Black };
    assert_eq!(g.play_move((6, 4), (4, 4)), Err(MoveError::WrongSideToMove));
    assert_eq!(g.side, Side::Black);
    assert_eq!(g.pieces, starting_pieces());
}

#[test]
fn movement_requests() {
    assert_eq!(parse_movement("e2 e4\n"), Some(((6, 4), (4, 4))));
    assert_eq!(parse_movement("a8 h1"), Some(((0, 0), (7, 7))));
    assert_eq!(parse_movement("e2 e9\n"), None);
    assert_eq!(parse_movement("i2 e4"), None);
    assert_eq!(parse_movement("e2e4"), None);
    assert_eq!(parse_movement("e2  e4"), None);
    assert_eq!(parse_movement(""), None);
}

#[test]
fn placement_written_back() {
    let mut b = starting_pieces();
    assert_eq!(board_to_fen(&b), "rnbqkbnr/pppppppp/8/8/8/8/PPPPPPPP/RNBQKBNR");
    assert_eq!(move_piece(&mut b, (6, 4), (4, 4), Side::White), Ok(()));
    assert_eq!(board_to_fen(&b), "rnbqkbnr/pppppppp/8/8/4P3/8/PPPP1PPP/RNBQKBNR");
    assert_eq!(board_to_fen(&Vec::new()), "8/8/8/8/8/8/8/8");
    let placement = "r3k2r/p1p2p1p/8/3Q4/8/8/1P4P1/4K3";
    assert_eq!(board_to_fen(&board(placement)), placement);
}

#[test]
fn movements_listed_once() {
    let b = board("r3k2r/pp1n1ppp/2p5/3Q4/2N1P3/8/PPP2PPP/R3K2R");
    for p in b.iter() {
        let v = p.valid_movements(&b);
        assert_eq!(sorted(v.clone()).len(), v.len(), "piece at {:?}", p.position);
    }
}
