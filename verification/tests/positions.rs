use chess_engine::common::{castle_rights_left, castle_tuple_k_r_e_na_km_rm, update_castles};
use chess_engine::debug::AsString;
use chess_engine::fen::ParseError;
use chess_engine::game_setup::{ChessCoord, ChessMove, GameSetup};
use chess_engine::move_generator::{get_bb_move_text, get_move_text, MoveGenerator, state_is_sane};
use chess_engine::state::{BBPiece, CastleSide, ChessState, Side};

const INITIAL: &str = "rnbqkbnr/pppppppp/8/8/8/8/PPPPPPPP/RNBQKBNR w KQkq - 0 1";

#[test]
fn test_equal_states() {
    let state1 = ChessState::new_game();
    let state2 =
        ChessState::from_fen("rnbqkbnr/pppppppp/8/8/8/8/PPPPPPPP/RNBQKBNR w KQkq - 0 1").unwrap();
    let state3 =
        ChessState::from_fen("rnbqkbnr/pppppppp/8/8/8/8/PPPPPPPP/RNBQKBNR w Qkq - 0 1").unwrap();
    let state4 =
        ChessState::from_fen("rnbqkbnr/pppppppp/8/8/8/8/PPPPPPPP/RNBQKBNR b KQkq - 0 1").unwrap();
    let state5 =
        ChessState::from_fen("rnbqkbnr/pppppppp/8/8/8/8/PPPPPPP1/RNBQKBNR w KQkq - 0 1").unwrap();
    let state6 =
        ChessState::from_fen("rnbqkbnr/pppppppp/8/8/8/8/PPPPPPPP/RNBQKBNR w KQkq a3 0 1").unwrap();
    let state7 =
        ChessState::from_fen("rnbqkbnr/pppppppp/8/8/8/8/PPPPPPPP/RNBQKBNR w KQkq - 0 2").unwrap();

    assert_eq!(state1, state2);
    assert_ne!(state2, state3);
    assert_ne!(state1, state3);
    assert_ne!(state1, state4);
    assert_ne!(state1, state5);
    assert_ne!(state1, state6);
    assert_ne!(state1, state7);
}

#[test]
fn test_mut_board() {
    let mut state = ChessState::from_fen("8/8/8/8/8/8/8/8 w - -").unwrap();

    let b = state.bboard_mut(BBPiece::WPawn);
    assert_eq!(*b, 0u64);

    *b ^= 1;

    let b = state.bboard_mut(BBPiece::WPawn);
    assert_eq!(*b, 1u64);
}

#[test]
fn the_initial_position() {
    let state = ChessState::new_game();
    assert_eq!(state.next_to_move, Side::White);
    assert_eq!(state.bboard(BBPiece::WKing), 1 << 4);
    assert_eq!(state.bboard(BBPiece::WPawn), 0xff00);
    assert_eq!(state.bboard(BBPiece::WRook), 0x81);
    assert_eq!(state.bboard(BBPiece::WAll), 0xffff);
    assert_eq!(state.bboard(BBPiece::BQueen), 1 << 59);
    assert_eq!(state.bboard(BBPiece::BAll), 0xffff << 48);
    assert_eq!(state.castle_state(Side::White), (true, true));
    assert_eq!(state.castle_state(Side::Black), (true, true));
    assert_eq!(state.half_move_count, 0);
    assert_eq!(state.full_move_count, 1);
    assert_eq!(state.to_fen(), INITIAL);
}

#[test]
fn an_empty_position() {
    let state = ChessState::new_empty();
    assert_eq!(state.bboards, [0u64; 18]);
    assert_eq!(state.next_to_move, Side::White);
    assert_eq!(state.half_move_count, 0);
    assert_eq!(state.full_move_count, 0);
    assert_eq!(state.to_fen(), "8/8/8/8/8/8/8/8 w - - 0 0");
}

#[test]
fn reading_and_writing_positions() {
    let fens = [
        INITIAL,
        "r3k2r/p1ppqpb1/bn2pnp1/3PN3/1p2P3/2N2Q1p/PPPBBPPP/R3K2R w KQkq - 0 1",
        "8/2p5/3p4/KP5r/1R3p1k/8/4P1P1/8 w - - 12 34",
        "r3k2r/Pppp1ppp/1b3nbN/nP6/BBP1P3/q4N2/Pp1P2PP/R2Q1RK1 w kq - 0 1",
        "rnbq1k1r/pp1Pbppp/2p5/8/2B5/8/PPP1NnPP/RNBQK2R w KQ - 1 8",
        "r4rk1/1pp1qppp/p1np1n2/2b1p1B1/2B1P1b1/P1NP1N2/1PP1QPPP/R4RK1 w - - 0 10",
        "rnbqkbnr/pppp1ppp/8/4p3/4P3/8/PPPP1PPP/RNBQKBNR w KQkq e6 0 2",
        "rnbqkbnr/pppppppp/8/8/4P3/8/PPPP1PPP/RNBQKBNR b KQkq e3 0 1",
        "7k/8/8/8/8/8/8/K7 b - - 4294967295 4294967295",
    ];
    for fen in fens.iter() {
        let state = ChessState::from_fen(fen).unwrap();
        assert_eq!(state.to_fen(), *fen);
        assert_eq!(ChessState::from_fen(&state.to_fen()).unwrap(), state);
        assert_eq!(String::from_utf8(state.to_fen_bytes()).unwrap(), *fen);
    }
}

#[test]
fn white_space_around_a_position_is_left_out() {
    let state = ChessState::from_fen("  \t8/2p5/3p4/KP5r/1R3p1k/8/4P1P1/8 w - - \n").unwrap();
    assert_eq!(state.to_fen(), "8/2p5/3p4/KP5r/1R3p1k/8/4P1P1/8 w - - 0 0");
}

#[test]
fn missing_fields_of_a_position() {
    let state = ChessState::from_fen("4k3/8/8/8/8/8/8/4K3").unwrap();
    assert_eq!(state.next_to_move, Side::White);
    assert_eq!(state.castle_state(Side::White), (false, false));
    assert_eq!(state.castle_state(Side::Black), (false, false));
    assert_eq!(state.bboard(BBPiece::WEnPassant) | state.bboard(BBPiece::BEnPassant), 0);
    assert_eq!(state.half_move_count, 0);
    assert_eq!(state.full_move_count, 0);
    assert_eq!(state.bboard(BBPiece::WKing), 1 << 4);
    assert_eq!(state.bboard(BBPiece::BKing), 1 << 60);
    assert_eq!(state.bboard(BBPiece::WAll), 1 << 4);
    assert_eq!(state.bboard(BBPiece::BAll), 1 << 60);
    let state = ChessState::from_fen("").unwrap();
    assert_eq!(state, ChessState::new_empty());
}

#[test]
fn positions_that_are_not_read() {
    assert_eq!(ChessState::from_fen("8/8/8/8/8/8/8/7x w - - 0 1"), Err(ParseError::BadBoard));
    assert_eq!(ChessState::from_fen("9/8/8/8/8/8/8/8 w - - 0 1"), Err(ParseError::BadBoard));
    assert_eq!(ChessState::from_fen("8/8/8/8/8/8/8/8/p w - - 0 1"), Err(ParseError::BadBoard));
    assert_eq!(ChessState::from_fen("8/8/8/8/8/8/8/8 x - - 0 1"), Err(ParseError::BadSide));
    assert_eq!(ChessState::from_fen("8/8/8/8/8/8/8/8  - - 0 1"), Err(ParseError::BadSide));
    assert_eq!(ChessState::from_fen("8/8/8/8/8/8/8/8 w - i3 0 1"), Err(ParseError::BadEnPassant));
    assert_eq!(ChessState::from_fen("8/8/8/8/8/8/8/8 w - a9 0 1"), Err(ParseError::BadEnPassant));
    assert_eq!(ChessState::from_fen("8/8/8/8/8/8/8/8 w - - x 1"), Err(ParseError::BadNumber));
    assert_eq!(ChessState::from_fen("8/8/8/8/8/8/8/8 w - - 0 -1"), Err(ParseError::BadNumber));
    assert_eq!(ChessState::from_fen("8/8/8/8/8/8/8/8 w - -  1"), Err(ParseError::BadNumber));
    assert_eq!(
        ChessState::from_fen("8/8/8/8/8/8/8/8 w - - 4294967296 1"),
        Err(ParseError::BadNumber)
    );
    assert_eq!(
        ChessState::from_fen("8/8/8/8/8/8/8/8 w - - 0 99999999999"),
        Err(ParseError::BadNumber)
    );
}

#[test]
fn castling_rights_and_marks() {
    let mut state = ChessState::from_fen("r3k2r/8/8/8/8/8/8/R3K2R w Kq - 0 1").unwrap();
    assert_eq!(state.castle_state(Side::White), (true, false));
    assert_eq!(state.castle_state(Side::Black), (false, true));
    assert_eq!(state.castle_string(), "Kq");
    assert_eq!(state.castle_moves(Side::White), (0x40, 0));
    assert_eq!(state.castle_moves(Side::Black), (0, 0x04 << 56));
    let all = ChessState::from_fen("r3k2r/8/8/8/8/8/8/R3K2R b KQkq - 0 1").unwrap();
    assert_eq!(all.castle_moves(Side::White), (0x40, 0x04));
    assert_eq!(all.castle_moves(Side::Black), (0x40 << 56, 0x04 << 56));
    assert_eq!(all, ChessState::from_fen("r3k2r/8/8/8/8/8/8/R3K2R b KQkq - 0 1").unwrap());
    state.set_queen_side_castle(Side::White, true);
    assert_eq!(state.castle_state(Side::White), (true, true));
    state.set_king_side_castle(Side::White, false);
    assert_eq!(state.castle_state(Side::White), (false, true));
    state.set_castle_state(Side::Black, (false, false));
    state.set_queen_side_castle(Side::White, false);
    assert_eq!(state.castle_string(), "-");
    state.set_castle_state(Side::Black, (true, true));
    assert_eq!(state.castle_string(), "kq");
    assert_eq!(state.en_passant_string(), "-");
    state.set_en_passant(1 << 20);
    assert_eq!(state.bboard(BBPiece::WEnPassant), 1 << 20);
    assert_eq!(state.bboard(BBPiece::BEnPassant), 0);
    assert_eq!(state.en_passant_string(), "e3");
    state.set_en_passant(1 << 44);
    assert_eq!(state.bboard(BBPiece::WEnPassant), 0);
    assert_eq!(state.bboard(BBPiece::BEnPassant), 1 << 44);
    assert_eq!(state.en_passant_string(), "e6");
}

#[test]
fn castling_rights_follow_king_and_rooks() {
    assert_eq!(castle_rights_left(Side::White, 1 << 4, 0x81, 3), 3);
    assert_eq!(castle_rights_left(Side::White, 1 << 4, 0x80, 3), 1);
    assert_eq!(castle_rights_left(Side::White, 1 << 4, 0x01, 3), 2);
    assert_eq!(castle_rights_left(Side::White, 1 << 4, 0x01, 1), 0);
    assert_eq!(castle_rights_left(Side::White, 1 << 5, 0x81, 3), 0);
    assert_eq!(castle_rights_left(Side::Black, 1 << 60, 0x81 << 56, 3), 3);
    assert_eq!(castle_rights_left(Side::Black, 1 << 60, 0x81, 3), 0);
    let mut state = ChessState::from_fen("r3k2r/8/8/8/8/8/8/1R2K2R w KQkq - 0 1").unwrap();
    update_castles(&mut state, Side::White);
    update_castles(&mut state, Side::Black);
    assert_eq!(state.castle_string(), "Kkq");
    assert_eq!(
        castle_tuple_k_r_e_na_km_rm(Side::White, CastleSide::King),
        (0x10, 0x80, 0x60, 0x70, 0x50, 0xA0)
    );
    assert_eq!(
        castle_tuple_k_r_e_na_km_rm(Side::Black, CastleSide::Queen),
        (1 << 60, 1 << 56, 0x0E << 56, 0x1C << 56, 0x14 << 56, 0x09 << 56)
    );
    assert_eq!(
        ChessMove::castle_tuple_k_r_e_na_km_rm(0x14),
        castle_tuple_k_r_e_na_km_rm(Side::White, CastleSide::Queen)
    );
    assert_eq!(
        ChessMove::castle_tuple_k_r_e_na_km_rm(0x50 << 56),
        castle_tuple_k_r_e_na_km_rm(Side::Black, CastleSide::King)
    );
}

#[test]
fn pieces_on_squares() {
    let state = ChessState::new_game();
    assert_eq!(state.piece_at(1 << 4), BBPiece::WKing);
    assert_eq!(state.piece_at(1 << 8), BBPiece::WPawn);
    assert_eq!(state.piece_at(1 << 57), BBPiece::BKnight);
    assert_eq!(state.find_piece(1 << 30), None);
    assert_eq!(state.find_piece(1 << 63), Some(BBPiece::BRook));
    assert_eq!(state.bboard_ofs(BBPiece::WQueen, 0), 1 << 3);
    assert_eq!(state.bboard_ofs(BBPiece::WQueen, 9), 1 << 59);
}

#[test]
fn pieces_and_sides() {
    let pieces = BBPiece::get_pieces();
    assert_eq!(pieces.len(), 12);
    let letters: String = pieces.iter().map(|p| p.to_char()).collect();
    assert_eq!(letters, "KPRNBQkprnbq");
    for p in pieces.iter() {
        assert_eq!(BBPiece::from_byte(&(p.to_char() as u8)), *p);
        assert_eq!(BBPiece::from_idx(p.idx()), *p);
        assert_eq!(BBPiece::from_idx(p.opposite_idx()).opposite_idx(), p.idx());
        assert_eq!(p.get_side() == Side::White, p.idx() < 9);
        assert_eq!(p.value() > 0, p.get_side() == Side::White);
    }
    assert_eq!(BBPiece::WPawn.value(), 100);
    assert_eq!(BBPiece::WKnight.value(), 320);
    assert_eq!(BBPiece::WBishop.value(), 330);
    assert_eq!(BBPiece::WRook.value(), 500);
    assert_eq!(BBPiece::WQueen.value(), 900);
    assert_eq!(BBPiece::WKing.value(), 40000);
    assert_eq!(BBPiece::BQueen.value(), -900);
    assert_eq!(BBPiece::WAll.value(), 0);
    assert_eq!(BBPiece::WAll.to_char(), '*');
    assert_eq!(BBPiece::WKnight.to_string(), "Knight");
    assert_eq!(BBPiece::BKnight.to_string(), "knight");
    assert_eq!(BBPiece::BEnPassant.to_string(), "");
    assert_eq!(BBPiece::WKing.opposite_idx(), 9);
    assert_eq!(BBPiece::BQueen.opposite_idx(), 5);
    assert_eq!(Side::White.offset(), 0);
    assert_eq!(Side::Black.offset(), 9);
    assert_eq!(Side::White.offsets(), (0, 9));
    assert_eq!(Side::Black.offsets(), (9, 0));
    assert_eq!(Side::White.idx(), 0);
    assert_eq!(Side::Black.idx(), 1);
    assert_eq!(Side::White.value(), 1);
    assert_eq!(Side::Black.value(), -1);
    assert_eq!(Side::White.opposite(), Side::Black);
    assert_eq!(Side::Black.opposite(), Side::White);
    assert_eq!(Side::from_byte(b'w'), Side::White);
    assert_eq!(Side::from_byte(b'b'), Side::Black);
    assert_eq!(Side::White.to_char(), 'w');
    assert_eq!(Side::Black.to_char(), 'b');
}

#[test]
fn coordinates() {
    let c = ChessCoord::from_string(b"e4");
    assert_eq!(c, ChessCoord::new(4, 3));
    assert_eq!(c.idx(), 28);
    assert_eq!(c.as_bboard(), 1 << 28);
    assert_eq!(c.to_string(), "e4");
    assert_eq!(ChessCoord::from_bboard(1 << 63), ChessCoord::new(7, 7));
    assert_eq!(ChessCoord::from_bboard(0b1100), ChessCoord::new(2, 0));
    assert_eq!(ChessCoord::from_string(b"a1").idx(), 0);
    assert_eq!(ChessCoord::from_string(b"h8").to_string(), "h8");
}

#[test]
fn moves_are_made_and_taken_back() {
    let generator = MoveGenerator::new();
    let fens = [
        INITIAL,
        "r3k2r/p1ppqpb1/bn2pnp1/3PN3/1p2P3/2N2Q1p/PPPBBPPP/R3K2R w KQkq - 3 7",
        "rnbq1k1r/pp1Pbppp/2p5/8/2B5/8/PPP1NnPP/RNBQK2R w KQ - 1 8",
        "rnbqkbnr/ppp1pppp/8/8/3pP3/8/PPPP1PPP/RNBQKBNR b KQkq e3 0 2",
    ];
    for fen in fens.iter() {
        let mut state = ChessState::from_fen(fen).unwrap();
        let before = state;
        let mut moves = Vec::new();
        generator.generate_moves(&mut state, &mut moves);
        assert_eq!(state, before);
        for m in moves.iter() {
            assert!(state_is_sane(&mut state, m));
            assert_eq!(state, before);
            state.do_move(m);
            assert_ne!(state, before);
            assert_eq!(state.next_to_move, before.next_to_move.opposite());
            let after = state;
            state.undo_move(m);
            assert_eq!(state, before);
            state.do_move(m);
            assert_eq!(state, after);
            state.undo_move(m);
        }
    }
}

#[test]
fn counters_of_moves() {
    let mut state = ChessState::from_fen("4k3/8/8/8/8/8/4P3/4K1N1 w - - 5 10").unwrap();
    let knight = ChessMove::parse("g1f3", &state).unwrap();
    state.do_move(&knight);
    assert_eq!(state.to_fen(), "4k3/8/8/8/8/5N2/4P3/4K3 b - - 6 10");
    let king = ChessMove::parse("e8d8", &state).unwrap();
    state.do_move(&king);
    assert_eq!(state.to_fen(), "3k4/8/8/8/8/5N2/4P3/4K3 w - - 7 11");
    let pawn = ChessMove::parse("e2e4", &state).unwrap();
    state.do_move(&pawn);
    assert_eq!(state.to_fen(), "3k4/8/8/8/4P3/5N2/8/4K3 b - e3 0 11");
    state.undo_move(&pawn);
    assert_eq!(state.to_fen(), "3k4/8/8/8/8/5N2/4P3/4K3 w - - 7 11");
    state.undo_move(&king);
    state.undo_move(&knight);
    assert_eq!(state.to_fen(), "4k3/8/8/8/8/8/4P3/4K1N1 w - - 5 10");
}

#[test]
fn words_for_moves() {
    assert_eq!(get_bb_move_text(BBPiece::WKnight, 1 << 6, 1 << 21), "Knight g1-f3");
    assert_eq!(get_bb_move_text(BBPiece::BPawn, 1 << 52, 1 << 36), "pawn e7-e5");
    let state = ChessState::new_game();
    let m = ChessMove::parse("b1c3", &state).unwrap();
    assert_eq!(m.get_piece(), BBPiece::WKnight);
    assert_eq!(get_move_text(&m), "Knight b1-c3");
    assert_eq!(m.to_string(), "b1c3");
}

#[test]
fn pictures_of_boards() {
    assert_eq!(
        0x8000_0000_0000_0001u64.as_string(),
        "00000001\n00000000\n00000000\n00000000\n00000000\n00000000\n00000000\n10000000\n"
    );
    assert_eq!(
        0xff00u64.as_string(),
        "00000000\n00000000\n00000000\n00000000\n00000000\n00000000\n11111111\n00000000\n"
    );
}

#[test]
fn a_new_setup() {
    let setup = GameSetup::new();
    assert!(!setup.xboard);
    assert!(!setup.pondering);
    assert_eq!(setup.computer_player, [false, false]);
    assert_eq!(setup.time, 0);
    assert_eq!(setup.otime, 0);
    assert_eq!(setup.moves_left, 0);
    assert!(!setup.forced);
    assert_eq!(setup.game_state, ChessState::new_game());
}
