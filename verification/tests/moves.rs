use chess_engine::fen::ParseError;
use chess_engine::game_setup::ChessMove;
use chess_engine::magic::{compute_bishop_attack_bits, compute_rook_attack_bits, Magic};
use chess_engine::move_generator::{get_move_text, state_is_sane, MoveGenerator};
use chess_engine::piece_moves::{
    bishop_move, black_pawn_capture, black_pawn_move, generate_moves, inner_bits, king_move,
    knight_move, queen_move, rook_move, white_pawn_capture, white_pawn_move, PieceMoveProvider,
};
use chess_engine::state::{BBPiece, ChessState, Side};

fn position(fen: &str) -> ChessState {
    ChessState::from_fen(fen).unwrap()
}

fn legal_moves(fen: &str) -> Vec<String> {
    let generator = MoveGenerator::new();
    let mut state = position(fen);
    let mut moves = Vec::new();
    generator.generate_moves(&mut state, &mut moves);
    let mut texts: Vec<String> = moves.iter().map(|m| m.to_string()).collect();
    texts.sort();
    texts
}

#[test]
fn test_some_moves() {
    let mut state = position("r3k1B1/8/3b4/p1pPNR1n/2P5/2N4P/PP5P/R2Q2K1 b q - 0 1");
    let generator = MoveGenerator::new();
    let mut moves: Vec<ChessMove> = Vec::new();
    generator.generate_moves(&mut state, &mut moves);
    assert!(!moves.is_empty());
    for (idx, cmove) in moves.iter().enumerate() {
        println!("{} {}", idx + 1, get_move_text(cmove));
        assert!(state_is_sane(&mut state, cmove));
    }
}

#[test]
fn tables_of_steps() {
    assert_eq!(knight_move(0), (1 << 10) | (1 << 17));
    assert_eq!(knight_move(27).count_ones(), 8);
    assert_eq!(king_move(0), (1 << 1) | (1 << 8) | (1 << 9));
    assert_eq!(king_move(63), (1 << 62) | (1 << 55) | (1 << 54));
    assert_eq!(king_move(28).count_ones(), 8);
    assert_eq!(rook_move(0), 0x0101_0101_0101_01fe);
    assert_eq!(bishop_move(0), 0x8040_2010_0804_0200);
    assert_eq!(queen_move(0), rook_move(0) | bishop_move(0));
    assert_eq!(queen_move(35), rook_move(35) | bishop_move(35));
    assert_eq!(white_pawn_move(12), (1 << 20) | (1 << 28));
    assert_eq!(white_pawn_move(20), 1 << 28);
    assert_eq!(white_pawn_move(60), 0);
    assert_eq!(white_pawn_capture(12), (1 << 19) | (1 << 21));
    assert_eq!(white_pawn_capture(8), 1 << 17);
    assert_eq!(white_pawn_capture(15), 1 << 22);
    assert_eq!(white_pawn_capture(56), 0);
    assert_eq!(black_pawn_move(52), (1 << 44) | (1 << 36));
    assert_eq!(black_pawn_move(44), 1 << 36);
    assert_eq!(black_pawn_move(3), 0);
    assert_eq!(black_pawn_capture(52), (1 << 43) | (1 << 45));
    assert_eq!(black_pawn_capture(48), 1 << 41);
    assert_eq!(black_pawn_capture(7), 0);
}

#[test]
fn tables_of_the_provider() {
    let provider = PieceMoveProvider::new();
    for s in 0..64u8 {
        let i = s as usize;
        assert_eq!(provider.knight_move[i], knight_move(s));
        assert_eq!(provider.king_move[i], king_move(s));
        assert_eq!(provider.rook_move[i], rook_move(s));
        assert_eq!(provider.bishop_move[i], bishop_move(s));
        assert_eq!(provider.queen_move[i], queen_move(s));
        assert_eq!(provider.white_pawn_move[i], white_pawn_move(s));
        assert_eq!(provider.black_pawn_capture[i], black_pawn_capture(s));
        assert_eq!(provider.inner_rook_attack_bits[i] & (1 << s), 0);
        assert_eq!(provider.inner_bishop_attack_bits[i] & (1 << s), 0);
    }
    assert_eq!(generate_moves(knight_move), provider.knight_move);
    let inner = inner_bits(&provider.bishop_move, &provider.rook_move);
    assert_eq!(inner.0, provider.inner_bishop_attack_bits);
    assert_eq!(inner.1, provider.inner_rook_attack_bits);
    // a rook on a1 looks at a2 to a7 and b1 to g1
    assert_eq!(provider.inner_rook_attack_bits[0], 0x0001_0101_0101_017e);
    // a rook on e4 looks at e2 to e7 and b4 to g4
    assert_eq!(provider.inner_rook_attack_bits[28], 0x0010_1010_6e10_1000);
    assert_eq!(provider.inner_bishop_attack_bits[0], 0x0040_2010_0804_0200);
    let rook_bits = [12, 11, 11, 11, 11, 11, 11, 12, 11, 10, 10, 10, 10, 10, 10, 11];
    let bishop_bits = [6, 5, 5, 5, 5, 5, 5, 6, 5, 5, 5, 5, 5, 5, 5, 5];
    for i in 0..16 {
        assert_eq!(provider.inner_rook_attack_bits[i].count_ones(), rook_bits[i]);
        assert_eq!(provider.inner_bishop_attack_bits[i].count_ones(), bishop_bits[i]);
    }
}

#[test]
fn walks_along_the_rays() {
    assert_eq!(compute_rook_attack_bits(0, 0, 0), 0x0101_0101_0101_01fe);
    // blockers on a3 and c1 are attacked, what is behind them is not
    assert_eq!(
        compute_rook_attack_bits(0, 0, (1 << 16) | (1 << 2) | (1 << 40)),
        (1 << 8) | (1 << 16) | (1 << 1) | (1 << 2)
    );
    assert_eq!(compute_bishop_attack_bits(0, 0, 0), 0x8040_2010_0804_0200);
    assert_eq!(compute_bishop_attack_bits(0, 0, 1 << 27), (1 << 9) | (1 << 18) | (1 << 27));
    assert_eq!(
        compute_bishop_attack_bits(3, 3, 0),
        0x8041_2214_0014_2241
    );
}

#[test]
fn tables_agree_with_the_walks() {
    let provider = PieceMoveProvider::new();
    let magic = Magic::new(&provider);
    let mut seed = 0x2545_f491_4f6c_dd1du64;
    for round in 0..2000 {
        seed ^= seed << 13;
        seed ^= seed >> 7;
        seed ^= seed << 17;
        let occupied = match round % 4 {
            0 => seed,
            1 => seed & seed.rotate_left(17),
            2 => seed & seed.rotate_left(17) & seed.rotate_left(31),
            _ => seed | seed.rotate_left(17),
        };
        for s in 0..64usize {
            let x = (s % 8) as i32;
            let y = (s / 8) as i32;
            assert_eq!(
                magic.get_rook_attack_bits(s, occupied),
                compute_rook_attack_bits(x, y, occupied)
            );
            assert_eq!(
                magic.get_bishop_attack_bits(s, occupied),
                compute_bishop_attack_bits(x, y, occupied)
            );
        }
    }
    for s in 0..64usize {
        let x = (s % 8) as i32;
        let y = (s / 8) as i32;
        for occupied in [0, u64::MAX] {
            assert_eq!(
                magic.get_rook_attack_bits(s, occupied),
                compute_rook_attack_bits(x, y, occupied)
            );
            assert_eq!(
                magic.get_bishop_attack_bits(s, occupied),
                compute_bishop_attack_bits(x, y, occupied)
            );
        }
    }
}

#[test]
fn attacks_on_squares() {
    let generator = MoveGenerator::new();
    let state = position("4k3/8/8/8/8/2n5/4p3/R3K3 w Q - 0 1");
    // the white king on e1 is attacked by nothing, d1 by knight and pawn
    assert!(!generator.is_hit(&state, 4, 9));
    assert!(generator.is_hit(&state, 3, 9));
    assert!(generator.is_hit(&state, 5, 9));
    assert!(!generator.is_hit(&state, 2, 9));
    // the rook on a1 attacks b1 to d1 and the a-file, the king e2 and its neighbours
    assert!(generator.is_hit(&state, 1, 0));
    assert!(generator.is_hit(&state, 3, 0));
    assert!(generator.is_hit(&state, 56, 0));
    assert!(generator.is_hit(&state, 12, 0));
    assert!(!generator.is_hit(&state, 5 + 16, 0));
    assert!(generator.is_any_hit(&state, 0b1110, 9));
    assert!(!generator.is_any_hit(&state, 0b0100, 9));
    assert!(generator.is_any_hit(&state, 0b0110, 9));
    assert!(!generator.is_any_hit(&state, 0, 9));
}

#[test]
fn moves_of_the_initial_position() {
    let moves = legal_moves("rnbqkbnr/pppppppp/8/8/8/8/PPPPPPPP/RNBQKBNR w KQkq - 0 1");
    let expected = [
        "a2a3", "a2a4", "b1a3", "b1c3", "b2b3", "b2b4", "c2c3", "c2c4", "d2d3", "d2d4", "e2e3",
        "e2e4", "f2f3", "f2f4", "g1f3", "g1h3", "g2g3", "g2g4", "h2h3", "h2h4",
    ];
    assert_eq!(moves, expected);
}

#[test]
fn moves_are_generated_in_a_fixed_order() {
    let generator = MoveGenerator::new();
    let mut state = position("4k3/8/8/8/8/8/P7/R3K3 w Q - 0 1");
    let mut moves = Vec::new();
    generator.generate_moves(&mut state, &mut moves);
    let texts: Vec<String> = moves.iter().map(|m| m.to_string()).collect();
    // pawns, rooks, the king, then castling
    let expected = [
        "a2a3", "a2a4", "a1b1", "a1c1", "a1d1", "e1d1", "e1f1", "e1d2", "e1e2", "e1f2", "e1c1",
    ];
    assert_eq!(texts, expected);
    let mut again = vec![moves[0]];
    generator.generate_moves(&mut state, &mut again);
    assert_eq!(again.len(), 12);
    assert_eq!(again[0], moves[0]);
    assert_eq!(&again[1..], &moves[..]);
}

#[test]
fn a_double_step_needs_two_empty_squares() {
    let moves = legal_moves("4k3/8/8/8/8/4n3/4P3/4K3 w - - 0 1");
    assert!(!moves.contains(&"e2e3".to_string()));
    assert!(!moves.contains(&"e2e4".to_string()));
    let moves = legal_moves("4k3/8/8/8/4n3/8/4P3/4K3 w - - 0 1");
    assert!(moves.contains(&"e2e3".to_string()));
    assert!(!moves.contains(&"e2e4".to_string()));
    let moves = legal_moves("4k3/4p3/4N3/8/8/8/8/4K3 b - - 0 1");
    assert!(!moves.contains(&"e7e6".to_string()));
    assert!(!moves.contains(&"e7e5".to_string()));
}

#[test]
fn promotions_give_four_moves() {
    let moves = legal_moves("4k3/P7/8/8/8/8/8/4K3 w - - 0 1");
    for m in ["a7a8q", "a7a8r", "a7a8b", "a7a8n"] {
        assert!(moves.contains(&m.to_string()));
    }
    assert_eq!(moves.len(), 4 + 5);
    let moves = legal_moves("4k3/8/8/8/8/8/p7/4K3 b - - 0 1");
    for m in ["a2a1q", "a2a1r", "a2a1b", "a2a1n"] {
        assert!(moves.contains(&m.to_string()));
    }
}

#[test]
fn a_promotion_puts_the_new_piece_on_the_board() {
    let mut state = position("4k3/P7/8/8/8/8/8/4K3 w - - 0 1");
    let m = ChessMove::parse("a7a8q", &state).unwrap();
    assert_eq!(m.promote, Some(BBPiece::WQueen));
    state.do_move(&m);
    assert_eq!(state.to_fen(), "Q3k3/8/8/8/8/8/8/4K3 b - - 0 1");
    let mut state = position("4k3/8/8/8/8/8/p7/4K3 b - - 0 1");
    let m = ChessMove::parse("a2a1n", &state).unwrap();
    assert_eq!(m.promote, Some(BBPiece::BKnight));
    state.do_move(&m);
    assert_eq!(state.to_fen(), "4k3/8/8/8/8/8/8/n3K3 w - - 0 2");
}

#[test]
fn taking_in_passing() {
    let fen = "rnbqkbnr/ppp1pppp/8/8/3pP3/8/PPPP1PPP/RNBQKBNR b KQkq e3 0 2";
    assert!(legal_moves(fen).contains(&"d4e3".to_string()));
    let mut state = position(fen);
    let m = ChessMove::parse("d4e3", &state).unwrap();
    state.do_move(&m);
    assert_eq!(state.to_fen(), "rnbqkbnr/ppp1pppp/8/8/8/4p3/PPPP1PPP/RNBQKBNR w KQkq - 0 3");
    state.undo_move(&m);
    assert_eq!(state.to_fen(), fen);
    // without the mark the pawn cannot take
    let fen = "rnbqkbnr/ppp1pppp/8/8/3pP3/8/PPPP1PPP/RNBQKBNR b KQkq - 0 2";
    assert!(!legal_moves(fen).contains(&"d4e3".to_string()));
}

#[test]
fn castling() {
    let fen = "r3k2r/8/8/8/8/8/8/R3K2R w KQkq - 0 1";
    let moves = legal_moves(fen);
    assert!(moves.contains(&"e1g1".to_string()));
    assert!(moves.contains(&"e1c1".to_string()));
    let mut state = position(fen);
    let m = ChessMove::parse("e1g1", &state).unwrap();
    state.do_move(&m);
    assert_eq!(state.to_fen(), "r3k2r/8/8/8/8/8/8/R4RK1 b kq - 1 1");
    let m = ChessMove::parse("e8c8", &state).unwrap();
    state.do_move(&m);
    assert_eq!(state.to_fen(), "2kr3r/8/8/8/8/8/8/R4RK1 w - - 2 2");
    // no castling out of, through or into check, nor over a piece
    let moves = legal_moves("r3k2r/8/8/8/8/8/4r3/R3K2R w KQkq - 0 1");
    assert!(!moves.contains(&"e1g1".to_string()));
    assert!(!moves.contains(&"e1c1".to_string()));
    let moves = legal_moves("r3k2r/8/8/8/8/8/5r2/R3K2R w KQkq - 0 1");
    assert!(!moves.contains(&"e1g1".to_string()));
    assert!(moves.contains(&"e1c1".to_string()));
    let moves = legal_moves("r3k2r/8/8/8/8/8/1r6/R3K2R w KQkq - 0 1");
    assert!(moves.contains(&"e1g1".to_string()));
    assert!(moves.contains(&"e1c1".to_string()));
    let moves = legal_moves("r3k2r/8/8/8/8/8/8/RN2K1NR w KQkq - 0 1");
    assert!(!moves.contains(&"e1g1".to_string()));
    assert!(!moves.contains(&"e1c1".to_string()));
    // nor without the right
    let moves = legal_moves("r3k2r/8/8/8/8/8/8/R3K2R w kq - 0 1");
    assert!(!moves.contains(&"e1g1".to_string()));
    assert!(!moves.contains(&"e1c1".to_string()));
}

#[test]
fn rights_are_lost_with_king_and_rooks() {
    let mut state = position("r3k2r/8/8/8/8/8/8/R3K2R w KQkq - 0 1");
    let m = ChessMove::parse("h1h8", &state).unwrap();
    state.do_move(&m);
    assert_eq!(state.to_fen(), "r3k2R/8/8/8/8/8/8/R3K3 b Qq - 0 1");
    let m = ChessMove::parse("e8e7", &state).unwrap();
    state.do_move(&m);
    assert_eq!(state.to_fen(), "r6R/4k3/8/8/8/8/8/R3K3 w Q - 1 2");
}

#[test]
fn a_pinned_piece_stays() {
    let moves = legal_moves("4r1k1/8/8/8/8/8/4N3/4K3 w - - 0 1");
    assert!(moves.iter().all(|m| !m.starts_with("e2")));
    assert_eq!(moves, ["e1d1", "e1d2", "e1f1", "e1f2"]);
}

#[test]
fn reading_moves() {
    let state = position("rnbqkbnr/pppppppp/8/8/8/8/PPPPPPPP/RNBQKBNR w KQkq - 0 1");
    let m = ChessMove::parse("e2e4", &state).unwrap();
    assert_eq!(m.side, Side::White);
    assert_eq!(m.move_from, 1 << 12);
    assert_eq!(m.move_to, 1 << 28);
    assert_eq!(m.promote, None);
    assert_eq!(m.get_piece(), BBPiece::WPawn);
    assert_eq!(m.to_string(), "e2e4");
    assert_eq!(m.deltas[BBPiece::WPawn.idx()], (1 << 12) | (1 << 28));
    assert_eq!(m.deltas[BBPiece::WAll.idx()], (1 << 12) | (1 << 28));
    assert_eq!(m.deltas[BBPiece::WEnPassant.idx()], 1 << 20);
    assert_eq!(ChessMove::parse("e2", &state), Err(ParseError::BadMove));
    assert_eq!(ChessMove::parse("e2e4qq", &state), Err(ParseError::BadMove));
    assert_eq!(ChessMove::parse("e2e9", &state), Err(ParseError::BadMove));
    assert_eq!(ChessMove::parse("i2e4", &state), Err(ParseError::BadMove));
    assert_eq!(ChessMove::parse("e7e8k", &state), Err(ParseError::BadMove));
    assert_eq!(ChessMove::parse("e3e4", &state), Err(ParseError::NoPiece));
    assert_eq!(ChessMove::parse("e7e5", &state), Err(ParseError::NoPiece));
    assert_eq!(ChessMove::parse("e1e2", &state), Err(ParseError::NoPiece));
}

#[test]
fn adding_to_a_move() {
    let mut m = ChessMove::new(Side::Black, 1 << 52, 1 << 36, None);
    assert_eq!(m.deltas, [0u64; 18]);
    m.add_delta(BBPiece::BPawn, (1 << 52) | (1 << 36));
    m.add_delta(BBPiece::BAll, (1 << 52) | (1 << 36));
    m.add_delta(BBPiece::BPawn, 0);
    assert_eq!(m.get_piece(), BBPiece::BPawn);
    assert_eq!(m.deltas[10], (1 << 52) | (1 << 36));
    assert_eq!(m.deltas[15], (1 << 52) | (1 << 36));
    m.add_delta(BBPiece::BAll, 1 << 36);
    assert_eq!(m.deltas[15], 1 << 52);
    assert_eq!(m.to_string(), "e7e5");
}

#[test]
fn generated_moves_are_read_back() {
    let generator = MoveGenerator::new();
    let fens = [
        "r3k2r/p1ppqpb1/bn2pnp1/3PN3/1p2P3/2N2Q1p/PPPBBPPP/R3K2R w KQkq - 0 1",
        "r3k2r/Pppp1ppp/1b3nbN/nP6/BBP1P3/q4N2/Pp1P2PP/R2Q1RK1 w kq - 0 1",
        "r2q1rk1/pP1p2pp/Q4n2/bbp1p3/Np6/1B3NBn/pPPP1PPP/R3K2R b KQ - 0 1",
        "rnbqkbnr/ppp1pppp/8/8/3pP3/8/PPPP1PPP/RNBQKBNR b KQkq e3 0 2",
    ];
    for fen in fens.iter() {
        let mut state = position(fen);
        let mut moves = Vec::new();
        generator.generate_moves(&mut state, &mut moves);
        for m in moves.iter() {
            assert_eq!(ChessMove::parse(&m.to_string(), &state), Ok(*m));
        }
    }
}

#[test]
fn a_blocked_double_step_is_dropped_among_the_candidates() {
    let generator = MoveGenerator::new();
    let mut state = position("4k3/8/8/8/8/4n3/4P3/4K3 w - - 0 1");
    let before = state;
    let mut moves: Vec<ChessMove> = Vec::new();
    generator.fill_pawn_moves(&mut state, &mut moves, 1u64 << 12, 1u64 << 28);
    assert!(moves.is_empty());
    generator.fill_pawn_moves(&mut state, &mut moves, 1u64 << 12, u64::MAX);
    assert!(moves.is_empty());
    assert_eq!(state, before);
    // with e3 free and e4 taken by a black piece the single step stays
    let mut state = position("4k3/8/8/8/4n3/8/4P3/4K3 w - - 0 1");
    generator.fill_pawn_moves(&mut state, &mut moves, 1u64 << 12, u64::MAX);
    let texts: Vec<String> = moves.iter().map(|m| m.to_string()).collect();
    assert_eq!(texts, ["e2e3"]);
}

#[test]
fn only_candidates_that_are_reached_give_moves() {
    let generator = MoveGenerator::new();
    let mut state = ChessState::new_game();
    let mut moves: Vec<ChessMove> = Vec::new();
    generator.fill_pawn_moves(&mut state, &mut moves, 1u64 << 12, u64::MAX);
    generator.fill_pawn_moves(&mut state, &mut moves, 1u64 << 12, 1u64 << 28);
    generator.fill_pawn_moves(&mut state, &mut moves, 1u64 << 12, (1u64 << 21) | (1u64 << 36));
    generator.fill_rbqn_moves(&mut state, &mut moves, BBPiece::WKnight, 1u64 << 1, u64::MAX);
    generator.fill_rbqn_moves(&mut state, &mut moves, BBPiece::WKnight, 1u64 << 1, 1u64 << 18);
    generator.fill_rbqn_moves(&mut state, &mut moves, BBPiece::WKnight, 1u64 << 1, 1u64 << 11);
    generator.fill_rbqn_moves(&mut state, &mut moves, BBPiece::WRook, 1u64, u64::MAX);
    generator.fill_rbqn_moves(&mut state, &mut moves, BBPiece::WKing, 1u64 << 4, 0);
    let texts: Vec<String> = moves.iter().map(|m| m.to_string()).collect();
    assert_eq!(texts, ["e2e3", "e2e4", "e2e4", "b1a3", "b1c3", "b1c3"]);
    assert_eq!(state, ChessState::new_game());
}

#[test]
fn castling_moves_from_the_squares_that_the_king_reaches() {
    let generator = MoveGenerator::new();
    let mut state = position("r3k2r/8/8/8/8/8/8/R3K2R b KQkq - 0 1");
    assert_eq!(state.castle_moves(Side::Black), (1u64 << 62, 1u64 << 58));
    let mut moves: Vec<ChessMove> = Vec::new();
    generator.fill_castle_moves(&mut state, &mut moves);
    let texts: Vec<String> = moves.iter().map(|m| m.to_string()).collect();
    assert_eq!(texts, ["e8g8", "e8c8"]);
}

#[test]
fn every_table_of_the_sliders_is_filled() {
    let provider = PieceMoveProvider::new();
    let magic = Magic::new(&provider);
    assert_eq!(magic.inner_rook_attack_bits, provider.inner_rook_attack_bits);
    assert_eq!(magic.inner_bishop_attack_bits, provider.inner_bishop_attack_bits);
    assert_eq!(magic.rook_magic[0], 0xA8002C000108020);
    assert_eq!(magic.rook_magic[63], 0x410201CE5C030092);
    assert_eq!(magic.bishop_magic[0], 0x40210414004040);
    assert_eq!(magic.bishop_magic[63], 0x2004012A040132);
    assert_eq!(magic.rook_attack_bits.len(), 64);
    assert_eq!(magic.bishop_attack_bits.len(), 64);
    for s in 0..64 {
        let rook_bits = provider.inner_rook_attack_bits[s].count_ones();
        let bishop_bits = provider.inner_bishop_attack_bits[s].count_ones();
        assert_eq!(magic.rook_pop_bits[s], rook_bits as u64);
        assert_eq!(magic.bishop_pop_bits[s], bishop_bits as u64);
        assert_eq!(magic.rook_shift_bits[s], 64 - rook_bits as u64);
        assert_eq!(magic.bishop_shift_bits[s], 64 - bishop_bits as u64);
        assert_eq!(magic.rook_attack_bits[s].len(), 1usize << rook_bits);
        assert_eq!(magic.bishop_attack_bits[s].len(), 1usize << bishop_bits);
        // the entry of the empty occupancy is the line of the slider
        assert_eq!(magic.rook_attack_bits[s][0], provider.rook_move[s]);
        assert_eq!(magic.bishop_attack_bits[s][0], provider.bishop_move[s]);
        let all = provider.inner_rook_attack_bits[s];
        let index = (all.wrapping_mul(magic.rook_magic[s]) >> magic.rook_shift_bits[s]) as usize;
        assert_eq!(
            magic.rook_attack_bits[s][index],
            compute_rook_attack_bits((s % 8) as i32, (s / 8) as i32, all)
        );
    }
}
