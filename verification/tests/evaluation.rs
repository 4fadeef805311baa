use chess_engine::evaluator::{
    bit_scan_forward, black_king_end_scores, black_king_scores, black_pawn_scores,
    black_queen_scores, evaluate_position, flip_scores, position_to_score,
};
use chess_engine::state::{BBPiece, ChessState};

fn position(fen: &str) -> ChessState {
    ChessState::from_fen(fen).unwrap()
}

#[test]
fn test_bit_scan_forward() {
    for i in 0u64..63 {
        let bb: u64 = 1u64 << i;
        assert_eq!(bit_scan_forward(bb), i as i32);
    }
}

#[test]
fn bit_scan_forward_of_any_board_is_its_lowest_square() {
    assert_eq!(bit_scan_forward(1u64 << 63), 63);
    assert_eq!(bit_scan_forward(u64::MAX), 0);
    assert_eq!(bit_scan_forward(0b1011000), 3);
    assert_eq!(bit_scan_forward(0xff00_0000_0000_0000), 56);
}

#[test]
fn test_position_to_score() {
    let w_pawn = flip_scores(&black_pawn_scores());
    for i in 0u64..63 {
        let bb: u64 = 1u64 << i;
        let result = position_to_score(&w_pawn, bb);
        assert_eq!(result, w_pawn[i as usize]);
    }
    let bb: u64 = 1 << 15 | 1 << 7;
    let result = position_to_score(&w_pawn, bb);
    assert_eq!(result, w_pawn[15] + w_pawn[7]);
}

#[test]
fn white_tables_are_black_tables_with_the_ranks_mirrored() {
    let black = black_queen_scores();
    let white = flip_scores(&black);
    for y in 0..8 {
        for x in 0..8 {
            assert_eq!(white[y * 8 + x], black[(7 - y) * 8 + x]);
        }
    }
    // the queen's table is not the same on both wings, so the files must stay
    assert_eq!(black[32], 0);
    assert_eq!(black[39], -5);
    assert_eq!(white[24], 0);
    assert_eq!(white[31], -5);
    assert_eq!(flip_scores(&white), black);
}

#[test]
fn pawn_bonuses() {
    let black = black_pawn_scores();
    // a black pawn one step from promotion stands on rank 2
    assert_eq!(black[8], 50);
    assert_eq!(black[51], -20);
    let white = flip_scores(&black);
    assert_eq!(white[48], 50);
    assert_eq!(white[11], -20);
    assert_eq!(position_to_score(&white, 0xff00), 5 + 10 + 10 - 20 - 20 + 10 + 10 + 5);
    assert_eq!(position_to_score(&white, 0), 0);
}

#[test]
fn initial_position_is_balanced() {
    assert_eq!(evaluate_position(&ChessState::new_game()), 0);
}

#[test]
fn a_lone_extra_pawn() {
    // kings on e1 and e8 in the end game, a white pawn on e4
    let state = position("4k3/8/8/8/4P3/8/8/4K3 w - - 0 1");
    let king_end = black_king_end_scores();
    let white_king = flip_scores(&king_end)[4];
    let black_king = king_end[60];
    assert_eq!(white_king, black_king);
    let pawn = flip_scores(&black_pawn_scores())[28];
    assert_eq!(pawn, 20);
    assert_eq!(evaluate_position(&state), 100 + 20);
}

#[test]
fn end_game_starts_below_1800_of_rooks_and_queens() {
    // two queens: 1800, still the middle game
    let middle = position("3qk3/8/8/8/8/8/8/3QK3 w - - 0 1");
    let king = black_king_scores();
    let white_king = flip_scores(&king)[4];
    assert_eq!(white_king, king[60]);
    assert_eq!(evaluate_position(&middle), 0);
    // a queen and a rook against nothing: 1400, the end game
    let state = position("4k3/8/8/8/8/8/8/R2QK3 w - - 0 1");
    let king_end = black_king_end_scores();
    let queen = flip_scores(&black_queen_scores());
    let expected = 900 + 500 + queen[3] + 0 + flip_scores(&king_end)[4] - king_end[60];
    assert_eq!(evaluate_position(&state), expected);
    // a queen and two rooks: 1900, the middle game
    let state = position("4k3/8/8/8/8/8/8/R2QK2R w - - 0 1");
    let expected = 900 + 1000 + queen[3] + flip_scores(&king)[4] - king[60];
    assert_eq!(evaluate_position(&state), expected);
}

#[test]
fn evaluation_is_symmetric() {
    let pairs = [
        (
            "r3k2r/p1ppqpb1/bn2pnp1/3PN3/1p2P3/2N2Q1p/PPPBBPPP/R3K2R w KQkq - 0 1",
            "r3k2r/pppbbppp/2n2q1P/1P2p3/3pn3/BN2PNP1/P1PPQPB1/R3K2R b KQkq - 0 1",
        ),
        (
            "r3k2r/Pppp1ppp/1b3nbN/nP6/BBP1P3/q4N2/Pp1P2PP/R2Q1RK1 w kq - 0 1",
            "r2q1rk1/pP1p2pp/Q4n2/bbp1p3/Np6/1B3NBn/pPPP1PPP/R3K2R b KQ - 0 1",
        ),
        ("8/2p5/3p4/KP5r/1R3p1k/8/4P1P1/8 w - - 0 1", "8/4p1p1/8/1r3P1K/kp5R/3P4/2P5/8 b - - 0 1"),
    ];
    for (fen, mirrored) in pairs.iter() {
        let value = evaluate_position(&position(fen));
        assert_eq!(evaluate_position(&position(mirrored)), -value);
        assert_ne!(value, 0);
    }
}

#[test]
fn taking_a_piece_away_lowers_the_score_of_its_side() {
    let full = position("r3k2r/p1ppqpb1/bn2pnp1/3PN3/1p2P3/2N2Q1p/PPPBBPPP/R3K2R w KQkq - 0 1");
    let value = evaluate_position(&full);
    for piece in BBPiece::get_pieces() {
        if piece == BBPiece::WKing || piece == BBPiece::BKing {
            continue;
        }
        let mut board = full.bboard(piece);
        while board != 0 {
            let bit = board & board.wrapping_neg();
            board ^= bit;
            let mut less = full;
            *less.bboard_mut(piece) ^= bit;
            let all = if piece.idx() < 9 { BBPiece::WAll } else { BBPiece::BAll };
            *less.bboard_mut(all) ^= bit;
            let change = evaluate_position(&less) - value;
            if piece.idx() < 9 {
                assert!(change < 0);
            } else {
                assert!(change > 0);
            }
        }
    }
}

#[test]
fn large_bonuses_are_added_up() {
    let mut scores = [0i32; 64];
    scores[0] = i32::MAX;
    scores[1] = -i32::MAX;
    scores[63] = 7;
    assert_eq!(position_to_score(&scores, 1), i32::MAX);
    assert_eq!(position_to_score(&scores, 0b11 | (1 << 63)), 7);
    let wide = [33554431i32; 64];
    assert_eq!(position_to_score(&wide, u64::MAX), 2147483584);
}
