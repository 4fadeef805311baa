use chess_engine::game_setup::ChessMove;
use chess_engine::move_generator::MoveGenerator;
use chess_engine::state::ChessState;

fn perft_recursion(move_generator: &MoveGenerator, depth: u32, state: &mut ChessState) -> usize {
    if depth == 0 {
        return 1;
    }
    let mut new_moves: Vec<ChessMove> = Vec::with_capacity(64);
    move_generator.generate_moves(state, &mut new_moves);
    if depth == 1 {
        return new_moves.len();
    }
    let mut result = 0;
    for m in new_moves.iter() {
        state.do_move(m);
        result += perft_recursion(move_generator, depth - 1, state);
        state.undo_move(m);
    }
    result
}

fn perft_test(move_generator: &MoveGenerator, fen_state: &str, depth: u32, expected: usize) {
    let mut state = ChessState::from_fen(fen_state).unwrap();
    let move_count = perft_recursion(move_generator, depth, &mut state);
    assert_eq!(move_count, expected, "depth {} of {}", depth, fen_state);
}

fn perft_tests(fen_state: &str, move_counts: &[usize]) {
    let move_generator = MoveGenerator::new();
    for (idx, move_count) in move_counts.iter().enumerate() {
        perft_test(&move_generator, fen_state, (idx + 1) as u32, *move_count);
    }
}

#[test]
fn test_moves() {
    perft_tests(
        "rnbqkbnr/pppppppp/8/8/8/8/PPPPPPPP/RNBQKBNR w KQkq - 0 1",
        &[20, 400, 8902, 197281, 4865609],
    );
}

#[test]
fn perft_kiwipete() {
    perft_tests(
        "r3k2r/p1ppqpb1/bn2pnp1/3PN3/1p2P3/2N2Q1p/PPPBBPPP/R3K2R w KQkq -",
        &[48, 2039, 97862, 4085603, 193690690],
    );
}

#[test]
fn perft_rook_endgame() {
    perft_tests("8/2p5/3p4/KP5r/1R3p1k/8/4P1P1/8 w - - ", &[14, 191, 2812, 43238, 674624]);
}

#[test]
fn perft_promotions() {
    perft_tests(
        "r3k2r/Pppp1ppp/1b3nbN/nP6/BBP1P3/q4N2/Pp1P2PP/R2Q1RK1 w kq - 0 1",
        &[6, 264, 9467, 422333, 15833292],
    );
}

#[test]
fn perft_promotions_mirrored() {
    perft_tests(
        "r2q1rk1/pP1p2pp/Q4n2/bbp1p3/Np6/1B3NBn/pPPP1PPP/R3K2R b KQ - 0 1",
        &[6, 264, 9467, 422333, 15833292],
    );
}

#[test]
fn perft_discovered_promotion() {
    perft_tests(
        "rnbq1k1r/pp1Pbppp/2p5/8/2B5/8/PPP1NnPP/RNBQK2R w KQ - 1 8",
        &[44, 1486, 62379, 2103487, 89941194],
    );
}

#[test]
fn perft_middle_game() {
    perft_tests(
        "r4rk1/1pp1qppp/p1np1n2/2b1p1B1/2B1P1b1/P1NP1N2/1PP1QPPP/R4RK1 w - - 0 10",
        &[46, 2079, 89890, 3894594, 164075551],
    );
}
