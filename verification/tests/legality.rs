use chess_engine::game_setup::ChessMove;
use chess_engine::move_generator::MoveGenerator;
use chess_engine::state::{BBPiece, ChessState, Side};

const POSITIONS: [&str; 7] = [
    "rnbqkbnr/pppppppp/8/8/8/8/PPPPPPPP/RNBQKBNR w KQkq - 0 1",
    "r3k2r/p1ppqpb1/bn2pnp1/3PN3/1p2P3/2N2Q1p/PPPBBPPP/R3K2R w KQkq - 0 1",
    "8/2p5/3p4/KP5r/1R3p1k/8/4P1P1/8 w - - 0 1",
    "r3k2r/Pppp1ppp/1b3nbN/nP6/BBP1P3/q4N2/Pp1P2PP/R2Q1RK1 w kq - 0 1",
    "rnbq1k1r/pp1Pbppp/2p5/8/2B5/8/PPP1NnPP/RNBQK2R w KQ - 1 8",
    "r4rk1/1pp1qppp/p1np1n2/2b1p1B1/2B1P1b1/P1NP1N2/1PP1QPPP/R4RK1 w - - 0 10",
    "rnbqkbnr/ppp1pppp/8/8/3pP3/8/PPPP1PPP/RNBQKBNR b KQkq e3 0 2",
];

fn check_tree(generator: &MoveGenerator, state: &mut ChessState, depth: u32) -> usize {
    assert!(generator.is_legal_position(state), "{}", state.to_fen());
    assert_eq!(state.bboard(BBPiece::WKing).count_ones(), 1);
    assert_eq!(state.bboard(BBPiece::BKing).count_ones(), 1);
    let mut white = 0;
    let mut black = 0;
    let mut squares = 0;
    for piece in BBPiece::get_pieces() {
        let board = state.bboard(piece);
        squares += board.count_ones();
        if piece.get_side() == Side::White {
            white |= board;
        } else {
            black |= board;
        }
    }
    assert_eq!(state.bboard(BBPiece::WAll), white);
    assert_eq!(state.bboard(BBPiece::BAll), black);
    assert_eq!((white | black).count_ones(), squares);
    assert_eq!(ChessState::from_fen(&state.to_fen()), Ok(*state));
    if depth == 0 {
        return 1;
    }
    let mut moves: Vec<ChessMove> = Vec::new();
    generator.generate_moves(state, &mut moves);
    let mut count = 0;
    for m in moves.iter() {
        state.do_move(m);
        count += check_tree(generator, state, depth - 1);
        state.undo_move(m);
    }
    count
}

#[test]
fn positions_of_a_game_stay_positions_of_a_game() {
    let generator = MoveGenerator::new();
    for fen in POSITIONS.iter() {
        let mut state = ChessState::from_fen(fen).unwrap();
        let before = state;
        assert!(check_tree(&generator, &mut state, 3) > 0);
        assert_eq!(state, before);
    }
}

#[test]
fn the_initial_position_is_one_of_a_game() {
    let generator = MoveGenerator::new();
    assert!(generator.is_legal_position(&ChessState::new_game()));
}

#[test]
fn positions_that_are_none_of_a_game() {
    let generator = MoveGenerator::new();
    let legal = |fen: &str| generator.is_legal_position(&ChessState::from_fen(fen).unwrap());
    assert!(legal("4k3/8/8/8/8/8/8/4K3 w - - 0 1"));
    // no king, two kings
    assert!(!legal("8/8/8/8/8/8/8/4K3 w - - 0 1"));
    assert!(!legal("4k3/8/8/8/8/8/8/3KK3 w - - 0 1"));
    // the side that has moved is in check
    assert!(!legal("4k3/8/8/8/8/8/8/4K2r b - - 0 1"));
    assert!(legal("4k3/8/8/8/8/8/8/4K2r w - - 0 1"));
    // a mark of the side to move, a mark on the wrong rank, two marks
    assert!(!legal("4k3/8/8/8/4P3/8/8/4K3 w - e3 0 1"));
    assert!(legal("4k3/8/8/8/4P3/8/8/4K3 b - e3 0 1"));
    assert!(!legal("4k3/8/8/8/4P3/8/8/4K3 b - e4 0 1"));
    assert!(!legal("4k3/8/8/8/4P3/8/8/4K3 b - e6 0 1"));
    let mut state = ChessState::from_fen("4k3/8/8/8/4P3/8/8/4K3 b - e3 0 1").unwrap();
    *state.bboard_mut(BBPiece::WEnPassant) |= 1 << 21;
    assert!(!generator.is_legal_position(&state));
    // rights without the king or the rook at home
    assert!(!legal("4k3/8/8/8/8/8/8/4K3 w K - 0 1"));
    assert!(!legal("4k2r/8/8/8/8/8/8/R3K3 w Qq - 0 1"));
    assert!(legal("4k2r/8/8/8/8/8/8/R3K3 w Qk - 0 1"));
    assert!(legal("r3k3/8/8/8/8/8/8/4K3 w q - 0 1"));
    assert!(!legal("r2k4/8/8/8/8/8/8/4K3 w q - 0 1"));
    // boards that do not fit together
    let state = ChessState::from_fen("4k3/8/8/8/8/8/4P3/4K3 w - - 0 1").unwrap();
    let mut twice = state;
    *twice.bboard_mut(BBPiece::WKnight) |= 1 << 12;
    assert!(!generator.is_legal_position(&twice));
    let mut both = state;
    *both.bboard_mut(BBPiece::BPawn) |= 1 << 12;
    *both.bboard_mut(BBPiece::BAll) |= 1 << 12;
    assert!(!generator.is_legal_position(&both));
    let mut missing = state;
    *missing.bboard_mut(BBPiece::WAll) ^= 1 << 12;
    assert!(!generator.is_legal_position(&missing));
    let mut rights = state;
    *rights.bboard_mut(BBPiece::WCastles) = 4;
    assert!(!generator.is_legal_position(&rights));
    assert!(generator.is_in_check(
        &ChessState::from_fen("4k3/8/8/8/8/8/8/4K2r b - - 0 1").unwrap(),
        Side::White
    ));
}
