use chess_engine::engine::ChessEngine;
use chess_engine::evaluator::evaluate_position;
use chess_engine::game_setup::ChessMove;
use chess_engine::state::{ChessState, Side};

fn position(fen: &str) -> ChessState {
    ChessState::from_fen(fen).unwrap()
}

#[test]
fn depth_zero_is_the_evaluation() {
    let engine = ChessEngine::new();
    let mut state = position("r3k2r/p1ppqpb1/bn2pnp1/3PN3/1p2P3/2N2Q1p/PPPBBPPP/R3K2R w KQkq - 0 1");
    let value = evaluate_position(&state);
    assert_eq!(engine.min_max_search(0, 0, i32::MIN, i32::MAX, &mut state), value);
}

#[test]
fn white_mated() {
    let engine = ChessEngine::new();
    // fool's mate
    let mut state = position("rnb1kbnr/pppp1ppp/8/4p3/6Pq/5P2/PPPPP2P/RNBQKBNR w KQkq - 1 3");
    let before = state;
    assert!(engine.is_in_check(&state, Side::White));
    for depth in 1..4 {
        assert_eq!(engine.min_max_search(0, depth, i32::MIN, i32::MAX, &mut state), -100000);
        assert_eq!(engine.min_max_search(0, depth, -5, 5, &mut state), -100000);
    }
    assert_eq!(state, before);
    assert_eq!(engine.find_best_move(&mut state), None);
}

#[test]
fn black_mated() {
    let engine = ChessEngine::new();
    let mut state = position("R5k1/5ppp/8/8/8/8/8/4K3 b - - 0 1");
    assert!(engine.is_in_check(&state, Side::Black));
    assert!(!engine.is_in_check(&state, Side::White));
    assert_eq!(engine.min_max_search(0, 1, i32::MIN, i32::MAX, &mut state), 100000);
    assert_eq!(engine.min_max_search(0, 3, i32::MIN, i32::MAX, &mut state), 100000);
    assert_eq!(engine.find_best_move(&mut state), None);
}

#[test]
fn stalemate_is_worth_nothing() {
    let engine = ChessEngine::new();
    let mut state = position("7k/5Q2/6K1/8/8/8/8/8 b - - 0 1");
    assert!(!engine.is_in_check(&state, Side::Black));
    assert_ne!(evaluate_position(&state), 0);
    assert_eq!(engine.min_max_search(0, 1, i32::MIN, i32::MAX, &mut state), 0);
    assert_eq!(engine.min_max_search(0, 2, i32::MIN, i32::MAX, &mut state), 0);
    assert_eq!(engine.find_best_move(&mut state), None);
    let mut state = position("k7/8/1Q6/8/8/8/8/7K b - - 0 1");
    assert_eq!(engine.min_max_search(0, 3, -100, 100, &mut state), 0);
}

#[test]
fn one_ply_takes_the_best_evaluation() {
    let engine = ChessEngine::new();
    let mut state = position("4k3/8/8/3q4/4P3/8/8/4K3 w - - 0 1");
    let mut best = i32::MIN;
    let mut moves = Vec::new();
    engine.move_generator.generate_moves(&mut state, &mut moves);
    for m in moves.iter() {
        state.do_move(m);
        best = best.max(evaluate_position(&state));
        state.undo_move(m);
    }
    assert_eq!(engine.min_max_search(0, 1, i32::MIN, i32::MAX, &mut state), best);
    // the pawn takes the queen
    let mut after = state;
    after.do_move(&ChessMove::parse("e4d5", &state).unwrap());
    assert_eq!(best, evaluate_position(&after));
    // with a window that is closed at once only the first move is looked at
    let mut first = state;
    first.do_move(&moves[0]);
    let first_value = evaluate_position(&first);
    assert_eq!(engine.min_max_search(0, 1, 10, 5, &mut state), first_value.max(10));
    assert_eq!(engine.min_max_search(0, 1, 100000, 5, &mut state), 100000);
    let mut black = position("4k3/8/8/3q4/4P3/8/8/4K3 b - - 0 1");
    assert_eq!(engine.min_max_search(0, 1, 10, -100000, &mut black), -100000);
}

#[test]
fn mate_in_one_is_found() {
    let engine = ChessEngine::new();
    let mut state = position("6k1/5ppp/8/8/8/8/8/R3K3 w - - 0 1");
    let before = state;
    let m = engine.find_best_move(&mut state).unwrap();
    assert_eq!(state, before);
    assert_eq!(m.to_string(), "a1a8");
    let mut state = position("r3k3/8/8/8/8/8/5PPP/6K1 b - - 0 1");
    let m = engine.find_best_move(&mut state).unwrap();
    assert_eq!(m.to_string(), "a8a1");
}

#[test]
fn the_first_of_equal_moves_is_chosen() {
    let engine = ChessEngine::new();
    // both kings alone: every move is worth a king's bonus, and the first best stays
    let mut state = position("7k/8/8/8/8/8/8/K7 w - - 0 1");
    let mut moves = Vec::new();
    engine.move_generator.generate_moves(&mut state, &mut moves);
    let chosen = engine.find_best_move(&mut state).unwrap();
    let mut best = 0;
    let mut best_score = i32::MIN;
    for (i, m) in moves.iter().enumerate() {
        state.do_move(m);
        let score = engine.min_max_search(0, 4, i32::MIN, i32::MAX, &mut state);
        state.undo_move(m);
        if i == 0 || score > best_score {
            best_score = score;
            best = i;
        }
    }
    assert_eq!(chosen, moves[best]);
}
