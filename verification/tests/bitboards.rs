use chess_engine::bboard::{
    add_bit, bb_coord, bb_coord_q, bb_get_q, bb_to_coord, has_bit, last_bit, pop_count,
    remove_last_bit, square_index,
};

#[test]
fn bboard_test_pop_count() {
    let test3 = 1u64 << 5 | 1 << 10 | 1 << 20;
    assert_eq!(pop_count(test3), 3);
}

#[test]
fn bboard_test_pop_count_side_bits() {
    let test64 = (1u64 << 63).wrapping_add(1);
    assert_eq!(pop_count(test64), 2);
}

#[test]
fn bboard_test_pop_count_all_bits() {
    let test64 = 0u64.wrapping_sub(1);
    assert_eq!(pop_count(test64), 64);
}

#[test]
fn bboard_test_pop_count_0() {
    assert_eq!(pop_count(0u64), 0);
}

#[test]
fn common_test_pop_count() {
    let test3 = 1u64 << 5 | 1 << 10 | 1 << 20;
    assert_eq!(test3.count_ones(), 3);
    assert_eq!(pop_count(test3), test3.count_ones());
}

#[test]
fn common_test_pop_count_side_bits() {
    let test64 = (1u64 << 63).wrapping_add(1);
    assert_eq!(test64.count_ones(), 2);
    assert_eq!(pop_count(test64), test64.count_ones());
}

#[test]
fn common_test_pop_count_all_bits() {
    let test64 = 0u64.wrapping_sub(1);
    assert_eq!(test64.count_ones(), 64);
    assert_eq!(pop_count(test64), test64.count_ones());
}

#[test]
fn common_test_pop_count_0() {
    assert_eq!(0u64.count_ones(), 0);
    assert_eq!(pop_count(0), 0);
}

#[test]
fn last_bit_isolates_the_lowest_square() {
    assert_eq!(last_bit(0b1011000), 0b1000);
    assert_eq!(last_bit(1u64 << 63), 1u64 << 63);
    assert_eq!(last_bit(u64::MAX), 1);
    assert_eq!(last_bit(0), 0);
}

#[test]
fn remove_last_bit_strips_the_lowest_square() {
    assert_eq!(remove_last_bit(0b1011000), 0b1010000);
    assert_eq!(remove_last_bit(1u64 << 63), 0);
    assert_eq!(remove_last_bit(u64::MAX), u64::MAX - 1);
}

#[test]
fn square_index_is_the_lowest_square() {
    for i in 0..64 {
        assert_eq!(square_index(1u64 << i), i);
        assert_eq!(square_index(u64::MAX << i), i);
    }
}

#[test]
fn coordinates_give_single_squares() {
    assert_eq!(bb_coord(0, 0), 1);
    assert_eq!(bb_coord(7, 0), 1 << 7);
    assert_eq!(bb_coord(4, 1), 1 << 12);
    assert_eq!(bb_coord(7, 7), 1 << 63);
    assert_eq!(bb_coord_q(4, 1), 1 << 12);
    assert_eq!(bb_coord_q(-1, 1), 0);
    assert_eq!(bb_coord_q(8, 1), 0);
    assert_eq!(bb_coord_q(1, -1), 0);
    assert_eq!(bb_coord_q(1, 8), 0);
}

#[test]
fn queries_off_the_board_are_false() {
    let board = u64::MAX;
    assert!(bb_get_q(board, 0, 0));
    assert!(bb_get_q(board, 7, 7));
    assert!(!bb_get_q(board, 8, 0));
    assert!(!bb_get_q(board, 0, -1));
    assert!(!bb_get_q(1 << 12, 4, 2));
    assert!(bb_get_q(1 << 12, 4, 1));
    assert!(has_bit(&(1 << 12), 4, 1));
    assert!(!has_bit(&(1 << 12), 1, 4));
    assert!(!has_bit(&u64::MAX, 8, 1));
}

#[test]
fn add_bit_sets_one_square() {
    let mut board = 0u64;
    add_bit(&mut board, 3, 2);
    assert_eq!(board, 1 << 19);
    add_bit(&mut board, 8, 2);
    add_bit(&mut board, 2, 8);
    assert_eq!(board, 1 << 19);
    add_bit(&mut board, 0, 0);
    assert_eq!(board, (1 << 19) | 1);
}

#[test]
fn square_names() {
    assert_eq!(bb_to_coord(1), "a1");
    assert_eq!(bb_to_coord(1 << 7), "h1");
    assert_eq!(bb_to_coord(1 << 28), "e4");
    assert_eq!(bb_to_coord(1 << 63), "h8");
    assert_eq!(bb_to_coord(0), "-");
    assert_eq!(bb_to_coord(3), "-");
}
