use othello::bits::{count_bits, square_bit, square_index, test_bit};
use othello::board::{captured_mask, legal_moves, Board, Mode};
use othello::constants::{Color, Difficulty, STARTING_BLACK, STARTING_PLAYER, STARTING_WHITE};

const OPENING_MOVES: u64 = (1 << 19) | (1 << 26) | (1 << 37) | (1 << 44);

fn board(black: u64, white: u64, current_player: Color) -> Board {
    Board { black, white, current_player }
}

#[test]
fn opening_position_has_four_centre_discs() {
    let b = Board::new();
    assert_eq!(b.black, (1 << 28) | (1 << 35));
    assert_eq!(b.white, (1 << 27) | (1 << 36));
    assert_eq!(b.black, STARTING_BLACK);
    assert_eq!(b.white, STARTING_WHITE);
    assert_eq!(b.current_player, Color::Black);
    assert_eq!(STARTING_PLAYER, Color::Black);
    assert_eq!(b.black & b.white, 0);
}

#[test]
fn opening_moves_for_black() {
    let b = Board::new();
    assert_eq!(b.get_possible_moves(), OPENING_MOVES);
    assert_eq!(b.get_possible_moves_of_color(&Color::Black), OPENING_MOVES);
}

#[test]
fn opening_moves_for_white() {
    let b = Board::new();
    let expected: u64 = (1 << 20) | (1 << 29) | (1 << 34) | (1 << 43);
    assert_eq!(b.get_possible_moves_of_color(&Color::White), expected);
}

#[test]
fn moves_lie_on_empty_squares() {
    let mut b = Board::new();
    for _ in 0..12 {
        let moves = b.get_possible_moves();
        assert_eq!(moves & (b.black | b.white), 0);
        assert_eq!(moves & !(b.black | b.white), moves);
        if moves == 0 {
            break;
        }
        let first = moves & moves.wrapping_neg();
        assert!(b.place_move(&moves, first));
        assert_eq!(b.black & b.white, 0);
    }
}

#[test]
fn every_opening_move_flips_a_disc() {
    for i in [19u64, 26, 37, 44] {
        let mut b = Board::new();
        let moves = b.get_possible_moves();
        let white_before = b.get_pieces(Color::White);
        assert!(b.place_move(&moves, 1 << i));
        assert_eq!(b.get_pieces(Color::White), white_before - 1);
        assert_eq!(b.get_pieces(Color::Black), 4);
        assert_ne!(captured_mask(STARTING_BLACK, STARTING_WHITE, i), 0);
    }
}

#[test]
fn opening_move_at_row_two_column_three() {
    let mut b = Board::new();
    let moves = b.get_possible_moves();
    let square = Board::get_pos(2, 3).unwrap();
    assert_eq!(square, 1 << 19);
    assert!(b.place_move(&moves, square));
    assert_eq!(b.black, (1 << 19) | (1 << 27) | (1 << 28) | (1 << 35));
    assert_eq!(b.white, 1 << 36);
    assert_eq!(b.current_player, Color::White);
    assert_eq!(b.get_pieces(Color::Black), 4);
    assert_eq!(b.get_pieces(Color::White), 1);
}

#[test]
fn zero_move_is_refused() {
    let mut b = Board::new();
    let moves = b.get_possible_moves();
    assert!(!b.place_move(&moves, 0));
    assert_eq!(b.black, STARTING_BLACK);
    assert_eq!(b.white, STARTING_WHITE);
    assert_eq!(b.current_player, Color::Black);
}

#[test]
fn move_outside_the_mask_is_refused() {
    let mut b = Board::new();
    let moves = b.get_possible_moves();
    assert!(!b.place_move(&moves, 1 << 20));
    assert!(!b.place_move(&moves, 1 << 0));
    assert_eq!(b.black, STARTING_BLACK);
    assert_eq!(b.white, STARTING_WHITE);
    assert_eq!(b.current_player, Color::Black);
}

#[test]
fn move_of_two_squares_is_refused() {
    let mut b = Board::new();
    let moves = b.get_possible_moves();
    assert!(!b.place_move(&moves, (1 << 19) | (1 << 26)));
    assert_eq!(b.black, STARTING_BLACK);
    assert_eq!(b.white, STARTING_WHITE);
    assert_eq!(b.current_player, Color::Black);
}

#[test]
fn a_run_of_two_is_flipped_whole() {
    let mut b = board(1, 0b110, Color::Black);
    let moves = b.get_possible_moves();
    assert_eq!(moves, 1 << 3);
    assert!(b.place_move(&moves, 1 << 3));
    assert_eq!(b.black, 0b1111);
    assert_eq!(b.white, 0);
    assert_eq!(b.current_player, Color::White);
}

#[test]
fn a_run_that_ends_on_an_empty_square_is_not_flipped() {
    // Black plays square 3 and brackets square 2 with its disc on 1; the
    // white disc on 11, below, has nothing behind it and stays.
    let mut b = board(1 << 1, (1 << 2) | (1 << 11), Color::Black);
    let moves = b.get_possible_moves();
    assert_eq!(moves, 1 << 3);
    assert_eq!(captured_mask(b.black, b.white, 3), 1 << 2);
    assert!(b.place_move(&moves, 1 << 3));
    assert_eq!(b.black, (1 << 1) | (1 << 2) | (1 << 3));
    assert_eq!(b.white, 1 << 11);
}

#[test]
fn flips_in_several_directions_at_once() {
    // White plays square 27 between black discs to the east and to the south.
    let white = (1u64 << 29) | (1 << 43);
    let black = (1u64 << 28) | (1 << 35);
    let mut b = board(black, white, Color::White);
    let moves = b.get_possible_moves();
    assert!(moves & (1 << 27) != 0);
    assert_eq!(captured_mask(white, black, 27), black);
    assert!(b.place_move(&moves, 1 << 27));
    assert_eq!(b.white, white | black | (1 << 27));
    assert_eq!(b.black, 0);
    assert_eq!(b.current_player, Color::Black);
}

#[test]
fn no_move_wraps_from_column_h_to_column_a() {
    // Square 7 ends the first row and square 8 starts the second.
    let b = board(1 << 7, 1 << 8, Color::Black);
    assert_eq!(b.get_possible_moves(), 0);
    assert_eq!(b.get_possible_moves_of_color(&Color::White), 0);
    assert_eq!(captured_mask(1 << 7, 1 << 8, 9), 0);
    let c = board(1 << 7, 1 << 0, Color::Black);
    assert_eq!(c.get_possible_moves(), 0);
    assert_eq!(c.get_possible_moves_of_color(&Color::White), 0);
    let d = board(1 << 15, (1 << 16) | (1 << 8), Color::Black);
    assert_eq!(d.get_possible_moves(), 0);
}

#[test]
fn no_diagonal_wraps_round_the_edge() {
    // From square 15 (row 1, column h) a step of nine squares lands on
    // square 24 (row 3, column a), which is no diagonal neighbour.
    let b = board(1 << 6, 1 << 15, Color::Black);
    assert_eq!(b.get_possible_moves(), 0);
    let c = board(1 << 8, 1 << 15, Color::Black);
    assert_eq!(c.get_possible_moves(), 0);
}

#[test]
fn moves_along_an_edge_row() {
    let b = board(1, 0b10, Color::Black);
    assert_eq!(b.get_possible_moves(), 0b100);
    assert_eq!(b.get_possible_moves_of_color(&Color::White), 0);
    assert_eq!(legal_moves(1, 0b10), 0b100);
    assert_eq!(legal_moves(0b10, 1), 0);
}

#[test]
fn piece_counts() {
    let b = Board::new();
    assert_eq!(b.get_pieces(Color::Black), 2);
    assert_eq!(b.get_pieces(Color::White), 2);
    let c = board(1, u64::MAX - 1, Color::Black);
    assert_eq!(c.get_pieces(Color::Black), 1);
    assert_eq!(c.get_pieces(Color::White), 63);
    let d = board(u64::MAX, 0, Color::Black);
    assert_eq!(d.get_pieces(Color::Black), 64);
    assert_eq!(d.get_pieces(Color::White), 0);
}

#[test]
fn bitboards_come_mover_first() {
    let b = Board::new();
    assert_eq!(b.get_bitboards(), (STARTING_BLACK, STARTING_WHITE));
    let c = board(STARTING_BLACK, STARTING_WHITE, Color::White);
    assert_eq!(c.get_bitboards(), (STARTING_WHITE, STARTING_BLACK));
}

#[test]
fn positions_from_rows_and_columns() {
    assert_eq!(Board::get_pos(0, 0), Ok(1));
    assert_eq!(Board::get_pos(2, 3), Ok(1 << 19));
    assert_eq!(Board::get_pos(7, 7), Ok(1 << 63));
    assert_eq!(Board::get_pos(8, 0), Err(u64::MAX));
    assert_eq!(Board::get_pos(0, 8), Err(u64::MAX));
    assert_eq!(Board::get_pos(usize::MAX, usize::MAX), Err(u64::MAX));
}

#[test]
fn moves_as_text() {
    assert_eq!(Board::convert_to_cords(1), "a 1");
    assert_eq!(Board::convert_to_cords(1 << 19), "d 3");
    assert_eq!(Board::convert_to_cords(1 << 63), "h 8");
    assert_eq!(Board::convert_to_cords((1 << 19) | (1 << 40)), "d 3");
    assert_eq!(Board::convert_to_cords(0), "a 9");
}

#[test]
fn a_full_board_is_over() {
    let b = board(u64::MAX - 1, 1, Color::Black);
    assert!(Board::check_game_over(&b));
}

#[test]
fn a_side_without_discs_is_over() {
    assert!(Board::check_game_over(&board(0, 0b111, Color::Black)));
    assert!(Board::check_game_over(&board(0b111, 0, Color::White)));
}

#[test]
fn no_move_for_either_side_is_over() {
    let b = board(1, 1 << 63, Color::Black);
    assert_eq!(b.get_possible_moves_of_color(&Color::Black), 0);
    assert_eq!(b.get_possible_moves_of_color(&Color::White), 0);
    assert!(Board::check_game_over(&b));
}

#[test]
fn one_blocked_side_is_not_over() {
    let b = board(1, 0b10, Color::White);
    assert_eq!(b.get_possible_moves(), 0);
    assert!(!Board::check_game_over(&b));
    assert!(!Board::check_game_over(&Board::new()));
}

#[test]
fn a_lone_disc_on_the_first_square_counts() {
    let b = board(1, 0b10, Color::Black);
    assert_eq!(b.get_pieces(Color::Black), 1);
    assert!(!Board::check_game_over(&b));
}

#[test]
fn bit_helpers() {
    assert_eq!(square_bit(0), 1);
    assert_eq!(square_bit(63), 1 << 63);
    assert!(test_bit(0b100, 2));
    assert!(!test_bit(0b100, 3));
    assert_eq!(count_bits(0), 0);
    assert_eq!(count_bits(u64::MAX), 64);
    assert_eq!(count_bits(0b1011), 3);
    assert_eq!(square_index(0), None);
    assert_eq!(square_index(1 << 40), Some(40));
    assert_eq!(square_index(0b11), None);
}

#[test]
fn colours_oppose() {
    assert_eq!(Color::Black.opponent(), Color::White);
    assert_eq!(Color::White.opponent(), Color::Black);
}

#[test]
fn names_of_sides_and_levels() {
    assert_eq!(Color::from_name("white"), Color::White);
    assert_eq!(Color::from_name("black"), Color::Black);
    assert_eq!(Color::from_name(""), Color::Black);
    assert_eq!(Color::from_name("White"), Color::Black);
    assert_eq!(Difficulty::from_name("easy"), Difficulty::Easy);
    assert_eq!(Difficulty::from_name("normal"), Difficulty::Normal);
    assert_eq!(Difficulty::from_name("hard"), Difficulty::Hard);
    assert_eq!(Difficulty::from_name("harder"), Difficulty::Normal);
}

#[test]
fn who_moves_next() {
    let b = Board::new();
    assert_eq!(b.mode_to_move(Color::Black), Mode::Player);
    assert_eq!(b.mode_to_move(Color::White), Mode::AI);
}

#[test]
fn columns_by_letter() {
    assert_eq!(Board::column_index('a'), Some(0));
    assert_eq!(Board::column_index('h'), Some(7));
    assert_eq!(Board::column_index('A'), Some(0));
    assert_eq!(Board::column_index('D'), Some(3));
    assert_eq!(Board::column_index('i'), None);
    assert_eq!(Board::column_index('1'), None);
    assert_eq!(Board::column_index('`'), None);
}

#[test]
fn moves_as_typed() {
    assert_eq!(Board::parse_move('d', 3), Ok(1 << 19));
    assert_eq!(Board::parse_move('D', 3), Ok(1 << 19));
    assert_eq!(Board::parse_move('a', 1), Ok(1));
    assert_eq!(Board::parse_move('h', 8), Ok(1 << 63));
    assert_eq!(Board::parse_move('h', 9), Err(u64::MAX));
    assert_eq!(Board::parse_move('a', 0), Err(u64::MAX));
    assert_eq!(Board::parse_move('i', 1), Err(u64::MAX));
    assert_eq!(Board::parse_move('3', 3), Err(u64::MAX));
}

#[test]
fn text_of_a_parsed_move_reads_back() {
    for (letter, col) in [('a', 0u32), ('c', 2), ('h', 7)] {
        for row in 1..=8usize {
            let square = Board::parse_move(letter, row).unwrap();
            assert_eq!(square, 1u64 << ((row as u32 - 1) * 8 + col));
            let text = Board::convert_to_cords(square);
            assert_eq!(text, format!("{} {}", letter, row));
        }
    }
}

#[test]
fn symbols_of_the_squares() {
    let b = Board::new();
    let moves = b.get_possible_moves();
    assert_eq!(b.square_symbol(&moves, 27), 'W');
    assert_eq!(b.square_symbol(&moves, 28), 'B');
    assert_eq!(b.square_symbol(&moves, 19), 'X');
    assert_eq!(b.square_symbol(&moves, 0), '-');
    assert_eq!(b.square_symbol(&u64::MAX, 27), 'W');
    assert_eq!(b.square_symbol(&u64::MAX, 63), 'X');
}

#[test]
fn passing_keeps_the_discs_and_changes_the_mover() {
    let mut b = board(1, 0b10, Color::White);
    assert_eq!(b.get_possible_moves(), 0);
    b.pass_turn();
    assert_eq!(b.black, 1);
    assert_eq!(b.white, 0b10);
    assert_eq!(b.current_player, Color::Black);
    assert_eq!(b.get_possible_moves(), 0b100);
}
