use othello::ai_logic::minimax::{
    calculate_piece_importance, deadline_in, deadline_passed, evaluate, get_minimax_move,
    is_stable, is_stable_square, minimax, move_budget, pick_best,
};
use othello::ai_logic::random_ai::{get_random_move, move_at, move_positions};
use othello::ai_logic::{AI_Logic_Handler, AI_Type};
use othello::board::Board;
use othello::constants::{Color, Difficulty};

fn after_first_move() -> Board {
    let mut b = Board::new();
    let moves = b.get_possible_moves();
    assert!(b.place_move(&moves, 1 << 19));
    b
}

#[test]
fn material_weight_by_depth() {
    assert_eq!(calculate_piece_importance(0), 5);
    assert_eq!(calculate_piece_importance(1), 5);
    assert_eq!(calculate_piece_importance(4), 5);
    assert_eq!(calculate_piece_importance(5), 10);
    assert_eq!(calculate_piece_importance(24), 10);
    assert_eq!(calculate_piece_importance(25), 20);
    assert_eq!(calculate_piece_importance(44), 20);
    assert_eq!(calculate_piece_importance(45), 40);
    assert_eq!(calculate_piece_importance(64), 40);
    assert_eq!(calculate_piece_importance(83), 40);
    assert_eq!(calculate_piece_importance(84), 80);
    assert_eq!(calculate_piece_importance(-36), 1);
    assert_eq!(calculate_piece_importance(-56), 0);
    assert_eq!(calculate_piece_importance(i32::MIN), 0);
    assert_eq!(calculate_piece_importance(564), 1342177280);
    assert_eq!(calculate_piece_importance(584), i32::MAX);
    assert_eq!(calculate_piece_importance(i32::MAX), i32::MAX);
}

#[test]
fn stable_squares() {
    assert!(is_stable_square(&1));
    assert!(is_stable_square(&(1 << 63)));
    assert!(is_stable_square(&(1 << 3)));
    assert!(is_stable_square(&(1 << 9)));
    assert!(is_stable_square(&(1 << 10)));
    assert!(!is_stable_square(&(1 << 27)));
    assert!(!is_stable_square(&(1 << 16)));
    assert!(!is_stable_square(&0));
}

#[test]
fn stability_of_a_disc() {
    let own = 1u64 << 27;
    assert!(is_stable(&own, &0, &own));
    assert!(!is_stable(&own, &(1 << 35), &own));
    assert!(!is_stable(&own, &(1 << 19), &own));
    assert!(!is_stable(&own, &(1 << 28), &own));
    assert!(!is_stable(&own, &(1 << 36), &own));
    assert!(is_stable(&own, &(1 << 45), &own));
    assert!(is_stable(&1, &0b10, &1));
}

#[test]
fn opening_position_scores_zero() {
    let b = Board::new();
    assert_eq!(evaluate(&b, true, 0), 0);
    assert_eq!(evaluate(&b, false, 0), 0);
}

#[test]
fn score_after_the_first_move() {
    let b = after_first_move();
    assert_eq!(evaluate(&b, true, 1), -32);
    assert_eq!(evaluate(&b, false, 1), 32);
    assert_eq!(evaluate(&b, true, 5), -47);
    assert_eq!(evaluate(&b, false, 45), 137);
}

#[test]
fn corner_and_edge_bonus() {
    // Black holds a corner and an edge square, White one inner disc;
    // both sides can still move.
    let b = Board { black: 1 | (1 << 5), white: 1 << 13, current_player: Color::Black };
    assert!(!Board::check_game_over(&b));
    let black_moves = b.get_possible_moves_of_color(&Color::Black).count_ones() as i32;
    let white_moves = b.get_possible_moves_of_color(&Color::White).count_ones() as i32;
    let material = (2 - 1) * 5;
    let mobility = (black_moves - white_moves) * 10;
    let placement = (30 + 25) + (0 + 5) - (-3);
    let stability = (2 - 1) * 20;
    assert_eq!(evaluate(&b, true, 0), material + mobility + placement + stability);
}

#[test]
fn finished_game_scores_by_disc_count() {
    let won = Board { black: u64::MAX - 1, white: 1, current_player: Color::Black };
    assert_eq!(evaluate(&won, true, 0), i32::MAX);
    assert_eq!(evaluate(&won, false, 0), i32::MIN);
    assert_eq!(evaluate(&won, true, 60), i32::MAX);
    let wiped = Board { black: 0b111, white: 0, current_player: Color::White };
    assert_eq!(evaluate(&wiped, true, 3), i32::MIN);
    assert_eq!(evaluate(&wiped, false, 3), i32::MAX);
}

#[test]
fn a_draw_scores_as_a_loss() {
    let draw = Board {
        black: 0x0000_0000_ffff_ffff,
        white: 0xffff_ffff_0000_0000,
        current_player: Color::Black,
    };
    assert!(Board::check_game_over(&draw));
    assert_eq!(evaluate(&draw, true, 0), i32::MIN);
    assert_eq!(evaluate(&draw, false, 0), i32::MIN);
}

#[test]
fn search_of_a_finished_game_is_its_score() {
    let won = Board { black: u64::MAX - 1, white: 1, current_player: Color::Black };
    let end = deadline_in(5);
    assert_eq!(minimax(won, 0, true, i32::MIN, i32::MAX, &end), i32::MAX);
    assert_eq!(minimax(won, 0, false, i32::MIN, i32::MAX, &end), i32::MIN);
    assert_eq!(minimax(won, 0, true, i32::MIN, i32::MAX, &None), i32::MAX);
}

#[test]
fn search_past_the_deadline_is_the_score() {
    let b = after_first_move();
    let end = deadline_in(0);
    assert!(deadline_passed(&end));
    assert_eq!(minimax(b, 1, true, i32::MIN, i32::MAX, &end), -32);
    assert_eq!(minimax(b, 1, false, i32::MIN, i32::MAX, &end), 32);
}

#[test]
fn a_missing_deadline_never_comes() {
    assert!(!deadline_passed(&None));
    assert!(!deadline_passed(&deadline_in(3600)));
}

#[test]
fn search_to_the_end_of_a_short_game() {
    // Black to move can only play square 2, which takes White's last
    // disc: the game is then over and Black, who is not to move in that
    // position, has won it.
    let b = Board { black: 1, white: 0b10, current_player: Color::Black };
    assert_eq!(minimax(b, 0, true, i32::MIN, i32::MAX, &None), i32::MAX);
    assert_eq!(minimax(b, 0, false, i32::MIN, i32::MAX, &None), i32::MIN);
}

#[test]
fn a_layer_without_moves_returns_its_start_value() {
    // White is to move and has none, but the game is not over.
    let b = Board { black: 1, white: 0b10, current_player: Color::White };
    assert_eq!(minimax(b, 0, true, i32::MIN, i32::MAX, &None), i32::MIN);
    assert_eq!(minimax(b, 0, false, i32::MIN, i32::MAX, &None), i32::MAX);
}

#[test]
fn best_score_wins_and_ties_keep_the_first() {
    let moves: u64 = (1 << 19) | (1 << 26) | (1 << 37) | (1 << 44);
    let mut scores = vec![i32::MIN; 64];
    scores[19] = 3;
    scores[26] = 7;
    scores[37] = 7;
    scores[44] = -1;
    assert_eq!(pick_best(moves, &scores), 1 << 26);
    scores[20] = 100;
    assert_eq!(pick_best(moves, &scores), 1 << 26);
    scores[44] = 8;
    assert_eq!(pick_best(moves, &scores), 1 << 44);
    assert_eq!(pick_best(0, &scores), 0);
}

#[test]
fn moves_that_all_score_lowest_keep_the_first() {
    let moves: u64 = (1 << 19) | (1 << 26);
    let scores = vec![i32::MIN; 64];
    assert_eq!(pick_best(moves, &scores), 1 << 19);
    assert_eq!(pick_best(1 << 63, &scores), 1 << 63);
}

#[test]
fn a_first_move_of_lowest_score_gives_way_to_a_better_one() {
    let moves: u64 = (1 << 19) | (1 << 26) | (1 << 37);
    let mut scores = vec![i32::MIN; 64];
    scores[26] = i32::MIN + 1;
    assert_eq!(pick_best(moves, &scores), 1 << 26);
    scores[37] = i32::MIN + 1;
    assert_eq!(pick_best(moves, &scores), 1 << 26);
    scores[19] = i32::MAX;
    assert_eq!(pick_best(moves, &scores), 1 << 19);
}

#[test]
fn search_without_time_picks_by_static_score() {
    let b = Board::new();
    let moves = b.get_possible_moves();
    let mut scores = vec![i32::MIN; 64];
    for i in 0..64 {
        if moves & (1u64 << i) != 0 {
            let mut child = b;
            assert!(child.place_move(&moves, 1u64 << i));
            scores[i] = evaluate(&child, true, 1);
        }
    }
    let expected = pick_best(moves, &scores);
    assert_ne!(expected, 0);
    assert_eq!(get_minimax_move(b, 0), expected);
    assert_eq!(scores[19], -32);
}

#[test]
fn search_is_repeatable() {
    let b = Board::new();
    let first = get_minimax_move(b, 0);
    let second = get_minimax_move(b, 0);
    assert_eq!(first, second);
    assert_eq!(first.count_ones(), 1);
    assert!(first & b.get_possible_moves() != 0);
}

#[test]
fn search_without_a_legal_move_gives_none() {
    let b = Board { black: 1, white: 0b10, current_player: Color::White };
    assert_eq!(get_minimax_move(b, 1), 0);
}

#[test]
fn a_last_move_is_kept_whatever_its_score() {
    // The one move ends the game in the mover's favour, which the search
    // scores, for the side then to move, as lowest: it is chosen all the same.
    let b = Board { black: 1, white: 0b10, current_player: Color::Black };
    let moves = b.get_possible_moves();
    assert_eq!(moves, 0b100);
    let chosen = get_minimax_move(b, 1);
    assert_eq!(chosen, 0b100);
    let mut after = b;
    assert!(after.place_move(&moves, chosen));
    let normal = AI_Logic_Handler::new(Color::Black, Difficulty::Normal);
    assert_eq!(normal.get_ai_move(&moves, b), 0b100);
}

#[test]
fn search_without_time_on_an_edge_position() {
    // Black can only play square 8; White can still answer on square 5.
    let b = Board { black: 0x440, white: 0x280, current_player: Color::Black };
    let moves = b.get_possible_moves();
    assert_eq!(moves, 0x100);
    assert_eq!(get_minimax_move(b, 0), 0x100);
    let mut after = b;
    assert!(after.place_move(&moves, 0x100));
    assert_eq!(after.black, 0x740);
    assert_eq!(after.white, 0x80);
    assert!(!Board::check_game_over(&after));
    assert!(after.get_possible_moves() & (1 << 5) != 0);
}

#[test]
fn search_always_picks_a_legal_square_when_there_is_one() {
    let mut b = Board::new();
    for _ in 0..10 {
        let moves = b.get_possible_moves();
        if moves == 0 {
            break;
        }
        let chosen = get_minimax_move(b, 0);
        assert_eq!(chosen.count_ones(), 1);
        assert_eq!(chosen & moves, chosen);
        assert!(b.place_move(&moves, chosen));
    }
}

#[test]
fn search_with_a_budget_of_no_seconds_is_the_score() {
    let b = after_first_move();
    let end = deadline_in(0);
    for depth in [0, 1, 7, 45] {
        assert_eq!(minimax(b, depth, true, -1, 1, &end), evaluate(&b, true, depth));
        assert_eq!(minimax(b, depth, false, 5, -5, &end), evaluate(&b, false, depth));
    }
}

#[test]
fn positions_of_the_set_squares() {
    assert_eq!(move_positions(0), Vec::<usize>::new());
    assert_eq!(move_positions(0b1011), vec![0, 1, 3]);
    assert_eq!(move_positions(1 << 63), vec![63]);
    assert_eq!(move_positions(u64::MAX).len(), 64);
    assert_eq!(move_at(&vec![0, 1, 3], 2), 1 << 3);
    assert_eq!(move_at(&vec![63], 0), 1 << 63);
}

#[test]
fn random_move_of_a_single_square_is_that_square() {
    for i in 0..64 {
        for _ in 0..8 {
            assert_eq!(get_random_move(1u64 << i), 1u64 << i);
        }
    }
}

#[test]
fn random_move_is_one_of_the_mask() {
    let moves: u64 = (1 << 19) | (1 << 26) | (1 << 37) | (1 << 44);
    for _ in 0..200 {
        let m = get_random_move(moves);
        assert_eq!(m.count_ones(), 1);
        assert_eq!(m & moves, m);
    }
}

#[test]
fn random_move_of_an_empty_mask_is_none() {
    assert_eq!(get_random_move(0), 0);
}

#[test]
fn difficulty_selects_the_player() {
    assert_eq!(AI_Logic_Handler::new(Color::White, Difficulty::Easy).ai, AI_Type::Random);
    assert_eq!(AI_Logic_Handler::new(Color::White, Difficulty::Normal).ai, AI_Type::Minimax);
    assert_eq!(AI_Logic_Handler::new(Color::Black, Difficulty::Hard).ai, AI_Type::MCTS);
    assert_eq!(AI_Logic_Handler::new(Color::Black, Difficulty::Unset).ai, AI_Type::Minimax);
    assert_eq!(AI_Logic_Handler::new(Color::Black, Difficulty::Easy).color, Color::Black);
    assert_eq!(AI_Logic_Handler::new(Color::White, Difficulty::Easy).color, Color::White);
}

#[test]
fn handler_moves() {
    let b = Board::new();
    let moves = b.get_possible_moves();
    let easy = AI_Logic_Handler::new(Color::Black, Difficulty::Easy);
    let m = easy.get_ai_move(&moves, b);
    assert_eq!(m.count_ones(), 1);
    assert_eq!(m & moves, m);
    assert_eq!(easy.get_ai_move(&(1 << 26), b), 1 << 26);
    let hard = AI_Logic_Handler::new(Color::Black, Difficulty::Hard);
    assert_eq!(hard.get_ai_move(&moves, b), 0);
}

#[test]
fn handler_search_on_a_blocked_side() {
    let b = Board { black: 1, white: 0b10, current_player: Color::White };
    let normal = AI_Logic_Handler::new(Color::White, Difficulty::Normal);
    assert_eq!(normal.get_ai_move(&0, b), 0);
}

#[test]
fn time_is_shared_between_the_moves() {
    assert_eq!(move_budget(30, 4), 7);
    assert_eq!(move_budget(30, 1), 30);
    assert_eq!(move_budget(3, 4), 0);
    assert_eq!(move_budget(u64::MAX, 64), u64::MAX / 64);
}

#[test]
fn search_without_a_deadline_is_repeatable() {
    // Five empty squares are left: the search runs to the end of every line.
    let black: u64 = 0x00ff_ff00_ff00_ff00 | 0b0000_0111;
    let white: u64 = !black & !0b1111_1000;
    let b = Board { black, white, current_player: Color::Black };
    assert_eq!(b.black & b.white, 0);
    let first = minimax(b, 0, true, i32::MIN, i32::MAX, &None);
    let second = minimax(b, 0, true, i32::MIN, i32::MAX, &None);
    assert_eq!(first, second);
    let narrow = minimax(b, 0, false, -5, 5, &None);
    assert_eq!(narrow, minimax(b, 0, false, -5, 5, &None));
}

#[test]
fn a_deadline_holds_its_budget() {
    let five = deadline_in(5).unwrap();
    assert_eq!(five.seconds, 5);
    assert!(!five.spent_after(0));
    assert!(!five.spent_after(4));
    assert!(five.spent_after(5));
    assert!(five.spent_after(u64::MAX));
    let none = deadline_in(0).unwrap();
    assert_eq!(none.seconds, 0);
    assert!(none.spent_after(0));
    assert!(deadline_passed(&Some(none)));
    assert_eq!(deadline_in(u64::MAX).unwrap().seconds, u64::MAX);
    assert!(!deadline_passed(&deadline_in(u64::MAX)));
}

#[test]
fn stability_masks_at_the_row_ends() {
    // Square 23 ends row 2 and square 24 starts row 3: the masks reach
    // from each to the other.
    let last = 1u64 << 23;
    let first = 1u64 << 24;
    assert!(!is_stable_square(&last));
    assert!(!is_stable_square(&first));
    assert!(!is_stable(&last, &first, &last));
    assert!(!is_stable(&first, &last, &first));
    // The true neighbours above and below are reached too.
    assert!(!is_stable(&last, &(1 << 31), &last));
    assert!(!is_stable(&last, &(1 << 15), &last));
    assert!(!is_stable(&last, &(1 << 22), &last));
    assert!(!is_stable(&last, &(1 << 30), &last));
    assert!(!is_stable(&last, &(1 << 14), &last));
    // No diagonal mask crosses the row end.
    assert!(is_stable(&last, &(1 << 32), &last));
    assert!(is_stable(&last, &(1 << 16), &last));
    assert!(is_stable(&first, &(1 << 15), &first));
    assert!(is_stable(&first, &(1 << 31), &first));
}
