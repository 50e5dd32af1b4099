use awale::board::{Board, Color};
use awale::engine::Engine;
use awale::minmax::{
    decide_fixed_depth, evaluate_root_move, evaluation, initial_depth, minmax_alphabeta,
    next_depth, partition_moves, root_slots, select_best_slot,
};

/// A full-width minimax with no pruning and no move ordering, used as the
/// oracle the alpha-beta search must agree with.
fn minimax_plain(
    board: &Board,
    max_player: usize,
    player: usize,
    is_max: bool,
    depth: i32,
    max_depth: i32,
) -> i32 {
    if depth == max_depth || board.is_final_position() {
        return evaluation(board, max_player, depth);
    }
    let mut value = if is_max { -10_000_000 } else { 10_000_000 };
    for color in 0..2usize {
        for hole in 0..16usize {
            let c = Color::from_integer(color);
            if board.is_this_move_possible(player, hole, c) {
                let mut nb = *board;
                nb.play_move(player, hole, c);
                let v =
                    minimax_plain(&nb, max_player, (player + 1) % 2, !is_max, depth + 1, max_depth);
                if is_max {
                    if v > value {
                        value = v;
                    }
                } else {
                    if v < value {
                        value = v;
                    }
                }
            }
        }
    }
    value
}

fn alphabeta(board: &Board, max_player: usize, player: usize, is_max: bool, max_depth: i32) -> i32 {
    let mut cpt = 0;
    let mut cpt_cut = 0;
    minmax_alphabeta(
        board,
        max_player,
        player,
        is_max,
        0,
        max_depth,
        -10_000_000,
        10_000_000,
        &mut cpt,
        &mut cpt_cut,
    )
}

#[test]
fn test_evaluation_initial_board() {
    let b = Board::new();
    assert_eq!(48, evaluation(&b, 0, 0));
    assert_eq!(48, evaluation(&b, 1, 0));
}

#[test]
fn test_evaluation_terminal_scores() {
    let mut b = Board::new();
    b.players_attics[0] = 33;
    assert_eq!(10_000_000 - 3, evaluation(&b, 0, 3));
    assert_eq!(-10_000_000 + 3, evaluation(&b, 1, 3));

    let mut d = Board::new();
    for i in 0..16 {
        d.red_holes[i] = 0;
        d.blue_holes[i] = 0;
    }
    d.red_holes[0] = 1;
    d.red_holes[1] = 1;
    assert_eq!(0, evaluation(&d, 0, 5));
    assert_eq!(0, evaluation(&d, 1, 5));
}

#[test]
fn test_alphabeta_matches_minimax() {
    let b = Board::new();
    for depth in 1..4 {
        assert_eq!(
            minimax_plain(&b, 0, 0, true, 0, depth),
            alphabeta(&b, 0, 0, true, depth)
        );
    }
    assert_eq!(
        minimax_plain(&b, 1, 1, true, 0, 3),
        alphabeta(&b, 1, 1, true, 3)
    );
    assert_eq!(
        minimax_plain(&b, 0, 1, false, 0, 3),
        alphabeta(&b, 0, 1, false, 3)
    );
}

#[test]
fn test_alphabeta_matches_minimax_sparse_board() {
    let mut b = Board::new();
    for i in 0..16 {
        b.red_holes[i] = 0;
        b.blue_holes[i] = if i % 3 == 0 { 2 } else { 0 };
    }
    b.red_holes[2] = 1;
    b.red_holes[5] = 3;
    for depth in 1..5 {
        assert_eq!(
            minimax_plain(&b, 0, 0, true, 0, depth),
            alphabeta(&b, 0, 0, true, depth)
        );
        assert_eq!(
            minimax_plain(&b, 1, 0, false, 0, depth),
            alphabeta(&b, 1, 0, false, depth)
        );
    }
}

#[test]
fn test_alphabeta_depth_zero_is_static_evaluation() {
    let b = Board::new();
    assert_eq!(evaluation(&b, 0, 0), alphabeta(&b, 0, 0, true, 0));
}

#[test]
fn test_evaluate_root_move_depth_zero() {
    let b = Board::new();
    let mut cpt = 0;
    let mut cpt_cut = 0;
    let value = evaluate_root_move(&b, 0, 0, 0, 0, &mut cpt, &mut cpt_cut);
    assert_eq!(47, value);
    assert!(cpt >= 1);
}

#[test]
fn test_decide_returns_a_legal_move() {
    let b = Board::new();
    let mut cpt = 0;
    let mut cpt_cut = 0;
    let (color, hole) = decide_fixed_depth(&b, 0, 2, &mut cpt, &mut cpt_cut);
    assert!(b.is_this_move_possible(0, hole, color));
    let (color, hole) = decide_fixed_depth(&b, 1, 2, &mut cpt, &mut cpt_cut);
    assert!(b.is_this_move_possible(1, hole, color));
}

#[test]
fn test_decide_forced_move() {
    let mut b = Board::new();
    for i in 0..16 {
        if i % 2 == 0 {
            b.red_holes[i] = 0;
            b.blue_holes[i] = 0;
        }
    }
    b.red_holes[4] = 1;
    for depth in [0, 1, 3] {
        let mut cpt = 0;
        let mut cpt_cut = 0;
        let (color, hole) = decide_fixed_depth(&b, 0, depth, &mut cpt, &mut cpt_cut);
        assert!(matches!(color, Color::Red));
        assert_eq!(4, hole);
    }
}

#[test]
fn test_select_best_slot_ties_and_order() {
    let values = [0i32; 32];
    let (color, hole) = select_best_slot(&values);
    assert!(matches!(color, Color::Red));
    assert_eq!(0, hole);

    let mut values = [i32::MIN; 32];
    values[5] = 10;
    values[20] = 10;
    values[21] = 7;
    let (color, hole) = select_best_slot(&values);
    assert!(matches!(color, Color::Red));
    assert_eq!(5, hole);

    let mut values = [i32::MIN; 32];
    values[3] = -4;
    values[19] = 2;
    let (color, hole) = select_best_slot(&values);
    assert!(matches!(color, Color::Blue));
    assert_eq!(3, hole);
}

#[test]
fn test_root_slots_initial_board() {
    let b = Board::new();
    let (values, moves) = root_slots(&b, 0);
    assert_eq!(16, moves.len());
    for slot in 0..32 {
        if slot % 2 == 0 {
            assert_eq!(0, values[slot]);
        } else {
            assert_eq!(i32::MIN, values[slot]);
        }
    }
    for (k, &(color, hole)) in moves.iter().enumerate() {
        assert_eq!(k / 8, color);
        assert_eq!(2 * (k % 8), hole);
    }
    assert_eq!((0, 0), moves[0]);
    assert_eq!((0, 14), moves[7]);
    assert_eq!((1, 0), moves[8]);
    assert_eq!((1, 14), moves[15]);
}

#[test]
fn test_initial_depth_schedule() {
    assert_eq!(9, initial_depth(13));
    assert_eq!(9, initial_depth(32));
    assert_eq!(10, initial_depth(12));
    assert_eq!(10, initial_depth(2));
    assert_eq!(0, initial_depth(1));
    assert_eq!(0, initial_depth(0));
}

#[test]
fn test_next_depth_schedule() {
    assert_eq!(10, next_depth(9, false));
    assert_eq!(11, next_depth(9, true));
}

#[test]
fn test_partition_moves_round_robin() {
    let moves = vec![(0usize, 0usize), (0, 2), (0, 4), (0, 6), (1, 0), (1, 2)];
    let lanes = partition_moves(&moves);
    assert_eq!(vec![(0, 0), (1, 0)], lanes[0]);
    assert_eq!(vec![(0, 2), (1, 2)], lanes[1]);
    assert_eq!(vec![(0, 4)], lanes[2]);
    assert_eq!(vec![(0, 6)], lanes[3]);
}

#[test]
fn test_engine_state() {
    let e = Engine::new(true);
    assert_eq!(0, e.actual_player);
    assert_eq!(1, e.ai_player);
    assert_eq!(2, e.game_board.red_holes[9]);

    let mut e = Engine::new(false);
    assert_eq!(0, e.ai_player);
    e.update_actual_player();
    assert_eq!(1, e.actual_player);
    e.update_actual_player();
    assert_eq!(0, e.actual_player);
}

#[test]
fn test_decide_matches_table_argmax() {
    // The decision must return the first slot holding the strictly
    // greatest searched value, in (color, hole) scan order.
    let b = Board::new();
    let mut table = [i32::MIN; 32];
    for color in 0..2usize {
        for hole in 0..16usize {
            let c = Color::from_integer(color);
            if b.is_this_move_possible(0, hole, c) {
                let mut cpt = 0;
                let mut cpt_cut = 0;
                table[color * 16 + hole] =
                    evaluate_root_move(&b, 0, color, hole, 1, &mut cpt, &mut cpt_cut);
            }
        }
    }
    let mut best = 0;
    for slot in 1..32 {
        if table[slot] > table[best] {
            best = slot;
        }
    }
    let mut cpt = 0;
    let mut cpt_cut = 0;
    let (color, hole) = decide_fixed_depth(&b, 0, 1, &mut cpt, &mut cpt_cut);
    assert_eq!(best / 16, if matches!(color, Color::Blue) { 1 } else { 0 });
    assert_eq!(best % 16, hole);
}
