use awale::board::{Board, Color};

#[test]
fn test_board_init() {
    let b = Board::new();
    for i in 0..16 {
        assert_eq!(2, b.red_holes[i]);
        assert_eq!(2, b.red_holes[i]);
    }
    assert_eq!(0, b.players_attics[0]);
    assert_eq!(0, b.players_attics[1]);
}

#[test]
fn test_copy() {
    let mut b1 = Board::new();
    b1.play_move(1, 2, Color::Red);
    b1.players_attics[0] = 10;

    let mut b2 = *(&mut b1);
    b2.play_move(0, 3, Color::Red);

    assert_eq!(0, b1.red_holes[2]);
    assert_eq!(0, b2.red_holes[2]);
    assert_eq!(3, b1.red_holes[3]);
    assert_eq!(0, b2.red_holes[3]);

    assert_eq!(b1.players_attics[0], b2.players_attics[0]);
    assert_eq!(b1.players_attics[1], b2.players_attics[1]);
}

#[test]
fn test_distribute_red_seeds() {
    let mut b = Board::new();
    let result_five = b.distribute_red_seeds(5);
    let result_fourteen = b.distribute_red_seeds(14);

    assert_eq!(0, b.red_holes[5]);
    assert_eq!(0, b.red_holes[14]);

    assert_eq!(7, result_five);
    assert_eq!(0, result_fourteen);

    assert_eq!(3, b.red_holes[6]);
    assert_eq!(3, b.red_holes[7]);
    assert_eq!(3, b.red_holes[15]);
    assert_eq!(3, b.red_holes[0]);
    for i in 0..16 {
        if i != 5 && i != 14 && i != 6 && i != 7 && i != 15 && i != 0 {
            assert_eq!(2, b.red_holes[i]);
        }
    }

    let result_zero = b.distribute_red_seeds(0);
    assert_eq!(3, b.red_holes[1]);
    assert_eq!(3, b.red_holes[2]);
    assert_eq!(3, b.red_holes[3]);
    assert_eq!(0, b.red_holes[0]);
    assert_eq!(3, result_zero);
}

#[test]
fn test_distribute_blue_seeds() {
    let mut b = Board::new();
    let result_five = b.distribute_blue_seeds(5);
    let result_fourteen = b.distribute_blue_seeds(14);

    assert_eq!(0, b.blue_holes[5]);
    assert_eq!(0, b.blue_holes[14]);

    assert_eq!(8, result_five);
    assert_eq!(1, result_fourteen);

    assert_eq!(3, b.blue_holes[6]);
    assert_eq!(3, b.blue_holes[8]);
    assert_eq!(3, b.blue_holes[15]);
    assert_eq!(3, b.blue_holes[1]);
    for i in 0..16 {
        if i != 5 && i != 14 && i != 6 && i != 8 && i != 15 && i != 1 {
            assert_eq!(2, b.blue_holes[i]);
        }
    }

    let result_zero = b.distribute_blue_seeds(1);
    assert_eq!(3, b.blue_holes[2]);
    assert_eq!(3, b.blue_holes[4]);
    assert_eq!(4, b.blue_holes[6]);
    assert_eq!(0, b.blue_holes[1]);
    assert_eq!(6, result_zero);

    assert_eq!(2, b.blue_holes[3]);
    assert_eq!(0, b.blue_holes[5]);
    assert_eq!(2, b.blue_holes[7]);
}

#[test]
fn test_pick_seed() {
    let mut b = Board::new();

    b.distribute_blue_seeds(0);
    assert_eq!(0, b.blue_holes[0]);
    assert_eq!(2, b.red_holes[0]);
    assert_eq!(2, b.red_holes[1]);
    assert_eq!(3, b.blue_holes[1]);
    assert_eq!(2, b.red_holes[2]);
    assert_eq!(2, b.blue_holes[2]);
    assert_eq!(2, b.red_holes[3]);
    assert_eq!(3, b.blue_holes[3]);
    for i in 4..16 {
        assert_eq!(2, b.blue_holes[i]);
        assert_eq!(2, b.red_holes[i]);
    }

    let final_hole = b.distribute_blue_seeds(13);
    assert_eq!(0, b.blue_holes[13]);
    assert_eq!(2, b.red_holes[13]);
    assert_eq!(3, b.blue_holes[14]);
    assert_eq!(2, b.red_holes[14]);
    assert_eq!(2, b.blue_holes[15]);
    assert_eq!(2, b.red_holes[15]);
    assert_eq!(1, b.blue_holes[0]);
    assert_eq!(2, b.red_holes[0]);
    assert_eq!(0, final_hole);
    let pick_return = b.pick_seed(0, 1);
    assert_eq!(0, b.blue_holes[0]);
    assert_eq!(0, b.red_holes[0]);
    assert_eq!(3, pick_return);
    assert_eq!(3, b.players_attics[1]);

    b = Board::new();
    b.blue_holes[0] = 0;
    b.blue_holes[1] = 0;
    b.blue_holes[2] = 0;
    b.blue_holes[3] = 0;
    b.red_holes[14] = 5;
    b.blue_holes[15] = 0;
    b.distribute_red_seeds(14);

    assert_eq!(3, b.red_holes[15]);
    for i in 0..4 {
        assert_eq!(3, b.red_holes[i]);
    }

    let pick_return = b.pick_seed(3, 0);
    assert_eq!(17, pick_return);

    for i in 0..4 {
        assert_eq!(0, b.red_holes[i]);
        assert_eq!(0, b.blue_holes[i]);
    }
    for i in 14..16 {
        assert_eq!(0, b.red_holes[i]);
        assert_eq!(0, b.blue_holes[i]);
    }

    assert_eq!(0, b.players_attics[1]);
    assert_eq!(17, b.players_attics[0]);

    for i in 5..14 {
        assert_eq!(2, b.red_holes[i]);
        assert_eq!(2, b.blue_holes[i]);
    }
}

#[test]
fn test_play_move() {
    let mut b = Board::new();
    b.play_move(0, 0, Color::Red);
    assert_eq!(0, b.red_holes[0]);
    assert_eq!(2, b.blue_holes[0]);

    for i in 1..3 {
        assert_eq!(3, b.red_holes[i]);
        assert_eq!(2, b.blue_holes[i]);
    }

    b.play_move(1, 13, Color::Blue);
    assert_eq!(0, b.blue_holes[13]);
    assert_eq!(2, b.red_holes[13]);
    assert_eq!(3, b.blue_holes[14]);
    assert_eq!(3, b.blue_holes[14]);
    assert_eq!(2, b.blue_holes[15]);
    assert_eq!(2, b.red_holes[15]);
    assert_eq!(0, b.blue_holes[0]);
    assert_eq!(0, b.red_holes[0]);

    assert_eq!(3, b.players_attics[1]);
}

#[test]
fn test_is_this_move_possible() {
    let mut b = Board::new();

    assert_eq!(true, b.is_this_move_possible(0, 0, Color::Red));
    assert_eq!(true, b.is_this_move_possible(0, 0, Color::Blue));
    assert_eq!(false, b.is_this_move_possible(1, 0, Color::Red));
    assert_eq!(false, b.is_this_move_possible(1, 0, Color::Blue));

    b.play_move(0, 0, Color::Red);

    assert_eq!(false, b.is_this_move_possible(0, 0, Color::Red));
    assert_eq!(true, b.is_this_move_possible(0, 0, Color::Blue));
    assert_eq!(false, b.is_this_move_possible(1, 0, Color::Red));
    assert_eq!(false, b.is_this_move_possible(1, 0, Color::Blue));

    assert_eq!(true, b.is_this_move_possible(1, 1, Color::Red));
    assert_eq!(true, b.is_this_move_possible(1, 1, Color::Blue));

    b.play_move(1, 1, Color::Blue);

    assert_eq!(true, b.is_this_move_possible(1, 1, Color::Red));
    assert_eq!(false, b.is_this_move_possible(1, 1, Color::Blue));
    assert_eq!(false, b.is_this_move_possible(0, 1, Color::Red));
    assert_eq!(false, b.is_this_move_possible(0, 1, Color::Blue));
}

#[test]
fn test_check_famine() {
    let mut b = Board::new();

    for i in 0..16 {
        if i % 2 == 0 {
            b.blue_holes[i] = 0;
            b.red_holes[i] = 0;
        }
    }

    assert_eq!(true, b.check_famine(0));
    assert_eq!(false, b.check_famine(1));
    b.red_holes[14] = 1;
    assert_eq!(false, b.check_famine(0));
}

#[test]
fn test_check_win() {
    let mut b = Board::new();
    for i in 0..16 {
        if i % 2 == 0 {
            b.blue_holes[i] = 0;
            b.red_holes[i] = 0;
        }
    }
    assert_eq!(1, b.check_win(true));
    assert_eq!(3, b.check_win(false));

    b = Board::new();
    b.players_attics[0] = 33;
    assert_eq!(0, b.check_win(true));

    b = Board::new();
    for i in 0..14 {
        b.red_holes[i] = 0;
        b.blue_holes[i] = 0;
    }
    b.red_holes[15] -= 1;
    assert_eq!(2, b.check_win(true));

    b.red_holes[15] = 0;
    b.blue_holes[15] = 0;
    assert_eq!(0, b.check_win(true));
}

#[test]
fn test_final_position() {
    let mut b = Board::new();

    for i in 0..16 {
        if i % 2 == 0 {
            b.blue_holes[i] = 0;
            b.red_holes[i] = 0;
        }
    }
    assert_eq!(true, b.is_final_position());

    b = Board::new();
    b.players_attics[0] = 33;
    assert_eq!(true, b.is_final_position());

    b = Board::new();
    for i in 0..14 {
        b.red_holes[i] = 0;
        b.blue_holes[i] = 0;
    }
    assert_eq!(false, b.is_final_position());
    b.red_holes[15] -= 1;
    assert_eq!(true, b.is_final_position());

    b = Board::new();
    assert_eq!(false, b.is_final_position());
}

fn total_seeds(b: &Board) -> i32 {
    let mut total = b.players_attics[0] + b.players_attics[1];
    for i in 0..16 {
        total += b.red_holes[i] + b.blue_holes[i];
    }
    total
}

#[test]
fn test_conservation_over_a_game() {
    let mut b = Board::new();
    assert_eq!(64, total_seeds(&b));
    let script = [
        (0usize, 0usize, Color::Red),
        (1, 13, Color::Blue),
        (0, 2, Color::Blue),
        (1, 5, Color::Red),
        (0, 8, Color::Red),
        (1, 11, Color::Blue),
        (0, 14, Color::Blue),
        (1, 3, Color::Red),
    ];
    for &(player, hole, color) in script.iter() {
        if b.is_this_move_possible(player, hole, color) {
            b.play_move(player, hole, color);
        }
        assert_eq!(64, total_seeds(&b));
    }
}

#[test]
fn test_legality_gating_edges() {
    let b = Board::new();
    // Out-of-range hole, wrong parity, and an emptied color all fail closed.
    assert_eq!(false, b.is_this_move_possible(0, 16, Color::Red));
    assert_eq!(false, b.is_this_move_possible(0, 100, Color::Blue));
    assert_eq!(false, b.is_this_move_possible(1, 2, Color::Red));
    assert_eq!(false, b.is_this_move_possible(0, 3, Color::Blue));
    let mut c = Board::new();
    c.red_holes[4] = 0;
    assert_eq!(false, c.is_this_move_possible(0, 4, Color::Red));
    assert_eq!(true, c.is_this_move_possible(0, 4, Color::Blue));
}

#[test]
fn test_win_priority_conflicts() {
    // Player 0's attic majority is reported even when the endgame
    // comparison would favor player 1.
    let mut b = Board::new();
    for i in 2..16 {
        b.red_holes[i] = 0;
        b.blue_holes[i] = 0;
    }
    b.red_holes[0] = 1;
    b.blue_holes[0] = 0;
    b.red_holes[1] = 1;
    b.blue_holes[1] = 0;
    b.players_attics[0] = 33;
    b.players_attics[1] = 40;
    assert_eq!(0, b.check_win(true));

    // Player 0's famine hands the win to player 1 even though player 0
    // also holds an attic majority: famine wins outrank attic wins.
    let mut c = Board::new();
    for i in 0..16 {
        if i % 2 == 0 {
            c.red_holes[i] = 0;
            c.blue_holes[i] = 0;
        }
    }
    c.players_attics[0] = 33;
    assert_eq!(1, c.check_win(true));

    // The same famine without the attic majority decides alike.
    c.players_attics[0] = 32;
    assert_eq!(1, c.check_win(true));

    // A famine ignored (with_famine false) leaves the game undecided.
    assert_eq!(3, c.check_win(false));
}

#[test]
fn test_pick_seed_full_circle() {
    // Every hole holds a combined count of 2: the backward walk goes all
    // the way around once and captures the whole board.
    let mut b = Board::new();
    for i in 0..16 {
        b.red_holes[i] = 1;
        b.blue_holes[i] = 1;
    }
    let picked = b.pick_seed(5, 1);
    assert_eq!(32, picked);
    assert_eq!(32, b.players_attics[1]);
    for i in 0..16 {
        assert_eq!(0, b.red_holes[i]);
        assert_eq!(0, b.blue_holes[i]);
    }
}

#[test]
fn test_famine_both_sides() {
    let mut b = Board::new();
    for i in 0..16 {
        if i % 2 == 1 {
            b.blue_holes[i] = 0;
            b.red_holes[i] = 0;
        }
    }
    assert_eq!(false, b.check_famine(0));
    assert_eq!(true, b.check_famine(1));
}

#[test]
fn test_color_from_integer() {
    assert!(matches!(Color::from_integer(0), Color::Red));
    assert!(matches!(Color::from_integer(1), Color::Blue));
    assert!(matches!(Color::from_integer(7), Color::Red));
}

#[test]
fn test_distribute_blue_wraps_around() {
    // Ten blue seeds cycle through the eight odd-offset targets and serve
    // the first two of them twice.
    let mut b = Board::new();
    b.blue_holes[0] = 10;
    let last = b.distribute_blue_seeds(0);
    assert_eq!(3, last);
    assert_eq!(0, b.blue_holes[0]);
    assert_eq!(4, b.blue_holes[1]);
    assert_eq!(4, b.blue_holes[3]);
    for i in [5, 7, 9, 11, 13, 15] {
        assert_eq!(3, b.blue_holes[i]);
    }
    for i in [2, 4, 6, 8, 10, 12, 14] {
        assert_eq!(2, b.blue_holes[i]);
    }
}

#[test]
fn test_distribute_red_fifteen_serves_every_other_hole() {
    // Fifteen seeds is the largest red pile that can be sown: every hole
    // but the source gets exactly one seed and the walk stops just short
    // of revisiting the source.
    let mut b = Board::new();
    b.red_holes[0] = 15;
    let last = b.distribute_red_seeds(0);
    assert_eq!(15, last);
    assert_eq!(0, b.red_holes[0]);
    for i in 1..16 {
        assert_eq!(3, b.red_holes[i]);
    }
}
