use extreme_tetris::field::{clear_full_rows, Field};
use extreme_tetris::game::{Coins, GameState, BOMB_FPS, FALL_INTERVAL, SPAWN_ROW};
use extreme_tetris::piece::{kind_at, Figure, FigureType};

const NO_COINS: Coins = [[[false; 3]; 4]; 4];

fn empty_field() -> Field {
    [[0u8; 10]; 20]
}

fn filled_cells(field: &Field) -> Vec<(usize, usize, u8)> {
    let mut cells = Vec::new();
    for y in 0..20 {
        for x in 0..10 {
            if field[y][x] != 0 {
                cells.push((y, x, field[y][x]));
            }
        }
    }
    cells
}

/// Runs ticks until the falling piece locks, with a bound on the count.
fn tick_until_lock(g: &mut GameState) -> usize {
    for n in 1..2000 {
        if g.tick_with(3, NO_COINS) {
            return n;
        }
    }
    panic!("the piece never locked");
}

#[test]
fn spawn_masks_and_codes() {
    let o = Figure::new(FigureType::O);
    assert_eq!(o.shape, [[1, 1, 0, 0], [1, 1, 0, 0], [0, 0, 0, 0], [0, 0, 0, 0]]);
    let i = Figure::new(FigureType::I);
    assert_eq!(i.shape, [[0, 1, 0, 0], [0, 1, 0, 0], [0, 1, 0, 0], [0, 1, 0, 0]]);
    let b = Figure::new(FigureType::Bomb);
    assert_eq!(b.shape, [[0, 1, 0, 0], [0, 0, 0, 0], [0, 0, 0, 0], [0, 0, 0, 0]]);
    assert_eq!(FigureType::I.color_code(), 1);
    assert_eq!(FigureType::Z.color_code(), 7);
    assert_eq!(FigureType::Bomb.color_code(), 0);
    assert_eq!(kind_at(0), FigureType::I);
    assert_eq!(kind_at(7), FigureType::Bomb);
}

#[test]
fn first_column_and_left_shift() {
    let mut t = Figure::new(FigureType::T);
    assert!(!t.is_first_column_zero());
    let mut i = Figure::new(FigureType::I);
    assert!(i.is_first_column_zero());
    i.left_shift();
    assert_eq!(i.shape, [[1, 0, 0, 0], [1, 0, 0, 0], [1, 0, 0, 0], [1, 0, 0, 0]]);
    t.left_shift();
    assert_eq!(t.shape, [[1, 0, 0, 0], [1, 1, 0, 0], [0, 0, 0, 0], [0, 0, 0, 0]]);
}

#[test]
fn rotation_of_t_piece() {
    let mut g = GameState::with_figures(FigureType::T, FigureType::O);
    g.rotate_figure();
    // new[r][c] = old[2 - c][r]
    assert_eq!(g.current_figure.shape, [[0, 1, 0, 0], [0, 1, 1, 0], [0, 1, 0, 0], [0, 0, 0, 0]]);
}

#[test]
fn four_rotations_give_the_mask_back() {
    for kind in [FigureType::T, FigureType::L, FigureType::S, FigureType::I] {
        let mut g = GameState::with_figures(kind, FigureType::O);
        let start = g.current_figure.shape;
        for _ in 0..3 {
            g.rotate_figure();
            assert_ne!(g.current_figure.shape, start);
        }
        g.rotate_figure();
        assert_eq!(g.current_figure.shape, start);
    }
}

#[test]
fn rotation_blocked_by_filled_cell() {
    let mut field = empty_field();
    field[2][5] = 3;
    let mut g = GameState::with_field(field, FigureType::T, FigureType::O);
    let start = g.current_figure.shape;
    g.rotate_figure();
    assert_eq!(g.current_figure.shape, start);
}

#[test]
fn rotation_blocked_at_right_wall() {
    let mut g = GameState::with_figures(FigureType::I, FigureType::O);
    g.row = 7;
    g.rotate_figure();
    assert_eq!(g.current_figure.shape, Figure::new(FigureType::I).shape);
}

#[test]
fn collides_below_on_floor_and_on_cells() {
    let mut g = GameState::with_figures(FigureType::O, FigureType::O);
    assert!(!g.figure_collides());
    g.col = 18;
    assert!(g.figure_collides());
    g.col = 17;
    assert!(!g.figure_collides());
    let mut field = empty_field();
    field[5][5] = 2;
    let mut h = GameState::with_field(field, FigureType::O, FigureType::O);
    h.col = 3;
    assert!(h.figure_collides());
    h.col = 2;
    assert!(!h.figure_collides());
}

#[test]
fn side_moves_and_walls() {
    let mut g = GameState::with_figures(FigureType::O, FigureType::O);
    g.move_right();
    assert_eq!(g.row, 5);
    for _ in 0..10 {
        g.move_right();
    }
    assert_eq!(g.row, 8);
    assert!(g.collide_at_sides(1));
    g.move_left();
    assert_eq!(g.row, 7);
    let mut field = empty_field();
    field[1][3] = 1;
    let mut h = GameState::with_field(field, FigureType::O, FigureType::O);
    assert!(h.collide_at_sides(-1));
    h.move_left();
    assert_eq!(h.row, SPAWN_ROW);
}

#[test]
fn move_left_at_wall_shifts_mask() {
    let mut g = GameState::with_figures(FigureType::I, FigureType::O);
    g.row = 0;
    g.move_left();
    assert_eq!(g.row, 0);
    assert_eq!(g.current_figure.shape, [[1, 0, 0, 0], [1, 0, 0, 0], [1, 0, 0, 0], [1, 0, 0, 0]]);
    g.move_left();
    assert_eq!(g.current_figure.shape, [[1, 0, 0, 0], [1, 0, 0, 0], [1, 0, 0, 0], [1, 0, 0, 0]]);
}

#[test]
fn hard_drop_moves_one_step() {
    let mut g = GameState::with_figures(FigureType::O, FigureType::O);
    g.hard_drop();
    assert_eq!(g.col, 1);
    g.col = 18;
    g.hard_drop();
    assert_eq!(g.col, 18);
}

#[test]
fn clear_one_full_row_keeps_order() {
    let mut field = empty_field();
    field[19] = [1, 2, 3, 0, 0, 0, 0, 0, 0, 4];
    field[18] = [5; 10];
    field[17] = [0, 0, 0, 0, 6, 0, 0, 0, 0, 0];
    field[15] = [7, 7, 0, 0, 0, 0, 0, 0, 0, 0];
    let mut f = field;
    let cleared = clear_full_rows(&mut f);
    assert_eq!(cleared, 1);
    let mut expected = empty_field();
    expected[19] = field[19];
    expected[18] = field[17];
    expected[17] = field[15];
    assert_eq!(f, expected);
}

#[test]
fn clear_twice_changes_nothing_more() {
    let mut field = empty_field();
    field[19] = [1; 10];
    field[16] = [2; 10];
    field[12] = [0, 3, 0, 0, 0, 0, 0, 0, 0, 0];
    field[10] = [4, 4, 4, 4, 4, 4, 4, 4, 4, 0];
    let mut g = GameState::with_field(field, FigureType::O, FigureType::O);
    assert_eq!(g.clear_complete_rows(), 2);
    let once = g.field;
    assert_eq!(once[19], field[12]);
    assert_eq!(once[18], field[10]);
    assert_eq!(g.clear_complete_rows(), 0);
    assert_eq!(g.field, once);
}

#[test]
fn clear_empty_field() {
    let mut f = empty_field();
    assert_eq!(clear_full_rows(&mut f), 0);
    assert_eq!(f, empty_field());
}

#[test]
fn score_for_two_rows_at_level_three() {
    for prior in [0u32, 7, 1234, 99_999] {
        let mut g = GameState::with_figures(FigureType::O, FigureType::O);
        g.level = 3;
        g.score = prior;
        g.update_score(2);
        assert_eq!(g.score, prior + 480);
    }
    let mut g = GameState::with_figures(FigureType::O, FigureType::O);
    g.update_score(0);
    assert_eq!(g.score, 0);
    g.score = u32::MAX - 10;
    g.update_score(1);
    assert_eq!(g.score, u32::MAX);
}

#[test]
fn level_up_at_threshold() {
    let mut g = GameState::with_figures(FigureType::O, FigureType::O);
    g.score = 999;
    g.check_level_update();
    assert_eq!(g.level, 1);
    assert_eq!(g.current_level_fps, 30);
    g.score = 1000;
    g.check_level_update();
    assert_eq!(g.level, 2);
    assert_eq!(g.current_level_fps, 42);
    g.check_level_update();
    assert_eq!(g.level, 2);
    g.score = 8000;
    g.check_level_update();
    assert_eq!(g.level, 3);
    assert_eq!(g.current_level_fps, 58);
}

#[test]
fn tick_counts_down_then_falls() {
    let mut g = GameState::with_figures(FigureType::T, FigureType::O);
    for n in 0..FALL_INTERVAL {
        assert!(!g.tick());
        assert_eq!(g.frames_until_fall, FALL_INTERVAL - 1 - n);
        assert_eq!(g.col, 0);
    }
    assert!(!g.tick());
    assert_eq!(g.col, 1);
    assert_eq!(g.frames_until_fall, FALL_INTERVAL);
}

#[test]
fn o_piece_falls_and_locks_at_bottom() {
    let mut g = GameState::with_figures(FigureType::O, FigureType::J);
    assert_eq!((g.col, g.row), (0, 4));
    let mut locked = false;
    for _ in 0..2000 {
        if g.tick() {
            locked = true;
            break;
        }
    }
    assert!(locked);
    assert!(!g.game_over);
    assert_eq!(filled_cells(&g.field), vec![(18, 4, 4), (18, 5, 4), (19, 4, 4), (19, 5, 4)]);
    assert_eq!(g.current_figure.kind, FigureType::J);
    assert_eq!(g.current_figure.shape, Figure::new(FigureType::J).shape);
    assert_eq!((g.col, g.row), (0, SPAWN_ROW));
    assert_eq!(g.next_figure.shape, Figure::new(g.next_figure.kind).shape);
    assert_eq!(g.score, 0);
}

#[test]
fn full_row_cleared_on_lock_scores() {
    let mut field = empty_field();
    field[19] = [1, 1, 1, 1, 0, 0, 1, 1, 1, 1];
    field[18] = [2, 2, 2, 2, 0, 0, 2, 2, 2, 0];
    let mut g = GameState::with_field(field, FigureType::O, FigureType::T);
    tick_until_lock(&mut g);
    assert_eq!(g.score, 80);
    let mut expected = empty_field();
    expected[19] = [2, 2, 2, 2, 4, 4, 2, 2, 2, 0];
    assert_eq!(g.field, expected);
    assert_eq!(g.current_figure.kind, FigureType::T);
    assert_eq!(g.next_figure.kind, FigureType::O);
    assert_eq!(g.frames_until_fall, FALL_INTERVAL);
}

#[test]
fn game_over_when_locking_at_top() {
    let mut field = empty_field();
    for y in 2..20 {
        field[y] = [3, 3, 3, 3, 3, 3, 3, 3, 3, 0];
    }
    let mut g = GameState::with_field(field, FigureType::O, FigureType::T);
    let mut n = 0;
    while !g.tick() {
        n += 1;
        assert!(n < 100);
    }
    assert!(g.game_over);
    assert_eq!(g.col, 0);
    assert_eq!(g.field[0][4], 4);
    assert_eq!(g.field[1][5], 4);
    let frozen = g.field;
    for _ in 0..50 {
        assert!(!g.tick());
    }
    assert!(g.game_over);
    assert_eq!(g.field, frozen);
    assert_eq!(g.current_figure.kind, FigureType::O);
}

#[test]
fn bomb_clears_only_below_and_leaves_no_cell() {
    let mut field = empty_field();
    for y in 10..20 {
        field[y] = [6, 6, 6, 6, 6, 6, 6, 6, 6, 0];
    }
    let mut g = GameState::with_field(field, FigureType::Bomb, FigureType::O);
    assert_eq!(g.tick_rate(), BOMB_FPS);
    g.col = 9;
    assert!(g.figure_collides());
    let before = g.field;
    g.fix_figure_to_field();
    for y in 0..20 {
        for x in 0..10 {
            let in_blast = y == 10 && (4..=6).contains(&x);
            if !in_blast {
                assert_eq!(g.field[y][x], before[y][x]);
            } else {
                assert!(g.field[y][x] == 0 || g.field[y][x] == 6);
            }
        }
    }
    assert_eq!(g.field[9][5], 0);
}

#[test]
fn tick_rate_follows_level() {
    let g = GameState::with_figures(FigureType::L, FigureType::O);
    assert_eq!(g.tick_rate(), 30);
}

#[test]
fn new_game_is_fresh() {
    for _ in 0..20 {
        let g = GameState::new();
        assert!(!g.game_over);
        assert_eq!(g.score, 0);
        assert_eq!(g.level, 1);
        assert_eq!(g.current_figure.shape, Figure::new(g.current_figure.kind).shape);
        assert_eq!(g.next_figure.shape, Figure::new(g.next_figure.kind).shape);
        assert_eq!(filled_cells(&g.field), vec![]);
    }
}

#[test]
fn occupancy_is_bounds_checked() {
    let mut field = empty_field();
    field[19][9] = 5;
    assert_eq!(extreme_tetris::field::is_occupied(&field, 19, 9), Some(true));
    assert_eq!(extreme_tetris::field::is_occupied(&field, 0, 0), Some(false));
    assert_eq!(extreme_tetris::field::is_occupied(&field, 20, 0), None);
    assert_eq!(extreme_tetris::field::is_occupied(&field, 0, 10), None);
}

#[test]
fn bomb_coins_clear_exactly_their_cells() {
    let mut field = empty_field();
    field[10] = [6, 6, 6, 6, 6, 6, 6, 6, 6, 0];
    let mut g = GameState::with_field(field, FigureType::Bomb, FigureType::O);
    g.col = 9;
    let mut coins = NO_COINS;
    coins[0][1] = [true, false, true];
    // coins of empty mask cells do nothing
    coins[2][2] = [true, true, true];
    g.bomb_collision_with(coins);
    let mut expected = field;
    expected[10][4] = 0;
    expected[10][6] = 0;
    assert_eq!(g.field, expected);
}

#[test]
fn bomb_at_left_wall_skips_cells_off_the_field() {
    let mut field = empty_field();
    field[1] = [6, 6, 6, 6, 6, 6, 6, 6, 6, 0];
    let mut g = GameState::with_field(field, FigureType::Bomb, FigureType::O);
    g.current_figure.left_shift();
    g.row = 0;
    g.bomb_collision_with([[[true; 3]; 4]; 4]);
    let mut expected = field;
    expected[1][0] = 0;
    expected[1][1] = 0;
    assert_eq!(g.field, expected);
}

#[test]
fn bomb_lock_by_tick_is_exact() {
    let mut field = empty_field();
    for y in 10..20 {
        field[y] = [6, 6, 6, 6, 6, 6, 6, 6, 6, 0];
    }
    let mut g = GameState::with_field(field, FigureType::Bomb, FigureType::I);
    let mut coins = NO_COINS;
    coins[0][1] = [false, true, true];
    let mut locked = false;
    for _ in 0..2000 {
        if g.tick_with(7, coins) {
            locked = true;
            break;
        }
    }
    assert!(locked);
    let mut expected = field;
    expected[10][5] = 0;
    expected[10][6] = 0;
    assert_eq!(g.field, expected);
    assert_eq!(g.current_figure.kind, FigureType::I);
    assert_eq!(g.next_figure.kind, FigureType::Bomb);
    assert_eq!(g.score, 0);
}

#[test]
fn bomb_without_coins_leaves_field() {
    let mut field = empty_field();
    field[10] = [6, 6, 6, 6, 6, 6, 6, 6, 6, 0];
    let mut g = GameState::with_field(field, FigureType::Bomb, FigureType::O);
    g.col = 9;
    g.fix_figure_to_field_with(NO_COINS);
    assert_eq!(g.field, field);
}
