use tetris::block::Block;
use tetris::board::{is_in_board, vec_add, Board};
use tetris::mino::Mino;
use tetris::moves::{
    get_offset, get_rot, is_bottom, move_down, move_left, move_right, rotate_left_with_kick,
    rotate_right_with_kick, wallkick_offset,
};
use tetris::now::{origin_loc, Now};

fn count_filled(b: &Board) -> usize {
    let mut n = 0;
    for y in 0..20 {
        for x in 0..10 {
            if b.grid[y][x] == '#' {
                n += 1;
            }
        }
    }
    n
}

#[test]
fn in_board_edges() {
    assert!(is_in_board(&(0, 0)));
    assert!(is_in_board(&(19, 9)));
    assert!(!is_in_board(&(20, 0)));
    assert!(!is_in_board(&(0, 10)));
    assert!(!is_in_board(&(-1, 5)));
    assert!(!is_in_board(&(5, -1)));
}

#[test]
fn vec_add_adds_componentwise() {
    assert_eq!(vec_add(&(1, -2), &(3, 4)), (4, 2));
}

#[test]
fn new_piece_at_spawn() {
    let n = Now::init_with(Mino::L);
    assert_eq!(n.kind, Mino::L);
    assert_eq!(n.loc, (1, 4));
    assert_eq!(origin_loc(), (1, 4));
    assert_eq!(n.block.shape(), Mino::L.shape());
}

#[test]
fn empty_board_and_is_empty() {
    let mut b = Board::new();
    assert_eq!(count_filled(&b), 0);
    b.grid[3][4] = '#';
    assert!(!b.is_empty(&(3, 4)));
    assert!(b.is_empty(&(3, 5)));
    assert!(!b.is_empty(&(20, 5)));
    assert!(!b.is_empty(&(-1, 5)));
}

#[test]
fn spawned_piece_fits_on_empty_board() {
    let b = Board::new();
    for m in [Mino::O, Mino::I, Mino::Z, Mino::S, Mino::L, Mino::T, Mino::J] {
        assert!(b.is_possible(&Now::init_with(m)));
    }
}

#[test]
fn piece_off_the_board_is_not_possible() {
    let b = Board::new();
    let mut n = Now::init_with(Mino::I);
    n.loc = (1, 0);
    assert!(!b.is_possible(&n));
    n.loc = (20, 4);
    assert!(!b.is_possible(&n));
}

#[test]
fn draw_with_draws_piece_and_keeps_board() {
    let mut b = Board::new();
    b.grid[19][0] = '#';
    let n = Now::init_with(Mino::T);
    let picture = b.draw_with(&n);
    assert_eq!(picture[0][3], '#');
    assert_eq!(picture[0][4], '#');
    assert_eq!(picture[0][5], '#');
    assert_eq!(picture[1][4], '#');
    assert_eq!(picture[1][3], ' ');
    assert_eq!(picture[19][0], '#');
    assert_eq!(count_filled(&b), 1);
}

#[test]
fn draw_with_skips_cells_off_the_board() {
    let b = Board::new();
    let mut n = Now::init_with(Mino::I);
    n.loc = (5, 0);
    let picture = b.draw_with(&n);
    assert_eq!(picture[5][0], '#');
    assert_eq!(picture[5][1], '#');
    assert_eq!(picture[5][2], '#');
    let mut count = 0;
    for y in 0..20 {
        for x in 0..10 {
            if picture[y][x] == '#' {
                count += 1;
            }
        }
    }
    assert_eq!(count, 3);
}

#[test]
fn fix_gives_the_drawn_picture_and_blocks_the_piece() {
    let mut b = Board::new();
    let n = Now::init_with(Mino::S);
    let picture = b.draw_with(&n);
    b.fix_with(&n);
    assert_eq!(b.grid, picture);
    assert_eq!(count_filled(&b), 4);
    assert!(!b.is_possible(&n));
}

#[test]
fn clear_line_removes_full_rows_and_drops_the_rest() {
    let mut b = Board::new();
    b.grid[19] = ['#'; 10];
    b.grid[18][0] = '#';
    b.grid[17] = ['#'; 10];
    b.grid[16][9] = '#';
    let cleared = b.clear_line();
    assert_eq!(cleared, 2);
    assert_eq!(b.grid[19][0], '#');
    assert_eq!(b.grid[18][9], '#');
    assert_eq!(count_filled(&b), 2);
    for y in 0..18 {
        assert_eq!(b.grid[y], [' '; 10]);
    }
}

#[test]
fn clear_twice_removes_nothing_the_second_time() {
    let mut b = Board::new();
    b.grid[10] = ['#'; 10];
    b.grid[11][3] = '#';
    assert_eq!(b.clear_line(), 1);
    let after_first = b.grid;
    assert_eq!(b.clear_line(), 0);
    assert_eq!(b.grid, after_first);
}

#[test]
fn clear_line_on_a_full_board_empties_it() {
    let mut b = Board::new();
    b.grid = [['#'; 10]; 20];
    assert_eq!(b.clear_line(), 20);
    assert_eq!(count_filled(&b), 0);
}

#[test]
fn hard_drop_lands_o_on_the_floor() {
    let mut b = Board::new();
    let mut n = Now::init_with(Mino::O);
    b.hard_drop(&mut n);
    assert_eq!(n.loc, (19, 4));
    assert_eq!(b.grid[18][3], '#');
    assert_eq!(b.grid[18][4], '#');
    assert_eq!(b.grid[19][3], '#');
    assert_eq!(b.grid[19][4], '#');
    assert_eq!(count_filled(&b), 4);
}

#[test]
fn hard_drop_lands_on_a_stack() {
    let mut b = Board::new();
    b.grid[15][4] = '#';
    let mut n = Now::init_with(Mino::I);
    b.hard_drop(&mut n);
    assert_eq!(n.loc, (14, 4));
    assert_eq!(b.grid[14][3], '#');
    assert_eq!(b.grid[14][6], '#');
}

#[test]
fn is_bottom_and_move_down() {
    let b = Board::new();
    let mut n = Now::init_with(Mino::O);
    n.loc = (18, 4);
    assert!(!is_bottom(&n, &b));
    assert!(move_down(&mut n, &b));
    assert_eq!(n.loc, (19, 4));
    assert!(is_bottom(&n, &b));
    assert!(!move_down(&mut n, &b));
    assert_eq!(n.loc, (19, 4));
}

#[test]
fn moves_stop_at_the_walls() {
    let b = Board::new();
    let mut n = Now::init_with(Mino::O);
    for _ in 0..10 {
        move_left(&mut n, &b);
    }
    assert_eq!(n.loc, (1, 1));
    for _ in 0..20 {
        move_right(&mut n, &b);
    }
    assert_eq!(n.loc, (1, 9));
}

#[test]
fn right_then_left_returns() {
    let b = Board::new();
    let mut n = Now::init_with(Mino::J);
    move_right(&mut n, &b);
    assert_eq!(n.loc, (1, 5));
    move_left(&mut n, &b);
    assert_eq!(n.loc, (1, 4));
}

#[test]
fn moves_blocked_by_fixed_cells() {
    let mut b = Board::new();
    b.grid[1][6] = '#';
    let mut n = Now::init_with(Mino::O);
    move_right(&mut n, &b);
    assert_eq!(n.loc, (1, 5));
    move_right(&mut n, &b);
    assert_eq!(n.loc, (1, 5));
}

#[test]
fn rot_index_follows_the_turning_cell() {
    let mut n = Now::init_with(Mino::T);
    assert_eq!(get_rot(&n), 0);
    n.block.rotate_right();
    assert_eq!(get_rot(&n), 1);
    n.block.rotate_right();
    assert_eq!(get_rot(&n), 2);
    n.block.rotate_right();
    assert_eq!(get_rot(&n), 3);
}

#[test]
fn offset_tables() {
    assert_eq!(get_offset(0, 1), [(0, 0), (0, -2), (0, 1), (1, -2), (-2, 1)]);
    assert_eq!(get_offset(1, 1), [(0, 0), (0, -1), (0, 2), (2, -1), (-1, 2)]);
    assert_eq!(get_offset(2, 1), [(0, 0), (0, 2), (0, -1), (-1, 2), (2, -1)]);
    assert_eq!(get_offset(3, 1), [(0, 0), (0, 1), (0, -2), (-2, 1), (1, -2)]);
    assert_eq!(get_offset(4, 1), [(0, 0); 5]);
    assert_eq!(get_offset(0, -1), [(0, 0), (0, -1), (0, 2), (2, -1), (-1, 2)]);
    assert_eq!(get_offset(3, -1), [(0, 0), (0, -2), (0, 1), (1, -2), (-2, 1)]);
    assert_eq!(get_offset(2, -1), [(0, 0), (0, 1), (0, -2), (-2, 1), (1, -2)]);
    assert_eq!(get_offset(1, -1), [(0, 0), (0, 2), (0, -1), (-1, 2), (2, -1)]);
    assert_eq!(get_offset(7, -1), [(0, 0); 5]);
    assert_eq!(wallkick_offset(), [(0, 0), (0, -1), (0, 1), (-1, 0), (1, 0)]);
}

#[test]
fn rotate_in_open_space_stays_put() {
    let b = Board::new();
    let mut n = Now::init_with(Mino::T);
    rotate_right_with_kick(&mut n, &b);
    assert_eq!(n.loc, (1, 4));
    assert_eq!(n.block.origin(), (1, 2));
    rotate_left_with_kick(&mut n, &b);
    assert_eq!(n.loc, (1, 4));
    assert_eq!(n.block.origin(), (1, 1));
    assert_eq!(n.block.shape(), Mino::T.shape());
}

#[test]
fn i_piece_kicks_off_the_left_wall() {
    let b = Board::new();
    let mut block = Block::new(Mino::I);
    block.rotate_right();
    let mut n = Now { kind: Mino::I, block, loc: (5, 0) };
    assert!(b.is_possible(&n));
    rotate_right_with_kick(&mut n, &b);
    assert_eq!(n.loc, (5, 2));
    assert_eq!(n.block.origin(), (2, 2));
    assert!(b.is_possible(&n));
}

#[test]
fn t_piece_kicks_off_the_right_wall() {
    let b = Board::new();
    let mut block = Block::new(Mino::T);
    block.rotate_right();
    // a T turned anticlockwise, flat against the right wall
    let mut n = Now { kind: Mino::T, block, loc: (5, 9) };
    n.block.rotate_left();
    n.block.rotate_left();
    assert!(b.is_possible(&n));
    rotate_right_with_kick(&mut n, &b);
    assert_eq!(n.loc, (5, 8));
    assert!(b.is_possible(&n));
}

#[test]
fn turn_that_fits_nowhere_leaves_the_piece() {
    let mut b = Board::new();
    b.grid = [['#'; 10]; 20];
    for x in 3..7 {
        b.grid[1][x] = ' ';
    }
    let mut n = Now::init_with(Mino::I);
    assert!(b.is_possible(&n));
    let before = (n.loc, n.block.origin(), n.block.shape());
    rotate_right_with_kick(&mut n, &b);
    assert_eq!((n.loc, n.block.origin(), n.block.shape()), before);
    rotate_left_with_kick(&mut n, &b);
    assert_eq!((n.loc, n.block.origin(), n.block.shape()), before);
}

#[test]
fn board_debug_picture() {
    let mut b = Board::new();
    b.grid[2][3] = '#';
    let p = b.debug_picture();
    assert_eq!(p[2][3], '#');
    assert_eq!(p[2][4], '.');
    assert_eq!(p[0][0], '.');
}

#[test]
fn i_piece_turns_clockwise_from_its_fourth_state() {
    let b = Board::new();
    let mut block = Block::new(Mino::I);
    block.rotate_left();
    let mut n = Now { kind: Mino::I, block, loc: (5, 0) };
    assert_eq!(get_rot(&n), 3);
    assert!(b.is_possible(&n));
    rotate_right_with_kick(&mut n, &b);
    assert_eq!(n.loc, (5, 1));
    assert_eq!(n.block.origin(), (1, 1));
    assert_eq!(n.block.shape(), Mino::I.shape());
}

#[test]
fn clockwise_kicks_retrace_anticlockwise_ones() {
    for r in 0..4 {
        let cw = get_offset(r, 1);
        let ccw = get_offset((r + 1) % 4, -1);
        for i in 0..5 {
            assert_eq!(cw[i], (-ccw[i].0, -ccw[i].1));
        }
    }
}

#[test]
fn turning_far_out_does_not_overflow() {
    let b = Board::new();
    let mut n = Now::init_with(Mino::T);
    n.loc = (i32::MAX - 3, 4);
    rotate_right_with_kick(&mut n, &b);
    assert_eq!(n.loc, (i32::MAX - 3, 4));
    assert_eq!(n.block.origin(), (1, 1));
}
