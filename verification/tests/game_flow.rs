use tetris::bag::Next;
use tetris::board::Board;
use tetris::game::{Game, Step};
use tetris::hold::Hold;
use tetris::mino::Mino;
use tetris::now::Now;
use tetris::render::render_all;
use tetris::score::GameManager;

fn piece_index(m: Mino) -> usize {
    match m {
        Mino::O => 0,
        Mino::I => 1,
        Mino::Z => 2,
        Mino::S => 3,
        Mino::L => 4,
        Mino::T => 5,
        Mino::J => 6,
        Mino::Empty => 7,
    }
}

fn is_full_set(pieces: &[Mino]) -> bool {
    let mut counts = [0usize; 8];
    for m in pieces {
        counts[piece_index(*m)] += 1;
    }
    pieces.len() == 7 && counts[..7].iter().all(|c| *c == 1) && counts[7] == 0
}

#[test]
fn new_queue_holds_one_full_set() {
    let next = Next::new();
    assert_eq!(next.bag.len(), 3);
    let mut all: Vec<Mino> = next.blocks.to_vec();
    all.extend(next.bag.iter().copied());
    assert!(is_full_set(&all));
}

#[test]
fn bag_is_shuffled() {
    let mut differs = false;
    for _ in 0..30 {
        let next = Next::new();
        if next.blocks != [Mino::O, Mino::T, Mino::I, Mino::L] {
            differs = true;
        }
    }
    assert!(differs);
}

#[test]
fn every_seven_pieces_dealt_form_a_full_set() {
    let mut next = Next::new();
    for _ in 0..4 {
        let mut dealt = Vec::new();
        for _ in 0..7 {
            dealt.push(next.give_block());
        }
        assert!(is_full_set(&dealt));
    }
}

#[test]
fn give_block_moves_the_queue_up() {
    let mut next = Next::new();
    let before = next.blocks;
    let last_in_bag = *next.bag.last().unwrap();
    let out = next.give_block();
    assert_eq!(out, before[0]);
    assert_eq!(next.blocks, [before[1], before[2], before[3], last_in_bag]);
    assert_eq!(next.bag.len(), 2);
}

#[test]
fn give_block_refills_an_empty_bag() {
    let mut next = Next { blocks: [Mino::O, Mino::I, Mino::Z, Mino::S], bag: Vec::new() };
    assert_eq!(next.give_block(), Mino::O);
    assert_eq!(&next.blocks[..3], &[Mino::I, Mino::Z, Mino::S]);
    assert_eq!(next.bag.len(), 6);
    let mut set: Vec<Mino> = next.bag.clone();
    set.push(next.blocks[3]);
    assert!(is_full_set(&set));
}

#[test]
fn bag_init_adds_a_full_set() {
    let mut next = Next { blocks: [Mino::O; 4], bag: vec![Mino::T] };
    next.bag_init();
    assert_eq!(next.bag.len(), 8);
    assert_eq!(next.bag[0], Mino::T);
    assert!(is_full_set(&next.bag[1..]));
    assert_eq!(next.blocks, [Mino::O; 4]);
}

#[test]
fn refill_from_pours_last_first() {
    let mut next = Next { blocks: [Mino::O; 4], bag: vec![Mino::T] };
    next.refill_from(vec![Mino::I, Mino::Z, Mino::S]);
    assert_eq!(next.bag, vec![Mino::T, Mino::S, Mino::Z, Mino::I]);
}

#[test]
fn holding_takes_the_next_piece_then_swaps() {
    let mut hold = Hold::new();
    assert_eq!(hold.kind, Mino::Empty);
    assert!(hold.can_hold);
    let mut next = Next::new();
    let front = next.blocks[0];
    let mut now = Now::init_with(Mino::T);
    now.loc = (7, 2);
    hold.holding(&mut now, &mut next);
    assert_eq!(hold.kind, Mino::T);
    assert!(!hold.can_hold);
    assert_eq!(now.kind, front);
    assert_eq!(now.loc, (1, 4));
    assert_eq!(now.block.shape(), front.shape());

    // a second hold before the piece is placed does nothing
    let blocks_before = next.blocks;
    hold.holding(&mut now, &mut next);
    assert_eq!(hold.kind, Mino::T);
    assert_eq!(now.kind, front);
    assert_eq!(next.blocks, blocks_before);

    // once allowed again, the held piece comes back
    hold.can_hold = true;
    now.loc = (9, 5);
    hold.holding(&mut now, &mut next);
    assert_eq!(now.kind, Mino::T);
    assert_eq!(now.loc, (1, 4));
    assert_eq!(hold.kind, front);
    assert_eq!(next.blocks, blocks_before);
}

#[test]
fn manager_starts_at_level_one() {
    let gm = GameManager::new();
    assert_eq!((gm.score, gm.level, gm.tick_rate, gm.cleard), (0, 1, 1000, 0));
}

#[test]
fn score_up_by_rows_and_level() {
    let mut gm = GameManager::new();
    gm.level = 3;
    let mut expected = 0;
    for (rows, points) in [(1, 300), (2, 900), (3, 1500), (4, 2400), (5, 0), (0, 0)] {
        gm.score_up(rows);
        expected += points;
        assert_eq!(gm.score, expected);
    }
    assert_eq!(gm.level, 3);
}

#[test]
fn level_up_after_ten_rows_per_level() {
    let mut gm = GameManager::new();
    gm.cleard = 9;
    gm.level_up();
    assert_eq!((gm.level, gm.tick_rate), (1, 1000));
    gm.cleard = 10;
    gm.level_up();
    assert_eq!((gm.level, gm.tick_rate), (2, 900));
    gm.level_up();
    assert_eq!((gm.level, gm.tick_rate), (2, 900));
    gm.cleard = 45;
    gm.level_up();
    assert_eq!((gm.level, gm.tick_rate), (3, 800));
    gm.level_up();
    assert_eq!((gm.level, gm.tick_rate), (4, 700));
}

#[test]
fn fall_interval_by_level() {
    let expected: [(u32, u64); 11] = [
        (2, 900), (6, 500), (7, 450), (10, 300), (11, 270), (16, 120),
        (17, 100), (19, 60), (20, 50), (24, 10), (25, 0),
    ];
    for (level, ms) in expected {
        let mut gm = GameManager::new();
        gm.level = level - 1;
        gm.cleard = 10 * (level - 1);
        gm.level_up();
        assert_eq!(gm.level, level);
        assert_eq!(gm.tick_rate, ms);
    }
}

fn line(lines: &Vec<Vec<char>>, y: usize) -> String {
    lines[y].iter().collect()
}

#[test]
fn screen_layout() {
    let board = Board::new();
    let hold = Hold::new();
    let next = Next { blocks: [Mino::I, Mino::O, Mino::T, Mino::S], bag: Vec::new() };
    let mut gm = GameManager::new();
    gm.score = 1234;
    gm.cleard = 7;
    let mut picture = board.grid;
    picture[0][0] = '#';
    let lines = render_all(&picture, &hold, &next, &gm);
    assert_eq!(lines.len(), 22);
    assert_eq!(line(&lines, 0), "-".repeat(30));
    assert_eq!(line(&lines, 1), "|  HOLD  |#         |  NEXT  |");
    assert_eq!(line(&lines, 2), "|        |          |        |");
    assert_eq!(line(&lines, 3), "|        |          |  ####  |");
    assert_eq!(line(&lines, 6), "|--------|          |--------|");
    assert_eq!(line(&lines, 7), "|  SCORE |          |  ##    |");
    assert_eq!(line(&lines, 9), "|00001234|          |        |");
    assert_eq!(line(&lines, 12), "|   LV   |          |  ###   |");
    assert_eq!(line(&lines, 14), "|   01   |          |        |");
    assert_eq!(line(&lines, 17), "|  LINE  |          |   ##   |");
    assert_eq!(line(&lines, 19), "|  0007  |          |        |");
    assert_eq!(line(&lines, 21), "|        |==========|        |");
}

#[test]
fn screen_number_wider_than_its_field() {
    let board = Board::new();
    let hold = Hold::new();
    let next = Next { blocks: [Mino::I, Mino::O, Mino::T, Mino::S], bag: Vec::new() };
    let mut gm = GameManager::new();
    gm.score = 123456789;
    let lines = render_all(&board.grid, &hold, &next, &gm);
    assert_eq!(line(&lines, 9), "|123456789|          |        |");
}

#[test]
fn game_starts_empty_with_a_piece_at_spawn() {
    let g = Game::new(0);
    assert_eq!(g.now.loc, (1, 4));
    assert!(g.now.kind != Mino::Empty);
    assert_eq!(g.hold.kind, Mino::Empty);
    assert_eq!(g.next.bag.len(), 2);
    assert_eq!(g.manager.level, 1);
    assert!(g.lock_timer.is_none());
}

#[test]
fn quit_and_pause_change_nothing() {
    let mut g = Game::new(0);
    let loc = g.now.loc;
    assert_eq!(g.step('q', 5000), Step::Quit);
    assert_eq!(g.step('e', 5000), Step::Pause);
    assert_eq!(g.now.loc, loc);
    assert_eq!(g.last_tick, 0);
}

#[test]
fn gravity_moves_the_piece_each_interval() {
    let mut g = Game::new(0);
    assert_eq!(g.step('x', 500), Step::Continue);
    assert_eq!(g.now.loc, (1, 4));
    assert_eq!(g.step('x', 1000), Step::Continue);
    assert_eq!(g.now.loc, (2, 4));
    assert_eq!(g.last_tick, 1000);
}

#[test]
fn keys_move_the_piece() {
    let mut g = Game::new(0);
    g.step('a', 0);
    assert_eq!(g.now.loc, (1, 3));
    g.step('d', 0);
    g.step('d', 0);
    assert_eq!(g.now.loc, (1, 5));
    g.step('s', 0);
    assert_eq!(g.now.loc, (2, 5));
}

#[test]
fn hard_drop_fixes_and_brings_the_next_piece() {
    let mut g = Game::new(0);
    let front = g.next.blocks[0];
    g.hold.can_hold = false;
    assert_eq!(g.step('j', 0), Step::Continue);
    let mut filled = 0;
    for y in 0..20 {
        for x in 0..10 {
            if g.board.grid[y][x] == '#' {
                filled += 1;
            }
        }
    }
    assert_eq!(filled, 4);
    assert_eq!(g.now.kind, front);
    assert_eq!(g.now.loc, (1, 4));
    assert!(g.hold.can_hold);
}

#[test]
fn resting_piece_is_fixed_after_two_seconds() {
    let mut g = Game::new(0);
    g.now = Now::init_with(Mino::O);
    g.now.loc = (19, 4);
    assert_eq!(g.step('x', 1000), Step::Continue);
    assert_eq!(g.lock_timer, Some(1000));
    assert_eq!(g.step('x', 3000), Step::Continue);
    assert_eq!(g.lock_timer, Some(1000));
    assert_eq!(g.board.grid[19][3], ' ');
    g.step('x', 3001);
    assert!(g.lock_timer.is_none());
    assert_eq!(g.board.grid[19][3], '#');
    assert_eq!(g.board.grid[18][4], '#');
    assert_eq!(g.now.loc, (1, 4));
}

#[test]
fn full_rows_score_and_count() {
    let mut g = Game::new(0);
    for x in 0..10 {
        if x != 3 && x != 4 {
            g.board.grid[19][x] = '#';
            g.board.grid[18][x] = '#';
        }
    }
    g.now = Now::init_with(Mino::O);
    g.step('j', 0);
    assert_eq!(g.manager.cleard, 2);
    assert_eq!(g.manager.score, 300);
    for y in 0..20 {
        assert_eq!(g.board.grid[y], [' '; 10]);
    }
}

#[test]
fn blocked_spawn_ends_the_game() {
    let mut g = Game::new(0);
    for x in 3..7 {
        g.board.grid[0][x] = '#';
        g.board.grid[1][x] = '#';
    }
    assert_eq!(g.step('x', 0), Step::GameOver);
}

#[test]
fn hold_key_holds_once_per_piece() {
    let mut g = Game::new(0);
    let first = g.now.kind;
    let front = g.next.blocks[0];
    g.step('w', 0);
    assert_eq!(g.hold.kind, first);
    assert_eq!(g.now.kind, front);
    g.step('w', 0);
    assert_eq!(g.hold.kind, first);
    assert_eq!(g.now.kind, front);
}

#[test]
fn o_piece_does_not_turn_but_others_do() {
    let mut g = Game::new(0);
    g.now = Now::init_with(Mino::O);
    assert_eq!(g.apply_key('k'), Step::Continue);
    assert_eq!(g.now.block.origin(), (1, 1));
    assert_eq!(g.apply_key('l'), Step::Continue);
    assert_eq!(g.now.block.origin(), (1, 1));
    g.now = Now::init_with(Mino::T);
    g.apply_key('l');
    assert_eq!(g.now.block.origin(), (1, 2));
    g.apply_key('k');
    assert_eq!(g.now.block.origin(), (1, 1));
}

#[test]
fn other_keys_change_nothing() {
    let mut g = Game::new(0);
    let loc = g.now.loc;
    let blocks = g.next.blocks;
    assert_eq!(g.apply_key('0'), Step::Continue);
    assert_eq!(g.now.loc, loc);
    assert_eq!(g.next.blocks, blocks);
}

#[test]
fn late_game_rounds_are_played() {
    let mut g = Game::new(0);
    g.manager.level = 24;
    g.manager.cleard = 240;
    g.manager.tick_rate = 10;
    for x in 0..10 {
        if x != 3 && x != 4 {
            g.board.grid[19][x] = '#';
        }
    }
    g.now = Now::init_with(Mino::O);
    assert_eq!(g.advance('j', 0), Step::Continue);
    assert!(g.can_settle());
    assert_eq!(g.settle(), Step::Continue);
    assert_eq!(g.manager.cleard, 241);
    assert_eq!(g.manager.level, 25);
    assert_eq!(g.manager.tick_rate, 0);
    assert_eq!(g.manager.score, 2400);
}

#[test]
fn a_round_past_level_twenty_five_cannot_be_settled() {
    let mut g = Game::new(0);
    g.manager.level = 25;
    g.manager.cleard = 249;
    g.manager.tick_rate = 0;
    assert!(g.can_settle());
    g.board.grid[19] = ['#'; 10];
    assert!(!g.can_settle());
    g.manager.level = 24;
    assert!(g.can_settle());
}

#[test]
fn score_that_would_overflow_cannot_be_settled() {
    let mut g = Game::new(0);
    g.manager.score = u32::MAX - 50;
    assert!(g.can_settle());
    g.board.grid[19] = ['#'; 10];
    assert!(!g.can_settle());
}
