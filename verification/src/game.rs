use vstd::prelude::*;
use crate::bag::{Next, is_full_set, lemma_full_set};
use crate::block::{Block, centre_cell, lemma_fresh_block_shape, lemma_turn_left_cells, lemma_turn_right_cells};
use crate::board::{Board, full_rows, in_board, lemma_kept_and_full};
use crate::hold::Hold;
use crate::mino::Mino;
use crate::moves::{
    kick_fits, kick_table, kicked, lemma_kick_fits_on_board, lemma_kicked_allowed_or_unchanged, move_down, move_left, move_right,
    rotate_left_with_kick, rotate_right_with_kick, shifted,
};
use crate::now::{Now, origin_loc, spawn_loc};
use crate::score::{GameManager, points, tick_for};

verus! {

/// What the surrounding program is to do after a step.
#[derive(Clone, Copy, PartialEq, Eq, Structural, Debug)]
pub enum Step {
    /// Draw the board and go on.
    Continue,
    /// The player quit.
    Quit,
    /// The player paused; wait for the key that resumes.
    Pause,
    /// A new piece cannot stand where it appears: the game is over.
    GameOver,
}

/// Milliseconds from `start` to `t`, or 0 if `t` is earlier.
pub open spec fn elapsed(start: u64, t: u64) -> int {
    if t >= start { t - start } else { 0 }
}

/// Milliseconds from `start` to `t`, or 0 if `t` is earlier.
fn elapsed_ms(start: u64, t: u64) -> (r: u64)
    ensures
        r == elapsed(start, t),
{
    if t >= start { t - start } else { 0 }
}

/// A whole game: the falling piece, the queue, the hold, the board, the
/// score keeping, the time of the last fall and when the piece came to rest
/// (if it has).
pub struct Game {
    pub now: Now,
    pub next: Next,
    pub hold: Hold,
    pub board: Board,
    pub manager: GameManager,
    pub last_tick: u64,
    pub lock_timer: Option<u64>,
}

/// A fresh real piece at the spawn cell covers its turning cell and lies on
/// the board.
proof fn lemma_spawned(x: Now)
    requires
        x.kind != Mino::Empty,
        x.block.is_fresh(x.kind),
        x.loc == spawn_loc(),
    ensures
        x.block.has_cell(0, 0),
        Board::inside(x),
{
    lemma_fresh_block_shape(x.block, x.kind);
    assert forall|y: int, z: int| #[trigger] x.covers(y, z) implies in_board(y, z) by {
        assert(x.block.has_cell(y - 1, z - 4));
    }
}

/// A piece on the board that covers its turning cell is far from the ends
/// of the `i32` range, and so are its one-step moves.
proof fn lemma_piece_ok(x: Now)
    requires
        Board::inside(x),
        x.block.has_cell(0, 0),
        centre_cell(x.block.spec_origin()),
    ensures
        in_board(x.loc.0 as int, x.loc.1 as int),
        kick_fits(x, 1i32),
        kick_fits(x, -1i32),
        x.fits(),
        x.moved(1, 0).fits(),
        x.moved(0, 1).fits(),
        x.moved(0, -1).fits(),
{
    assert(x.covers(x.loc.0 as int, x.loc.1 as int));
    lemma_kick_fits_on_board(x);
}

impl Game {
    /// What every step keeps: no empty piece waits in the queue, the piece
    /// covers its turning cell and lies on the board, the fall interval is
    /// the level's, and the level is at most one more than a tenth of the
    /// cleared rows.
    pub open spec fn wf(self) -> bool {
        &&& self.next.wf()
        &&& self.now.block.has_cell(0, 0)
        &&& Board::inside(self.now)
        &&& self.manager.wf()
        &&& self.manager.level <= self.manager.cleard / 10 + 1
    }

    /// `b` is `a` with, at most, the piece changed.
    pub open spec fn only_piece_changed(a: Game, b: Game) -> bool {
        &&& b.next == a.next
        &&& b.hold == a.hold
        &&& b.board == a.board
        &&& b.manager == a.manager
        &&& b.last_tick == a.last_tick
        &&& b.lock_timer == a.lock_timer
    }

    /// `b` is `a` after the next piece of the queue came in at the spawn
    /// cell, holding allowed again.
    pub open spec fn brought_next(a: Game, b: Game) -> bool {
        &&& b.hold.can_hold
        &&& b.hold.kind == a.hold.kind
        &&& Next::gives(a.next, b.next, b.now.kind)
        &&& b.now.block.is_fresh(b.now.kind)
        &&& b.now.loc == spawn_loc()
    }

    /// What the key `key` does to game `a`: `b` is the game afterwards and
    /// `r` what comes next. `a`/`d` move left/right, `s` moves down, `k`/`l`
    /// turn anticlockwise/clockwise (not an O piece), `j` drops hard and
    /// brings the next piece, `w` holds, `q` quits, `e` pauses; other keys
    /// do nothing.
    pub open spec fn key_step(a: Game, b: Game, key: char, r: Step) -> bool {
        if key == 'q' {
            r == Step::Quit && b == a
        } else if key == 'e' {
            r == Step::Pause && b == a
        } else {
            &&& r == Step::Continue
            &&& if key == 'a' {
                Game::only_piece_changed(a, b) && b.now == shifted(a.board, a.now, 0, -1)
            } else if key == 'd' {
                Game::only_piece_changed(a, b) && b.now == shifted(a.board, a.now, 0, 1)
            } else if key == 's' {
                Game::only_piece_changed(a, b) && b.now == shifted(a.board, a.now, 1, 0)
            } else if key == 'k' {
                &&& Game::only_piece_changed(a, b)
                &&& a.now.kind == Mino::O ==> b.now == a.now
                &&& a.now.kind != Mino::O ==> exists|t: Block| #[trigger] t.is_turned_left(a.now.block)
                    && b.now == kicked(a.board, a.now, t, kick_table(a.now, -1i32), 0)
            } else if key == 'l' {
                &&& Game::only_piece_changed(a, b)
                &&& a.now.kind == Mino::O ==> b.now == a.now
                &&& a.now.kind != Mino::O ==> exists|t: Block| #[trigger] t.is_turned_right(a.now.block)
                    && b.now == kicked(a.board, a.now, t, kick_table(a.now, 1i32), 0)
            } else if key == 'j' {
                &&& exists|landed: Now| #[trigger] a.board.drops(a.now, b.board, landed)
                &&& Game::brought_next(a, b)
                &&& b.manager == a.manager
                &&& b.last_tick == a.last_tick
                &&& b.lock_timer == a.lock_timer
            } else if key == 'w' {
                &&& Hold::holds(a.hold, a.now, a.next, b.hold, b.now, b.next)
                &&& b.board == a.board
                &&& b.manager == a.manager
                &&& b.last_tick == a.last_tick
                &&& b.lock_timer == a.lock_timer
            } else {
                b == a
            }
        }
    }

    /// The rest timer at time `t`: a piece that has rested more than 2000 ms
    /// is fixed where it is and the next piece comes in.
    pub open spec fn lock_step(a: Game, b: Game, t: u64) -> bool {
        match a.lock_timer {
            Some(start) => if elapsed(start, t) > 2000 {
                &&& a.board.is_drawn(a.now, b.board.grid)
                &&& Game::brought_next(a, b)
                &&& b.lock_timer is None
                &&& b.manager == a.manager
                &&& b.last_tick == a.last_tick
            } else {
                b == a
            },
            None => b == a,
        }
    }

    /// Gravity at time `t`: once the fall interval has passed since the
    /// last fall, the piece moves down a row if it can; if it cannot, it
    /// starts resting (unless it already was), and if it did, it stops.
    pub open spec fn gravity_step(a: Game, b: Game, t: u64) -> bool {
        if elapsed(a.last_tick, t) >= a.manager.tick_rate {
            let moved = a.board.allows(a.now.moved(1, 0));
            &&& b.now == shifted(a.board, a.now, 1, 0)
            &&& b.lock_timer == (if moved { None } else if a.lock_timer is None { Some(t) } else { a.lock_timer })
            &&& b.last_tick == t
            &&& b.next == a.next
            &&& b.hold == a.hold
            &&& b.board == a.board
            &&& b.manager == a.manager
        } else {
            b == a
        }
    }

    /// Full rows are cleared and scored; ten cleared rows per level raise the
    /// level; the game is over when a piece at the spawn cell cannot stand.
    pub open spec fn settle_step(a: Game, b: Game, r: Step) -> bool {
        let c = full_rows(a.board.grid, 0);
        let m = a.manager;
        &&& b.board.is_cleared_from(a.board)
        &&& b.now == a.now
        &&& b.next == a.next
        &&& b.hold == a.hold
        &&& b.last_tick == a.last_tick
        &&& b.lock_timer == a.lock_timer
        &&& c == 0 ==> b.manager == m
        &&& c > 0 ==> {
            &&& b.manager.cleard == m.cleard + c
            &&& b.manager.score == m.score + points(c as u32, m.level)
            &&& (m.cleard + c) / 10 >= m.level ==> b.manager.level == m.level + 1
                && b.manager.tick_rate == tick_for(m.level + 1)
            &&& (m.cleard + c) / 10 < m.level ==> b.manager.level == m.level
                && b.manager.tick_rate == m.tick_rate
        }
        &&& r == (if a.now.loc == spawn_loc() && !b.board.allows(a.now) { Step::GameOver } else { Step::Continue })
    }

    /// The key, then (unless it quit or paused) the rest timer and gravity:
    /// a round of the game loop up to settling.
    pub open spec fn advances(a: Game, b: Game, key: char, t: u64, r: Step) -> bool {
        if key == 'q' || key == 'e' {
            Game::key_step(a, b, key, r)
        } else {
            &&& r == Step::Continue
            &&& exists|g1: Game, g2: Game|
                #![trigger Game::key_step(a, g1, key, Step::Continue), Game::lock_step(g1, g2, t)]
                Game::key_step(a, g1, key, Step::Continue) && Game::lock_step(g1, g2, t)
                && Game::gravity_step(g2, b, t)
        }
    }

    /// One round of the game loop with key `key` at time `t`: the key, then
    /// (unless it quit or paused) the rest timer, gravity, and settling.
    pub open spec fn steps(a: Game, b: Game, key: char, t: u64, r: Step) -> bool {
        if key == 'q' || key == 'e' {
            Game::key_step(a, b, key, r)
        } else {
            exists|g: Game| #[trigger] Game::advances(a, g, key, t, Step::Continue) && Game::settle_step(g, b, r)
        }
    }

    /// Settling can be computed: the row count and the score stay within a
    /// `u32`, and a level rise stays within level 25, where the fall
    /// interval reaches zero.
    pub open spec fn settle_fits(self) -> bool {
        let c = full_rows(self.board.grid, 0);
        let m = self.manager;
        &&& m.cleard + c <= u32::MAX
        &&& (m.cleard + c) / 10 >= m.level ==> m.level < 25
        &&& c > 0 ==> m.score + points(c as u32, m.level) <= u32::MAX
    }

    /// Whatever the key, rest timer and gravity of a round from `a` make,
    /// settling can then be computed.
    pub open spec fn round_fits(a: Game, key: char, t: u64) -> bool {
        forall|g: Game| #[trigger] Game::advances(a, g, key, t, Step::Continue) ==> g.settle_fits()
    }

    /// A round keeps the score keeping as it is until settling, which clears
    /// at most 20 rows and scores at most 20000 points: below level 25, or
    /// with at most 229 rows cleared, and with room for 20 more rows and
    /// 20000 more points, a round can be settled.
    pub proof fn lemma_round_fits(a: Game, key: char, t: u64)
        requires
            a.wf(),
            a.manager.level < 25 || a.manager.cleard <= 229,
            a.manager.cleard <= u32::MAX - 20,
            a.manager.score <= u32::MAX - 20000,
        ensures
            Game::round_fits(a, key, t),
    {
        assert forall|g: Game| #[trigger] Game::advances(a, g, key, t, Step::Continue) implies g.settle_fits() by {
            if key == 'q' || key == 'e' {
            } else {
                let (g1, g2) = choose|g1: Game, g2: Game|
                    #![trigger Game::key_step(a, g1, key, Step::Continue), Game::lock_step(g1, g2, t)]
                    Game::key_step(a, g1, key, Step::Continue) && Game::lock_step(g1, g2, t)
                    && Game::gravity_step(g2, g, t);
                assert(g1.manager == a.manager);
                assert(g2.manager == a.manager);
                assert(g.manager == a.manager);
                lemma_kept_and_full(g.board.grid, 0);
            }
        }
    }

    /// A new game at time `t`: an empty board, a fresh queue, nothing held,
    /// the first piece taken from the bag.
    pub fn new(t: u64) -> (r: Game)
        ensures
            r.wf(),
            is_full_set(r.next.upcoming().push(r.now.kind)),
            r.now.block.is_fresh(r.now.kind),
            r.now.loc == spawn_loc(),
            r.hold.kind == Mino::Empty,
            r.hold.can_hold,
            forall|y: int, x: int| 0 <= y < 20 && 0 <= x < 10 ==> #[trigger] r.board.grid[y][x] == ' ',
            r.manager.score == 0,
            r.manager.level == 1,
            r.manager.cleard == 0,
            r.last_tick == t,
            r.lock_timer is None,
    {
        let mut next = Next::new();
        proof {
            let d = choose|d: Seq<Mino>| #[trigger] is_full_set(d) && next.bag@ == d.subrange(0, 3)
                && next.blocks[0] == d[6] && next.blocks[1] == d[5] && next.blocks[2] == d[4] && next.blocks[3] == d[3];
            lemma_full_set(d);
        }
        let ghost before = next.bag@;
        let ghost u = next.upcoming();
        let first = next.bag.pop().unwrap();
        proof {
            assert(first == before[before.len() - 1]);
            assert(next.upcoming() =~= u.remove(4));
            assert(u[4] == first);
            broadcast use vstd::seq_lib::group_to_multiset_ensures;
            assert(u.contains(first));
            assert(u.to_multiset().count(first) > 0);
            vstd::seq_lib::to_multiset_remove(u, 4);
            vstd::seq_lib::to_multiset_build(u.remove(4), first);
            assert(next.upcoming().push(first).to_multiset() =~= u.to_multiset());
            assert forall|i: int| 0 <= i < next.bag@.len() implies #[trigger] next.bag@[i] != Mino::Empty by {
                assert(next.bag@[i] == before[i]);
            }
        }
        let now = Now::init_with(first);
        let hold = Hold::new();
        let board = Board::new();
        let manager = GameManager::new();
        let r = Game { now, next, hold, board, manager, last_tick: t, lock_timer: None };
        proof {
            lemma_spawned(r.now);
        }
        r
    }

    /// Brings the next piece of the queue in at the spawn cell and allows
    /// holding again.
    fn bring_next(&mut self)
        requires
            old(self).next.wf(),
        ensures
            Game::brought_next(*old(self), *final(self)),
            final(self).next.wf(),
            final(self).now.block.has_cell(0, 0),
            Board::inside(final(self).now),
            final(self).board == old(self).board,
            final(self).manager == old(self).manager,
            final(self).last_tick == old(self).last_tick,
            final(self).lock_timer == old(self).lock_timer,
    {
        self.hold.can_hold = true;
        self.now = Now::init_with(self.next.give_block());
        proof { lemma_spawned(self.now); }
    }

    /// Applies the key `key` (see [`Game::key_step`]).
    pub fn apply_key(&mut self, key: char) -> (r: Step)
        requires
            old(self).wf(),
        ensures
            Game::key_step(*old(self), *final(self), key, r),
            final(self).wf(),
    {
        proof {
            use_type_invariant(&self.now.block);
            lemma_piece_ok(self.now);
        }
        let ghost a = *self;
        match key {
            'a' => {
                move_left(&mut self.now, &self.board);
            },
            'd' => {
                move_right(&mut self.now, &self.board);
            },
            'k' => {
                if self.now.kind != Mino::O {
                    rotate_left_with_kick(&mut self.now, &self.board);
                    proof {
                        let t = choose|t: Block| #[trigger] t.is_turned_left(a.now.block)
                            && self.now == kicked(a.board, a.now, t, kick_table(a.now, -1i32), 0);
                        lemma_turn_left_cells(a.now.block, t);
                        assert(t.has_cell(0, 0) == a.now.block.has_cell(0, -0));
                        lemma_kicked_allowed_or_unchanged(a.board, a.now, t, kick_table(a.now, -1i32), 0);
                    }
                }
            },
            'l' => {
                if self.now.kind != Mino::O {
                    rotate_right_with_kick(&mut self.now, &self.board);
                    proof {
                        let t = choose|t: Block| #[trigger] t.is_turned_right(a.now.block)
                            && self.now == kicked(a.board, a.now, t, kick_table(a.now, 1i32), 0);
                        lemma_turn_right_cells(a.now.block, t);
                        assert(t.has_cell(0, 0) == a.now.block.has_cell(-0, 0));
                        lemma_kicked_allowed_or_unchanged(a.board, a.now, t, kick_table(a.now, 1i32), 0);
                    }
                }
            },
            'j' => {
                self.board.hard_drop(&mut self.now);
                self.bring_next();
            },
            's' => {
                move_down(&mut self.now, &self.board);
            },
            'q' => {
                return Step::Quit;
            },
            'w' => {
                self.hold.holding(&mut self.now, &mut self.next);
                proof {
                    if a.hold.can_hold {
                        if a.hold.kind == Mino::Empty {
                            assert(self.now.kind == a.next.blocks[0]);
                        }
                        lemma_spawned(self.now);
                    }
                }
            },
            'e' => {
                return Step::Pause;
            },
            _ => {},
        }
        Step::Continue
    }

    /// Fixes a piece that has rested more than 2000 ms at time `t` and
    /// brings the next one (see [`Game::lock_step`]).
    pub fn check_lock(&mut self, t: u64)
        requires
            old(self).wf(),
        ensures
            Game::lock_step(*old(self), *final(self), t),
            final(self).wf(),
    {
        proof {
            use_type_invariant(&self.now.block);
            lemma_piece_ok(self.now);
        }
        if let Some(start) = self.lock_timer {
            if elapsed_ms(start, t) > 2000 {
                self.board.fix_with(&self.now);
                self.bring_next();
                self.lock_timer = None;
            }
        }
    }

    /// Lets the piece fall a row once the fall interval has passed at time
    /// `t`, and keeps the rest timer (see [`Game::gravity_step`]).
    pub fn gravity(&mut self, t: u64)
        requires
            old(self).wf(),
        ensures
            Game::gravity_step(*old(self), *final(self), t),
            final(self).wf(),
    {
        proof {
            use_type_invariant(&self.now.block);
            lemma_piece_ok(self.now);
        }
        if elapsed_ms(self.last_tick, t) >= self.manager.tick_rate {
            let moved = move_down(&mut self.now, &self.board);

            if moved {
                self.lock_timer = None;
            } else {
                if self.lock_timer.is_none() {
                    self.lock_timer = Some(t);
                }
            }

            self.last_tick = t;
        }
    }

    /// Whether settling can be computed now (see [`Game::settle_fits`]).
    pub fn can_settle(&self) -> (r: bool)
        requires
            self.wf(),
        ensures
            r == self.settle_fits(),
    {
        let c: u32 = self.board.full_row_count();
        let m = &self.manager;
        let rows: u64 = m.cleard as u64 + c as u64;
        let level: u64 = m.level as u64;
        let gain: u64 = if c == 1 {
            100 * level
        } else if c == 2 {
            300 * level
        } else if c == 3 {
            500 * level
        } else if c == 4 {
            800 * level
        } else {
            0
        };
        let rows_fit = rows <= u32::MAX as u64;
        let level_fits = !(rows / 10 >= level) || level < 25;
        let score_fits = !(c > 0) || m.score as u64 + gain <= u32::MAX as u64;
        rows_fit && level_fits && score_fits
    }

    /// Clears full rows, scores them, raises the level, and tells whether the
    /// game is over (see [`Game::settle_step`]). The row count and the score
    /// must fit in a `u32`, and the level may not pass 25, where the fall
    /// interval reaches zero.
    pub fn settle(&mut self) -> (r: Step)
        requires
            old(self).wf(),
            old(self).settle_fits(),
        ensures
            Game::settle_step(*old(self), *final(self), r),
            final(self).wf(),
    {
        proof {
            use_type_invariant(&self.now.block);
            lemma_piece_ok(self.now);
            lemma_kept_and_full(self.board.grid, 0);
        }
        let cleared_line = self.board.clear_line() as u32;
        if cleared_line > 0 {
            self.manager.cleard += cleared_line;
            self.manager.score_up(cleared_line);
            self.manager.level_up();
        }

        let spawn = origin_loc();
        if self.now.loc.0 == spawn.0 && self.now.loc.1 == spawn.1 {
            if !self.board.is_possible(&self.now) {
                return Step::GameOver;
            }
        }
        Step::Continue
    }

    /// The key, then (unless it quit or paused) the rest timer and gravity
    /// (see [`Game::advances`]).
    pub fn advance(&mut self, key: char, t: u64) -> (r: Step)
        requires
            old(self).wf(),
        ensures
            Game::advances(*old(self), *final(self), key, t, r),
            final(self).wf(),
            key == 'q' ==> r == Step::Quit,
            key == 'e' ==> r == Step::Pause,
            key != 'q' && key != 'e' ==> r == Step::Continue,
    {
        let ghost a = *self;
        let k = self.apply_key(key);
        if key == 'q' || key == 'e' {
            return k;
        }
        let ghost g1 = *self;
        self.check_lock(t);
        let ghost g2 = *self;
        self.gravity(t);
        proof {
            assert(Game::key_step(a, g1, key, Step::Continue));
            assert(Game::lock_step(g1, g2, t));
            assert(Game::gravity_step(g2, *self, t));
        }
        Step::Continue
    }

    /// One round of the game loop with key `key` at time `t` (see
    /// [`Game::steps`]), on a round that can be settled (see
    /// [`Game::round_fits`] and [`Game::lemma_round_fits`]).
    pub fn step(&mut self, key: char, t: u64) -> (r: Step)
        requires
            old(self).wf(),
            Game::round_fits(*old(self), key, t),
        ensures
            Game::steps(*old(self), *final(self), key, t, r),
            final(self).wf(),
            key == 'q' ==> r == Step::Quit,
            key == 'e' ==> r == Step::Pause,
            key != 'q' && key != 'e' ==> r == Step::Continue || r == Step::GameOver,
    {
        let ghost a = *self;
        let k = self.advance(key, t);
        if key == 'q' || key == 'e' {
            return k;
        }
        let ghost g = *self;
        proof {
            assert(Game::advances(a, g, key, t, Step::Continue));
        }
        let r = self.settle();
        proof {
            assert(Game::settle_step(g, *self, r));
        }
        r
    }
}

} // verus!
