use vstd::prelude::*;

verus! {

/// How many milliseconds reaching level `count` takes off the fall interval.
pub open spec fn step_ms(count: int) -> int {
    if 1 <= count <= 6 {
        100
    } else if 7 <= count <= 10 {
        50
    } else if 11 <= count <= 16 {
        30
    } else if count <= 19 {
        20
    } else {
        10
    }
}

/// The milliseconds that levels 1 to `n` take off together.
pub open spec fn speedup(n: int) -> int
    decreases n,
{
    if n <= 0 { 0 } else { speedup(n - 1) + step_ms(n) }
}

/// The fall interval, in milliseconds, at `level`.
pub open spec fn tick_for(level: int) -> int {
    1100 - speedup(level)
}

/// The points for clearing `clear` rows at once at `level`.
pub open spec fn points(clear: u32, level: u32) -> int {
    if clear == 1 {
        100 * level
    } else if clear == 2 {
        300 * level
    } else if clear == 3 {
        500 * level
    } else if clear == 4 {
        800 * level
    } else {
        0
    }
}

/// Points grow in proportion to the level: at level 1, one to four rows at
/// once are worth 100, 300, 500 and 800, other counts nothing.
pub proof fn lemma_points_by_level()
    ensures
        forall|c: u32, l: u32| #[trigger] points(c, l) == l * points(c, 1),
        points(1, 1) == 100,
        points(2, 1) == 300,
        points(3, 1) == 500,
        points(4, 1) == 800,
        forall|c: u32| (c == 0 || c > 4) ==> #[trigger] points(c, 1) == 0,
{
    assert forall|c: u32, l: u32| #[trigger] points(c, l) == l * points(c, 1) by {
        if c == 1 {
            assert(points(c, 1) == 100);
        } else if c == 2 {
            assert(points(c, 1) == 300);
        } else if c == 3 {
            assert(points(c, 1) == 500);
        } else if c == 4 {
            assert(points(c, 1) == 800);
        } else {
            assert(points(c, 1) == 0);
        }
    }
}

/// The fall interval starts from 1100 ms before level 1 (1000 ms at level
/// 1), and each level shortens it: by 100 ms for levels 1 to 6, 50 ms for
/// 7 to 10, 30 ms for 11 to 16, 20 ms for 17 to 19, and 10 ms from 20 on.
pub proof fn lemma_tick_per_level()
    ensures
        tick_for(0) == 1100,
        tick_for(1) == 1000,
        forall|l: int| 1 <= l <= 6 ==> #[trigger] tick_for(l) == tick_for(l - 1) - 100,
        forall|l: int| 7 <= l <= 10 ==> #[trigger] tick_for(l) == tick_for(l - 1) - 50,
        forall|l: int| 11 <= l <= 16 ==> #[trigger] tick_for(l) == tick_for(l - 1) - 30,
        forall|l: int| 17 <= l <= 19 ==> #[trigger] tick_for(l) == tick_for(l - 1) - 20,
        forall|l: int| l >= 20 ==> #[trigger] tick_for(l) == tick_for(l - 1) - 10,
{
    reveal_with_fuel(speedup, 2);
}

/// Later levels never take off less than earlier ones.
proof fn lemma_speedup_monotone(a: int, b: int)
    requires
        0 <= a <= b,
    ensures
        speedup(a) <= speedup(b),
    decreases b - a,
{
    if a < b {
        lemma_speedup_monotone(a, b - 1);
    }
}

/// Level 25 is the last one with a fall interval: it takes the full 1100 ms
/// off, so the interval there is 0.
pub proof fn lemma_speedup_top()
    ensures
        speedup(25) == 1100,
        speedup(26) > 1100,
{
    reveal_with_fuel(speedup, 27);
}

/// The fall interval never grows as the level rises.
pub proof fn lemma_tick_never_slows(a: int, b: int)
    requires
        1 <= a <= b,
    ensures
        tick_for(b) <= tick_for(a),
{
    lemma_speedup_monotone(a, b);
}

/// Score, level, fall interval and cleared-row count of a game.
pub struct GameManager {
    pub score: u32,
    pub level: u32,
    /// The fall interval in milliseconds.
    pub tick_rate: u64,
    pub cleard: u32,
}

impl GameManager {
    /// The fall interval is the one of the current level.
    pub open spec fn wf(self) -> bool {
        &&& 1 <= self.level <= 25
        &&& self.tick_rate == tick_for(self.level as int)
    }

    /// Level 1, no score, no rows, a 1000 ms fall interval.
    pub fn new() -> (r: GameManager)
        ensures
            r.score == 0,
            r.level == 1,
            r.tick_rate == 1000,
            r.cleard == 0,
            r.wf(),
    {
        proof { reveal_with_fuel(speedup, 2); }
        GameManager { score: 0, level: 1, tick_rate: 1000, cleard: 0 }
    }

    /// Goes up one level, and to that level's fall interval, once ten rows
    /// per level have been cleared.
    pub fn level_up(&mut self)
        requires
            old(self).cleard / 10 >= old(self).level ==> old(self).level < 25,
        ensures
            final(self).score == old(self).score,
            final(self).cleard == old(self).cleard,
            old(self).cleard / 10 >= old(self).level ==> final(self).level == old(self).level + 1
                && final(self).tick_rate == tick_for(old(self).level + 1),
            old(self).cleard / 10 < old(self).level ==> *final(self) == *old(self),
            old(self).wf() && old(self).cleard / 10 >= old(self).level ==> final(self).wf(),
    {
        if self.cleard / 10 >= self.level {
            self.level += 1;
            let mut ms: u64 = 1100;
            let mut count: u32 = self.level;
            proof {
                lemma_speedup_top();
                lemma_speedup_monotone(self.level as int, 25);
            }
            while count > 0
                invariant
                    count <= self.level,
                    self.level <= 25,
                    speedup(self.level as int) <= 1100,
                    ms == 1100 - (speedup(self.level as int) - speedup(count as int)),
                decreases count,
            {
                let turm: u64 = if 1 <= count && count <= 6 {
                    100
                } else if 7 <= count && count <= 10 {
                    50
                } else if 11 <= count && count <= 16 {
                    30
                } else if count <= 19 {
                    20
                } else {
                    10
                };
                proof { lemma_speedup_monotone(0, count - 1); }
                ms -= turm;
                count -= 1;
            }

            self.tick_rate = ms;
        }
    }

    /// Adds the points for clearing `clear` rows at once: 100, 300, 500 or
    /// 800 times the level for one to four rows, nothing otherwise.
    pub fn score_up(&mut self, clear: u32)
        requires
            old(self).score + points(clear, old(self).level) <= u32::MAX,
        ensures
            final(self).score == old(self).score + points(clear, old(self).level),
            final(self).level == old(self).level,
            final(self).tick_rate == old(self).tick_rate,
            final(self).cleard == old(self).cleard,
    {
        let lv = self.level;
        let s: u32 = match clear {
            1 => 100 * lv,
            2 => 300 * lv,
            3 => 500 * lv,
            4 => 800 * lv,
            _ => 0,
        };

        self.score += s;
    }
}

} // verus!
