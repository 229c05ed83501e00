use vstd::prelude::*;
use crate::now::{Now, fits_i32};
use crate::block::centre_cell;
use crate::moves::is_bottom;

verus! {

/// Whether row `y`, column `x` lies on the 20-row, 10-column board.
pub open spec fn in_board(y: int, x: int) -> bool {
    0 <= y < 20 && 0 <= x < 10
}

/// Whether the board cell `case` = (row, column) exists.
pub fn is_in_board(case: &(i32, i32)) -> (r: bool)
    ensures
        r == in_board(case.0 as int, case.1 as int),
{
    if case.0 >= 0 && case.0 < 20 && case.1 >= 0 && case.1 < 10 {
        return true
    } else {
        return false
    }
}

/// The sum of two (row, column) pairs.
pub fn vec_add(a: &(i32, i32), b: &(i32, i32)) -> (r: (i32, i32))
    requires
        fits_i32(a.0 + b.0),
        fits_i32(a.1 + b.1),
    ensures
        r.0 == a.0 + b.0,
        r.1 == a.1 + b.1,
{
    ((a.0 + b.0), (a.1 + b.1))
}

/// Whether every cell of the row holds a block.
pub open spec fn row_full(row: [char; 10]) -> bool {
    forall|x: int| 0 <= x < 10 ==> #[trigger] row[x] == '#'
}

/// The rows of `g` from row `lo` down that are not full, top to bottom.
pub open spec fn kept_rows(g: [[char; 10]; 20], lo: int) -> Seq<[char; 10]>
    decreases 20 - lo,
{
    if lo >= 20 {
        seq![]
    } else if row_full(g[lo]) {
        kept_rows(g, lo + 1)
    } else {
        seq![g[lo]] + kept_rows(g, lo + 1)
    }
}

/// How many of the rows of `g` from row `lo` down are full.
pub open spec fn full_rows(g: [[char; 10]; 20], lo: int) -> int
    decreases 20 - lo,
{
    if lo >= 20 {
        0
    } else if row_full(g[lo]) {
        full_rows(g, lo + 1) + 1
    } else {
        full_rows(g, lo + 1)
    }
}

/// Every row from `lo` down is either kept or counted as full.
pub proof fn lemma_kept_and_full(g: [[char; 10]; 20], lo: int)
    requires
        0 <= lo <= 20,
    ensures
        kept_rows(g, lo).len() + full_rows(g, lo) == 20 - lo,
        full_rows(g, lo) >= 0,
        forall|i: int| 0 <= i < kept_rows(g, lo).len() ==> !row_full(#[trigger] kept_rows(g, lo)[i]),
    decreases 20 - lo,
{
    if lo < 20 {
        lemma_kept_and_full(g, lo + 1);
        let k = kept_rows(g, lo + 1);
        if !row_full(g[lo]) {
            assert forall|i: int| 0 <= i < kept_rows(g, lo).len() implies !row_full(#[trigger] kept_rows(g, lo)[i]) by {
                if i > 0 {
                    assert(kept_rows(g, lo)[i] == k[i - 1]);
                }
            }
        }
    }
}

/// Without full rows, every row is kept and none is counted.
proof fn lemma_no_full_rows(g: [[char; 10]; 20], lo: int)
    requires
        0 <= lo <= 20,
        forall|y: int| lo <= y < 20 ==> !row_full(#[trigger] g[y]),
    ensures
        full_rows(g, lo) == 0,
        kept_rows(g, lo).len() == 20 - lo,
        forall|i: int| 0 <= i < 20 - lo ==> #[trigger] kept_rows(g, lo)[i] == g[lo + i],
    decreases 20 - lo,
{
    if lo < 20 {
        lemma_no_full_rows(g, lo + 1);
        assert(!row_full(g[lo]));
        assert forall|i: int| 0 <= i < 20 - lo implies #[trigger] kept_rows(g, lo)[i] == g[lo + i] by {
            if i > 0 {
                assert(kept_rows(g, lo)[i] == kept_rows(g, lo + 1)[i - 1]);
            }
        }
    }
}

/// Whether every cell of the row holds a block.
fn row_is_full(row: &[char; 10]) -> (r: bool)
    ensures
        r == row_full(*row),
{
    let mut x: usize = 0;
    while x < 10
        invariant
            0 <= x <= 10,
            forall|j: int| 0 <= j < x ==> #[trigger] row[j] == '#',
        decreases 10 - x,
    {
        if row[x] != '#' {
            return false;
        }
        x = x + 1;
    }
    true
}

/// The well: 20 rows of 10 cells, `'#'` where a block has been fixed.
pub struct Board {
    pub grid: [[char; 10]; 20],
}

impl Board {
    /// Whether row `y`, column `x` holds a fixed block.
    pub open spec fn filled(self, y: int, x: int) -> bool {
        self.grid[y][x] == '#'
    }

    /// Whether every cell the piece covers lies on the board.
    pub open spec fn inside(now: Now) -> bool {
        forall|y: int, x: int| #[trigger] now.covers(y, x) ==> in_board(y, x)
    }

    /// Whether the piece may stand where it is: every cell it covers lies on
    /// the board and holds no fixed block.
    pub open spec fn allows(self, now: Now) -> bool {
        forall|y: int, x: int| #[trigger] now.covers(y, x) ==> in_board(y, x) && !self.filled(y, x)
    }

    /// `picture` is the board with the cells the piece covers drawn in.
    pub open spec fn is_drawn(self, now: Now, picture: [[char; 10]; 20]) -> bool {
        forall|y: int, x: int| 0 <= y < 20 && 0 <= x < 10 ==>
            #[trigger] picture[y][x] == (if now.covers(y, x) { '#' } else { self.grid[y][x] })
    }

    /// Draws the piece onto a copy of the board and returns the picture;
    /// covered cells that lie off the board are left out.
    pub fn draw_with(&self, now: &Now) -> (r: [[char; 10]; 20])
        requires
            now.fits(),
        ensures
            self.is_drawn(*now, r),
    {
        let mut draw = self.grid;
        let block_index_vec = placed_cells(now);
        let mut i: usize = 0;
        while i < block_index_vec.len()
            invariant
                0 <= i <= block_index_vec.len(),
                forall|y: int, x: int| 0 <= y < 20 && 0 <= x < 10 ==> #[trigger] draw[y][x] == (
                    if exists|k: int| 0 <= k < i && #[trigger] block_index_vec@[k] == (y as i32, x as i32) { '#' } else { self.grid[y][x] }),
            decreases block_index_vec.len() - i,
        {
            let idx = block_index_vec[i];
            if is_in_board(&idx) {
                draw[idx.0 as usize][idx.1 as usize] = '#';
            }
            proof {
                assert forall|y: int, x: int| 0 <= y < 20 && 0 <= x < 10 implies #[trigger] draw[y][x] == (
                    if exists|k: int| 0 <= k < i + 1 && #[trigger] block_index_vec@[k] == (y as i32, x as i32) { '#' } else { self.grid[y][x] }) by {
                    if block_index_vec@[i as int] == (y as i32, x as i32) {
                        assert(0 <= i < i + 1);
                    }
                }
            }
            i = i + 1;
        }
        proof {
            assert forall|y: int, x: int| 0 <= y < 20 && 0 <= x < 10 implies
                #[trigger] draw[y][x] == (if now.covers(y, x) { '#' } else { self.grid[y][x] }) by {
                let p = (y as i32, x as i32);
                if now.covers(y, x) {
                    assert(block_index_vec@.contains(p));
                    let k = choose|k: int| 0 <= k < block_index_vec@.len() && block_index_vec@[k] == p;
                    assert(block_index_vec@[k] == p);
                }
                if exists|k: int| 0 <= k < i && #[trigger] block_index_vec@[k] == p {
                    let k = choose|k: int| 0 <= k < i && #[trigger] block_index_vec@[k] == p;
                    assert(block_index_vec@.contains(p));
                }
            }
        }
        draw
    }

    /// Fixes the piece onto the board: every cell it covers becomes `'#'`.
    pub fn fix_with(&mut self, now: &Now)
        requires
            now.fits(),
            Board::inside(*now),
        ensures
            old(self).is_drawn(*now, final(self).grid),
    {
        let block_index_vec = placed_cells(now);
        let ghost before = self.grid;
        let mut i: usize = 0;
        while i < block_index_vec.len()
            invariant
                0 <= i <= block_index_vec.len(),
                Board::inside(*now),
                forall|p: (i32, i32)| #[trigger] block_index_vec@.contains(p) <==> now.covers(p.0 as int, p.1 as int),
                forall|y: int, x: int| 0 <= y < 20 && 0 <= x < 10 ==> #[trigger] self.grid[y][x] == (
                    if exists|k: int| 0 <= k < i && #[trigger] block_index_vec@[k] == (y as i32, x as i32) { '#' } else { before[y][x] }),
            decreases block_index_vec.len() - i,
        {
            let idx = block_index_vec[i];
            assert(block_index_vec@.contains(idx));
            assert(now.covers(idx.0 as int, idx.1 as int));
            self.grid[idx.0 as usize][idx.1 as usize] = '#';
            proof {
                assert forall|y: int, x: int| 0 <= y < 20 && 0 <= x < 10 implies #[trigger] self.grid[y][x] == (
                    if exists|k: int| 0 <= k < i + 1 && #[trigger] block_index_vec@[k] == (y as i32, x as i32) { '#' } else { before[y][x] }) by {
                    if block_index_vec@[i as int] == (y as i32, x as i32) {
                        assert(0 <= i < i + 1);
                    }
                }
            }
            i = i + 1;
        }
        proof {
            assert forall|y: int, x: int| 0 <= y < 20 && 0 <= x < 10 implies
                #[trigger] self.grid[y][x] == (if now.covers(y, x) { '#' } else { before[y][x] }) by {
                let p = (y as i32, x as i32);
                if now.covers(y, x) {
                    assert(block_index_vec@.contains(p));
                    let k = choose|k: int| 0 <= k < block_index_vec@.len() && block_index_vec@[k] == p;
                    assert(block_index_vec@[k] == p);
                }
                if exists|k: int| 0 <= k < i && #[trigger] block_index_vec@[k] == p {
                    let k = choose|k: int| 0 <= k < i && #[trigger] block_index_vec@[k] == p;
                    assert(block_index_vec@.contains(p));
                }
            }
        }
    }

    /// Whether the piece may stand where it is: all its cells on the board
    /// and none of them on a fixed block.
    pub fn is_possible(&self, now: &Now) -> (r: bool)
        requires
            now.fits(),
        ensures
            r == self.allows(*now),
    {
        proof { use_type_invariant(&now.block); }
        let block_index_vec = placed_cells(now);
        let mut i: usize = 0;
        while i < block_index_vec.len()
            invariant
                0 <= i <= block_index_vec.len(),
                forall|p: (i32, i32)| #[trigger] block_index_vec@.contains(p) <==> now.covers(p.0 as int, p.1 as int),
                forall|k: int| 0 <= k < i ==> in_board(#[trigger] block_index_vec@[k].0 as int, block_index_vec@[k].1 as int),
            decreases block_index_vec.len() - i,
        {
            if !is_in_board(&block_index_vec[i]) {
                proof {
                    let p = block_index_vec@[i as int];
                    assert(block_index_vec@.contains(p));
                    assert(now.covers(p.0 as int, p.1 as int));
                }
                return false
            }
            i = i + 1;
        }
        let mut j: usize = 0;
        while j < block_index_vec.len()
            invariant
                0 <= j <= block_index_vec.len(),
                forall|p: (i32, i32)| #[trigger] block_index_vec@.contains(p) <==> now.covers(p.0 as int, p.1 as int),
                forall|k: int| 0 <= k < block_index_vec.len() ==> in_board(#[trigger] block_index_vec@[k].0 as int, block_index_vec@[k].1 as int),
                forall|k: int| 0 <= k < j ==> !self.filled(#[trigger] block_index_vec@[k].0 as int, block_index_vec@[k].1 as int),
            decreases block_index_vec.len() - j,
        {
            if !self.is_empty(&block_index_vec[j]) {
                proof {
                    let p = block_index_vec@[j as int];
                    assert(block_index_vec@.contains(p));
                    assert(now.covers(p.0 as int, p.1 as int));
                }
                return false
            }
            j = j + 1;
        }
        proof {
            assert forall|y: int, x: int| #[trigger] now.covers(y, x) implies in_board(y, x) && !self.filled(y, x) by {
                let p = (y as i32, x as i32);
                assert(block_index_vec@.contains(p));
                let k = choose|k: int| 0 <= k < block_index_vec@.len() && block_index_vec@[k] == p;
                assert(in_board(block_index_vec@[k].0 as int, block_index_vec@[k].1 as int));
                assert(!self.filled(block_index_vec@[k].0 as int, block_index_vec@[k].1 as int));
            }
        }
        true
    }

    /// Whether the cell `idx` = (row, column) lies on the board and holds no block.
    pub fn is_empty(&self, idx: &(i32, i32)) -> (r: bool)
        ensures
            r == (in_board(idx.0 as int, idx.1 as int) && !self.filled(idx.0 as int, idx.1 as int)),
    {
        let yx: (usize, usize) = if is_in_board(idx) {
            (idx.0 as usize, idx.1 as usize)
        } else {
            return false
        };

        if self.grid[yx.0][yx.1] == '#' {
            return false
        } else {
            return true
        }
    }

    /// `after` and `landed` are what a hard drop of `now` makes: the piece
    /// fallen straight down through rows the board allows to the first row
    /// from which it cannot fall further, and fixed there.
    pub open spec fn drops(self, now: Now, after: Board, landed: Now) -> bool {
        &&& landed.kind == now.kind
        &&& landed.block == now.block
        &&& landed.loc.1 == now.loc.1
        &&& now.loc.0 <= landed.loc.0
        &&& forall|row: int| now.loc.0 < row <= landed.loc.0 ==> self.allows(#[trigger] now.at_row(row))
        &&& !self.allows(landed.moved(1, 0))
        &&& self.is_drawn(landed, after.grid)
    }

    /// Drops the piece straight down as far as the board allows and fixes it
    /// there. The caller then brings in the next piece.
    pub fn hard_drop(&mut self, now: &mut Now)
        requires
            old(now).is_solid(),
            old(now).loc.0 < i32::MAX,
            old(now).moved(1, 0).fits(),
            Board::inside(*old(now)) || old(self).allows(old(now).moved(1, 0)),
        ensures
            old(self).drops(*old(now), *final(self), *final(now)),
    {
        proof {
            use_type_invariant(&now.block);
            assert forall|dy: int, dx: int| #[trigger] now.block.has_cell(dy, dx) implies
                fits_i32(dy + now.loc.0) && fits_i32(dx + now.loc.1) by {
                if Board::inside(*now) {
                    assert(now.covers(dy + now.loc.0, dx + now.loc.1));
                } else {
                    assert(now.moved(1, 0).covers(dy + now.loc.0 + 1, dx + now.loc.1));
                }
            }
        }
        let ghost start = *now;
        while !is_bottom(&now, self)
            invariant
                start == *old(now),
                now.kind == start.kind,
                now.block == start.block,
                now.loc.1 == start.loc.1,
                start.loc.0 <= now.loc.0,
                now.loc.0 < i32::MAX,
                now.fits(),
                now.moved(1, 0).fits(),
                start.is_solid(),
                centre_cell(start.block.spec_origin()),
                Board::inside(*now) || self.allows(now.moved(1, 0)),
                forall|row: int| start.loc.0 < row <= now.loc.0 ==> self.allows(#[trigger] start.at_row(row)),
            decreases 21 - now.loc.0,
        {
            let ghost (dy, dx) = choose|dy: int, dx: int| #[trigger] start.block.has_cell(dy, dx);
            assert(now.moved(1, 0).covers(dy + now.loc.0 + 1, dx + now.loc.1));
            now.loc.0 += 1;
            proof {
                assert(*now == start.at_row(now.loc.0 as int));
                assert forall|ddy: int, ddx: int| #[trigger] now.block.has_cell(ddy, ddx) implies
                    fits_i32(ddy + now.loc.0 + 1) && fits_i32(ddx + now.loc.1) by {
                    assert(now.covers(ddy + now.loc.0, ddx + now.loc.1));
                }
            }
        }

        self.fix_with(&now);
    }

    /// Removes every full row; the rows above drop down in order and empty
    /// rows come in at the top. Returns how many rows were removed.
    pub fn clear_line(&mut self) -> (r: i32)
        ensures
            r == full_rows(old(self).grid, 0),
            final(self).is_cleared_from(*old(self)),
    {
        let mut new_grid = [[' '; 10]; 20];
        let mut write_y: i32 = 19;
        let mut cleard: i32 = 0;
        let ghost g = self.grid;

        let mut cur: usize = 20;
        while cur > 0
            invariant
                0 <= cur <= 20,
                g == self.grid,
                kept_rows(g, cur as int).len() + full_rows(g, cur as int) == 20 - cur,
                write_y == 19 - kept_rows(g, cur as int).len(),
                cleard == full_rows(g, cur as int),
                forall|y: int, x: int| 0 <= y <= write_y && 0 <= x < 10 ==> #[trigger] new_grid[y][x] == ' ',
                forall|y: int| write_y < y < 20 ==> #[trigger] new_grid[y] == kept_rows(g, cur as int)[y - (write_y + 1)],
            decreases cur,
        {
            let cur_y: usize = cur - 1;
            proof { lemma_kept_and_full(g, cur_y as int); }
            if row_is_full(&self.grid[cur_y]) {
                cleard += 1;
            } else {
                new_grid[write_y as usize] = self.grid[cur_y];
                write_y -= 1;
                proof {
                    let k = kept_rows(g, cur as int);
                    assert(kept_rows(g, cur_y as int) == seq![g[cur_y as int]] + k);
                    assert forall|y: int| write_y < y < 20 implies #[trigger] new_grid[y] == kept_rows(g, cur_y as int)[y - (write_y + 1)] by {
                        if y > write_y + 1 {
                            assert(kept_rows(g, cur_y as int)[y - (write_y + 1)] == k[y - (write_y + 1) - 1]);
                        }
                    }
                }
            }
            cur = cur - 1;
        }

        self.grid = new_grid;

        cleard
    }

    /// `self` is `before` with its full rows removed: the other rows, in
    /// their order, at the bottom, and empty rows above them.
    pub open spec fn is_cleared_from(self, before: Board) -> bool {
        let kept = kept_rows(before.grid, 0);
        let top = 20 - kept.len();
        &&& forall|y: int, x: int| 0 <= y < top && 0 <= x < 10 ==> #[trigger] self.grid[y][x] == ' '
        &&& forall|y: int| top <= y < 20 ==> #[trigger] self.grid[y] == kept[y - top]
    }

    /// How many rows are full.
    pub(crate) fn full_row_count(&self) -> (r: u32)
        ensures
            r == full_rows(self.grid, 0),
    {
        let mut count: u32 = 0;
        let mut lo: usize = 20;
        while lo > 0
            invariant
                0 <= lo <= 20,
                count == full_rows(self.grid, lo as int),
                full_rows(self.grid, lo as int) <= 20 - lo,
            decreases lo,
        {
            let y: usize = lo - 1;
            if row_is_full(&self.grid[y]) {
                count = count + 1;
            }
            lo = y;
        }
        count
    }

    /// The board for debugging: `'#'` where a block is fixed, `'.'` elsewhere.
    pub fn debug_picture(&self) -> (r: [[char; 10]; 20])
        ensures
            forall|y: int, x: int| 0 <= y < 20 && 0 <= x < 10 ==>
                #[trigger] r[y][x] == (if self.filled(y, x) { '#' } else { '.' }),
    {
        let mut r = [['.'; 10]; 20];
        let mut y: usize = 0;
        while y < 20
            invariant
                0 <= y <= 20,
                forall|i: int, j: int| 0 <= i < 20 && 0 <= j < 10 ==>
                    #[trigger] r[i][j] == (if i < y && self.filled(i, j) { '#' } else { '.' }),
            decreases 20 - y,
        {
            let mut x: usize = 0;
            while x < 10
                invariant
                    0 <= y < 20,
                    0 <= x <= 10,
                    forall|i: int, j: int| 0 <= i < 20 && 0 <= j < 10 ==>
                        #[trigger] r[i][j] == (if (i < y || (i == y && j < x)) && self.filled(i, j) { '#' } else { '.' }),
                decreases 10 - x,
            {
                if self.grid[y][x] == '#' {
                    r[y][x] = '#';
                } else {
                    r[y][x] = '.';
                }
                x = x + 1;
            }
            y = y + 1;
        }
        r
    }

    /// An empty board.
    pub fn new() -> (r: Board)
        ensures
            forall|y: int, x: int| 0 <= y < 20 && 0 <= x < 10 ==> #[trigger] r.grid[y][x] == ' ',
    {
        Board { grid: [[' '; 10]; 20] }
    }
}

/// The board cells the piece covers, in reading order of its picture.
fn placed_cells(now: &Now) -> (r: Vec<(i32, i32)>)
    requires
        now.fits(),
    ensures
        forall|p: (i32, i32)| #[trigger] r@.contains(p) <==> now.covers(p.0 as int, p.1 as int),
{
    proof { use_type_invariant(&now.block); }
    let cells = now.block.to_vec();
    let origin = now.loc;
    let mut result: Vec<(i32, i32)> = Vec::new();
    let mut i: usize = 0;
    while i < cells.len()
        invariant
            0 <= i <= cells.len(),
            now.fits(),
            origin == now.loc,
            forall|c: (i32, i32)| #[trigger] cells@.contains(c) <==> now.block.has_cell(c.0 as int, c.1 as int),
            result.len() == i,
            forall|k: int| 0 <= k < i ==> #[trigger] result@[k] == ((cells@[k].0 + origin.0) as i32, (cells@[k].1 + origin.1) as i32),
        decreases cells.len() - i,
    {
        let c = cells[i];
        assert(cells@.contains(c));
        assert(now.block.has_cell(c.0 as int, c.1 as int));
        result.push(vec_add(&c, &origin));
        i = i + 1;
    }
    assert forall|p: (i32, i32)| #[trigger] result@.contains(p) <==> now.covers(p.0 as int, p.1 as int) by {
        if result@.contains(p) {
            let k = choose|k: int| 0 <= k < result@.len() && result@[k] == p;
            assert(cells@.contains(cells@[k]));
        }
        if now.covers(p.0 as int, p.1 as int) {
            assert(centre_cell(now.block.spec_origin()));
            let c: (i32, i32) = ((p.0 - origin.0) as i32, (p.1 - origin.1) as i32);
            assert(now.block.has_cell(c.0 as int, c.1 as int));
            assert(cells@.contains(c));
            let k = choose|k: int| 0 <= k < cells@.len() && cells@[k] == c;
            assert(result@[k] == p);
        }
    }
    result
}

/// How many of the first `n` cells of the row hold a block.
pub open spec fn row_blocks(row: [char; 10], n: int) -> int
    decreases n,
{
    if n <= 0 { 0 } else { row_blocks(row, n - 1) + (if row[n - 1] == '#' { 1int } else { 0int }) }
}

/// How many cells of the rows `rows` hold a block.
pub open spec fn rows_blocks(rows: Seq<[char; 10]>) -> int
    decreases rows.len(),
{
    if rows.len() == 0 { 0 } else { row_blocks(rows[0], 10) + rows_blocks(rows.drop_first()) }
}

proof fn lemma_row_blocks_bounds(row: [char; 10], n: int)
    requires
        0 <= n <= 10,
    ensures
        0 <= row_blocks(row, n) <= n,
        (forall|x: int| 0 <= x < n ==> #[trigger] row[x] == '#') ==> row_blocks(row, n) == n,
        (forall|x: int| 0 <= x < n ==> #[trigger] row[x] != '#') ==> row_blocks(row, n) == 0,
    decreases n,
{
    if n > 0 {
        lemma_row_blocks_bounds(row, n - 1);
    }
}

proof fn lemma_rows_blocks_concat(a: Seq<[char; 10]>, b: Seq<[char; 10]>)
    ensures
        rows_blocks(a + b) == rows_blocks(a) + rows_blocks(b),
    decreases a.len(),
{
    if a.len() > 0 {
        lemma_rows_blocks_concat(a.drop_first(), b);
        assert((a + b).drop_first() =~= a.drop_first() + b);
    } else {
        assert(a + b =~= b);
    }
}

proof fn lemma_kept_blocks(g: [[char; 10]; 20], lo: int)
    requires
        0 <= lo <= 20,
    ensures
        rows_blocks(kept_rows(g, lo)) + 10 * full_rows(g, lo) == rows_blocks(g@.subrange(lo, 20)),
    decreases 20 - lo,
{
    if lo < 20 {
        lemma_kept_blocks(g, lo + 1);
        lemma_row_blocks_bounds(g[lo], 10);
        assert(g@.subrange(lo, 20).drop_first() =~= g@.subrange(lo + 1, 20));
        assert(g@.subrange(lo, 20)[0] == g[lo]);
        if !row_full(g[lo]) {
            assert((seq![g[lo]] + kept_rows(g, lo + 1)).drop_first() =~= kept_rows(g, lo + 1));
        }
    } else {
        assert(g@.subrange(lo, 20) =~= Seq::<[char; 10]>::empty());
    }
}

proof fn lemma_blank_rows(rows: Seq<[char; 10]>)
    requires
        forall|i: int, x: int| 0 <= i < rows.len() && 0 <= x < 10 ==> #[trigger] rows[i][x] == ' ',
    ensures
        rows_blocks(rows) == 0,
    decreases rows.len(),
{
    if rows.len() > 0 {
        lemma_row_blocks_bounds(rows[0], 10);
        assert forall|i: int, x: int| 0 <= i < rows.drop_first().len() && 0 <= x < 10 implies
            #[trigger] rows.drop_first()[i][x] == ' ' by {
            assert(rows.drop_first()[i] == rows[i + 1]);
        }
        lemma_blank_rows(rows.drop_first());
    }
}

/// Clearing removes exactly ten blocks for every row it removes: the other
/// blocks all stay on the board.
pub proof fn lemma_clear_keeps_other_blocks(before: Board, after: Board)
    requires
        after.is_cleared_from(before),
    ensures
        rows_blocks(after.grid@) == rows_blocks(before.grid@) - 10 * full_rows(before.grid, 0),
{
    let kept = kept_rows(before.grid, 0);
    lemma_kept_and_full(before.grid, 0);
    let top = 20 - kept.len();
    lemma_kept_blocks(before.grid, 0);
    assert(before.grid@.subrange(0, 20) =~= before.grid@);
    let blanks = after.grid@.subrange(0, top);
    assert(after.grid@ =~= blanks + kept) by {
        assert forall|i: int| 0 <= i < 20 implies #[trigger] after.grid@[i] == (blanks + kept)[i] by {
            if i >= top {
                assert(after.grid[i] == kept[i - top]);
            }
        }
    }
    assert forall|i: int, x: int| 0 <= i < blanks.len() && 0 <= x < 10 implies #[trigger] blanks[i][x] == ' ' by {
        assert(blanks[i] == after.grid[i]);
    }
    lemma_blank_rows(blanks);
    lemma_rows_blocks_concat(blanks, kept);
}

/// A picture of the piece on a board is unique; in particular, fixing a
/// piece gives the board exactly the picture that drawing it showed.
pub proof fn lemma_drawn_picture_unique(board: Board, now: Now, p1: [[char; 10]; 20], p2: [[char; 10]; 20])
    requires
        board.is_drawn(now, p1),
        board.is_drawn(now, p2),
    ensures
        p1 == p2,
{
    assert forall|y: int| 0 <= y < 20 implies #[trigger] p1[y] =~= p2[y] by {
        assert forall|x: int| 0 <= x < 10 implies p1[y][x] == p2[y][x] by {
            assert(p1[y][x] == p2[y][x]);
        }
    }
    assert(p1 =~= p2);
}

/// Once a piece that covers some cell is fixed, it can no longer stand where
/// it was fixed.
pub proof fn lemma_fixed_piece_blocks_itself(before: Board, after: Board, now: Now)
    requires
        before.is_drawn(now, after.grid),
        Board::inside(now),
        now.is_solid(),
    ensures
        !after.allows(now),
{
    let (dy, dx) = choose|dy: int, dx: int| #[trigger] now.block.has_cell(dy, dx);
    let y = dy + now.loc.0;
    let x = dx + now.loc.1;
    assert(now.covers(y, x));
    assert(after.grid[y][x] == '#');
}

/// After clearing, no row is full.
pub proof fn lemma_cleared_board_has_no_full_row(before: Board, after: Board)
    requires
        after.is_cleared_from(before),
    ensures
        forall|y: int| 0 <= y < 20 ==> !row_full(#[trigger] after.grid[y]),
{
    lemma_kept_and_full(before.grid, 0);
    let kept = kept_rows(before.grid, 0);
    let top = 20 - kept.len();
    assert forall|y: int| 0 <= y < 20 implies !row_full(#[trigger] after.grid[y]) by {
        if y < top {
            assert(after.grid[y][0] == ' ');
        } else {
            assert(after.grid[y] == kept[y - top]);
        }
    }
}

/// Clearing a second time removes nothing and leaves the board as it was.
pub proof fn lemma_clear_twice(before: Board, mid: Board, after: Board)
    requires
        mid.is_cleared_from(before),
        after.is_cleared_from(mid),
    ensures
        full_rows(mid.grid, 0) == 0,
        after.grid == mid.grid,
{
    lemma_cleared_board_has_no_full_row(before, mid);
    lemma_no_full_rows(mid.grid, 0);
    assert forall|y: int| 0 <= y < 20 implies #[trigger] after.grid[y] == mid.grid[y] by {
        assert(after.grid[y] == kept_rows(mid.grid, 0)[y]);
    }
    assert(after.grid =~= mid.grid);
}

} // verus!
