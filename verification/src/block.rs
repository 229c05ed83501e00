use vstd::prelude::*;
use crate::mino::{Mino, piece_char};

verus! {

/// A piece's 4x4 picture together with the cell of the picture it turns about.
///
/// The turning cell is one of the four centre cells of the picture; a block
/// made by [`Block::new`] starts with it at row 1, column 1 and the rotations
/// move it round the other three.
#[derive(Clone, Copy, Debug)]
pub struct Block {
    shape: [[char; 4]; 4],
    origin: (i32, i32),
}

/// The four centre cells, the only places where a block's turning cell can be.
pub open spec fn centre_cell(o: (i32, i32)) -> bool {
    (o.0 == 1 || o.0 == 2) && (o.1 == 1 || o.1 == 2)
}

impl Block {
    /// Every block turns about one of the four centre cells of its picture.
    #[verifier::type_invariant]
    pub open spec fn well_formed(self) -> bool {
        centre_cell(self.spec_origin())
    }

    /// The picture, cell by cell.
    pub closed spec fn cell(self, y: int, x: int) -> char {
        self.shape[y][x]
    }

    /// The turning cell (row, column) inside the picture.
    pub closed spec fn spec_origin(self) -> (i32, i32) {
        self.origin
    }

    /// Whether the block covers the cell `dy` rows below and `dx` columns to
    /// the right of its turning cell.
    pub open spec fn has_cell(self, dy: int, dx: int) -> bool {
        let y = dy + self.spec_origin().0;
        let x = dx + self.spec_origin().1;
        0 <= y < 4 && 0 <= x < 4 && self.cell(y, x) == '#'
    }

    /// `self` is `before` turned a quarter clockwise.
    pub open spec fn is_turned_right(self, before: Block) -> bool {
        &&& self.spec_origin() == (before.spec_origin().1, (3 - before.spec_origin().0) as i32)
        &&& forall|y: int, x: int| 0 <= y < 4 && 0 <= x < 4 ==> #[trigger] self.cell(y, x) == before.cell(3 - x, y)
    }

    /// `self` is `before` turned a quarter anticlockwise.
    pub open spec fn is_turned_left(self, before: Block) -> bool {
        &&& self.spec_origin() == ((3 - before.spec_origin().1) as i32, before.spec_origin().0)
        &&& forall|y: int, x: int| 0 <= y < 4 && 0 <= x < 4 ==> #[trigger] self.cell(y, x) == before.cell(x, 3 - y)
    }

    /// The offsets from the turning cell of the filled cells of row `y`
    /// among its first `n` columns, left to right.
    pub open spec fn row_cells(self, y: int, n: int) -> Seq<(i32, i32)>
        decreases n,
    {
        if n <= 0 {
            seq![]
        } else {
            let prev = self.row_cells(y, n - 1);
            if self.cell(y, n - 1) == '#' {
                prev.push(((y - self.spec_origin().0) as i32, (n - 1 - self.spec_origin().1) as i32))
            } else {
                prev
            }
        }
    }

    /// The offsets of the filled cells of the first `m` rows, row by row.
    pub open spec fn rows_cells(self, m: int) -> Seq<(i32, i32)>
        decreases m,
    {
        if m <= 0 {
            seq![]
        } else {
            self.rows_cells(m - 1) + self.row_cells(m - 1, 4)
        }
    }

    /// The offsets from the turning cell of all filled cells, in reading
    /// order (top row first, left to right).
    pub open spec fn cells(self) -> Seq<(i32, i32)> {
        self.rows_cells(4)
    }

    proof fn lemma_row_cells(self, y: int, n: int)
        requires
            centre_cell(self.origin),
            0 <= y < 4,
            0 <= n <= 4,
        ensures
            forall|c: (i32, i32)| #[trigger] self.row_cells(y, n).contains(c) <==>
                (self.has_cell(c.0 as int, c.1 as int) && c.0 + self.origin.0 == y && c.1 + self.origin.1 < n),
        decreases n,
    {
        if n > 0 {
            self.lemma_row_cells(y, n - 1);
            let prev = self.row_cells(y, n - 1);
            if self.cell(y, n - 1) == '#' {
                let e = ((y - self.origin.0) as i32, (n - 1 - self.origin.1) as i32);
                assert forall|c: (i32, i32)| #[trigger] prev.push(e).contains(c) <==> (prev.contains(c) || c == e) by {
                    if c == e {
                        assert(prev.push(e)[prev.len() as int] == e);
                    }
                    if prev.push(e).contains(c) {
                        let k = choose|k: int| 0 <= k < prev.push(e).len() && prev.push(e)[k] == c;
                        if k < prev.len() {
                            assert(prev[k] == c);
                        }
                    }
                    if prev.contains(c) {
                        let k = choose|k: int| 0 <= k < prev.len() && prev[k] == c;
                        assert(prev.push(e)[k] == c);
                    }
                }
            }
        }
    }

    proof fn lemma_rows_cells(self, m: int)
        requires
            centre_cell(self.origin),
            0 <= m <= 4,
        ensures
            forall|c: (i32, i32)| #[trigger] self.rows_cells(m).contains(c) <==>
                (self.has_cell(c.0 as int, c.1 as int) && c.0 + self.origin.0 < m),
        decreases m,
    {
        if m > 0 {
            self.lemma_rows_cells(m - 1);
            self.lemma_row_cells(m - 1, 4);
            let a = self.rows_cells(m - 1);
            let b = self.row_cells(m - 1, 4);
            assert forall|c: (i32, i32)| #[trigger] (a + b).contains(c) <==> (a.contains(c) || b.contains(c)) by {
                if (a + b).contains(c) {
                    let k = choose|k: int| 0 <= k < (a + b).len() && (a + b)[k] == c;
                    if k < a.len() {
                        assert(a[k] == c);
                    } else {
                        assert(b[k - a.len()] == c);
                    }
                }
                if a.contains(c) {
                    let k = choose|k: int| 0 <= k < a.len() && a[k] == c;
                    assert((a + b)[k] == c);
                }
                if b.contains(c) {
                    let k = choose|k: int| 0 <= k < b.len() && b[k] == c;
                    assert((a + b)[k + a.len()] == c);
                }
            }
        }
    }

    /// `self` is the block of `kind` as it first appears: the kind's picture,
    /// turning about row 1, column 1.
    pub open spec fn is_fresh(self, kind: Mino) -> bool {
        &&& self.spec_origin() == (1i32, 1i32)
        &&& forall|y: int, x: int| 0 <= y < 4 && 0 <= x < 4 ==> #[trigger] self.cell(y, x) == piece_char(kind, y, x)
    }

    pub fn new(kind: Mino) -> (r: Block)
        ensures
            r.is_fresh(kind),
    {
        Block { shape: kind.shape(), origin: (1, 1) }
    }

    /// The offsets from the turning cell of the filled cells of the picture,
    /// in reading order.
    pub fn to_vec(&self) -> (r: Vec<(i32, i32)>)
        ensures
            r@ == self.cells(),
            forall|c: (i32, i32)| #[trigger] r@.contains(c) <==> self.has_cell(c.0 as int, c.1 as int),
    {
        proof { use_type_invariant(self); }
        let mut result: Vec<(i32, i32)> = Vec::new();
        let mut y: usize = 0;
        while y < 4
            invariant
                0 <= y <= 4,
                centre_cell(self.origin),
                result@ == self.rows_cells(y as int),
            decreases 4 - y,
        {
            let mut x: usize = 0;
            while x < 4
                invariant
                    0 <= y < 4,
                    0 <= x <= 4,
                    centre_cell(self.origin),
                    result@ == self.rows_cells(y as int) + self.row_cells(y as int, x as int),
                decreases 4 - x,
            {
                if self.shape[y][x] == '#' {
                    let yy: i32 = y as i32;
                    let xx: i32 = x as i32;
                    result.push((yy - self.origin.0, xx - self.origin.1));
                }
                proof {
                    assert(self.rows_cells(y as int) + self.row_cells(y as int, x + 1) =~= result@);
                }
                x = x + 1;
            }
            proof {
                assert(self.rows_cells(y + 1) =~= self.rows_cells(y as int) + self.row_cells(y as int, 4));
            }
            y = y + 1;
        }
        proof {
            self.lemma_rows_cells(4);
        }
        result
    }

    pub fn rotate_right(&mut self)
        ensures
            final(self).is_turned_right(*old(self)),
    {
        proof { use_type_invariant(&*self); }
        let mut rotated = [[' '; 4]; 4];
        let mut y: usize = 0;
        while y < 4
            invariant
                0 <= y <= 4,
                forall|i: int, j: int| 0 <= i < 4 && 0 <= j < 4 ==> #[trigger] rotated[i][j] == (if 3 - j < y { self.shape[3 - j][i] } else { ' ' }),
            decreases 4 - y,
        {
            let mut x: usize = 0;
            while x < 4
                invariant
                    0 <= y < 4,
                    0 <= x <= 4,
                    forall|i: int, j: int| 0 <= i < 4 && 0 <= j < 4 ==> #[trigger] rotated[i][j] == (if 3 - j < y || (3 - j == y && i < x) { self.shape[3 - j][i] } else { ' ' }),
                decreases 4 - x,
            {
                rotated[x][3 - y] = self.shape[y][x];
                x = x + 1;
            }
            y = y + 1;
        }
        let (oy, ox) = self.origin;
        self.shape = rotated;
        self.origin.0 = ox;
        self.origin.1 = 3 - oy;
    }

    pub fn rotate_left(&mut self)
        ensures
            final(self).is_turned_left(*old(self)),
    {
        proof { use_type_invariant(&*self); }
        let mut rotated = [[' '; 4]; 4];
        let mut y: usize = 0;
        while y < 4
            invariant
                0 <= y <= 4,
                forall|i: int, j: int| 0 <= i < 4 && 0 <= j < 4 ==> #[trigger] rotated[i][j] == (if j < y { self.shape[j][3 - i] } else { ' ' }),
            decreases 4 - y,
        {
            let mut x: usize = 0;
            while x < 4
                invariant
                    0 <= y < 4,
                    0 <= x <= 4,
                    forall|i: int, j: int| 0 <= i < 4 && 0 <= j < 4 ==> #[trigger] rotated[i][j] == (if j < y || (j == y && 3 - i < x) { self.shape[j][3 - i] } else { ' ' }),
                decreases 4 - x,
            {
                rotated[3 - x][y] = self.shape[y][x];
                x = x + 1;
            }
            y = y + 1;
        }
        let (oy, ox) = self.origin;
        self.shape = rotated;
        self.origin.0 = 3 - ox;
        self.origin.1 = oy;
    }

    /// The picture.
    pub fn shape(&self) -> (r: [[char; 4]; 4])
        ensures
            forall|y: int, x: int| 0 <= y < 4 && 0 <= x < 4 ==> #[trigger] r[y][x] == self.cell(y, x),
    {
        self.shape
    }

    /// The picture for debugging: `'#'` where filled, `'.'` elsewhere.
    pub fn debug_picture(&self) -> (r: [[char; 4]; 4])
        ensures
            forall|y: int, x: int| 0 <= y < 4 && 0 <= x < 4 ==>
                #[trigger] r[y][x] == (if self.cell(y, x) != '#' { '.' } else { '#' }),
    {
        let mut r = [['.'; 4]; 4];
        let mut y: usize = 0;
        while y < 4
            invariant
                0 <= y <= 4,
                forall|i: int, j: int| 0 <= i < 4 && 0 <= j < 4 ==>
                    #[trigger] r[i][j] == (if i < y && self.cell(i, j) == '#' { '#' } else { '.' }),
            decreases 4 - y,
        {
            let mut x: usize = 0;
            while x < 4
                invariant
                    0 <= y < 4,
                    0 <= x <= 4,
                    forall|i: int, j: int| 0 <= i < 4 && 0 <= j < 4 ==>
                        #[trigger] r[i][j] == (if (i < y || (i == y && j < x)) && self.cell(i, j) == '#' { '#' } else { '.' }),
                decreases 4 - x,
            {
                let c = self.shape[y][x];
                r[y][x] = if c != '#' { '.' } else { c };
                x = x + 1;
            }
            y = y + 1;
        }
        r
    }

    /// The turning cell (row, column) inside the picture.
    pub fn origin(&self) -> (r: (i32, i32))
        ensures
            r == self.spec_origin(),
            centre_cell(r),
    {
        proof { use_type_invariant(self); }
        self.origin
    }

    proof fn lemma_same_cells_same_block(a: Block, b: Block)
        requires
            a.origin == b.origin,
            forall|y: int, x: int| 0 <= y < 4 && 0 <= x < 4 ==> #[trigger] a.cell(y, x) == b.cell(y, x),
        ensures
            a == b,
    {
        assert forall|y: int| 0 <= y < 4 implies #[trigger] a.shape[y] =~= b.shape[y] by {
            assert forall|x: int| 0 <= x < 4 implies a.shape[y][x] == b.shape[y][x] by {
                assert(a.cell(y, x) == b.cell(y, x));
            }
        }
        assert(a.shape =~= b.shape);
    }
}

/// The filled cells of a block, as offsets from its turning cell.
pub open spec fn cell_set(b: Block) -> Set<(i32, i32)> {
    Set::new(|c: (i32, i32)| b.has_cell(c.0 as int, c.1 as int))
}

/// The cells of a block are listed once each, and they are exactly its
/// filled cells.
proof fn lemma_cells_are_cell_set(b: Block)
    requires
        centre_cell(b.spec_origin()),
    ensures
        b.cells().no_duplicates(),
        b.cells().to_set() == cell_set(b),
        b.cells().len() == cell_set(b).len(),
{
    lemma_rows_nodup(b, 4);
    b.lemma_rows_cells(4);
    assert(b.cells().to_set() =~= cell_set(b));
    b.cells().unique_seq_to_set();
}

proof fn lemma_row_nodup(b: Block, y: int, n: int)
    requires
        centre_cell(b.spec_origin()),
        0 <= y < 4,
        0 <= n <= 4,
    ensures
        b.row_cells(y, n).no_duplicates(),
    decreases n,
{
    if n > 0 {
        lemma_row_nodup(b, y, n - 1);
        b.lemma_row_cells(y, n - 1);
        let prev = b.row_cells(y, n - 1);
        if b.cell(y, n - 1) == '#' {
            let e = ((y - b.spec_origin().0) as i32, (n - 1 - b.spec_origin().1) as i32);
            assert(!prev.contains(e));
            assert forall|i: int, j: int| 0 <= i < prev.push(e).len() && 0 <= j < prev.push(e).len() && i != j
                implies prev.push(e)[i] != prev.push(e)[j] by {
                if i == prev.len() {
                    assert(prev.contains(prev[j]));
                } else if j == prev.len() {
                    assert(prev.contains(prev[i]));
                }
            }
        }
    }
}

proof fn lemma_rows_nodup(b: Block, m: int)
    requires
        centre_cell(b.spec_origin()),
        0 <= m <= 4,
    ensures
        b.rows_cells(m).no_duplicates(),
    decreases m,
{
    if m > 0 {
        lemma_rows_nodup(b, m - 1);
        lemma_row_nodup(b, m - 1, 4);
        b.lemma_rows_cells(m - 1);
        b.lemma_row_cells(m - 1, 4);
        let a = b.rows_cells(m - 1);
        let r = b.row_cells(m - 1, 4);
        assert forall|i: int, j: int| 0 <= i < a.len() && 0 <= j < r.len() implies a[i] != r[j] by {
            assert(a.contains(a[i]));
            assert(r.contains(r[j]));
        }
        vstd::seq_lib::lemma_no_dup_in_concat(a, r);
    }
}

/// A quarter turn keeps the number of cells.
pub proof fn lemma_turn_keeps_cell_count(a: Block, b: Block, c: Block)
    requires
        centre_cell(a.spec_origin()),
        b.is_turned_right(a),
        c.is_turned_left(a),
    ensures
        b.cells().len() == a.cells().len(),
        c.cells().len() == a.cells().len(),
{
    lemma_turn_right_cells(a, b);
    lemma_turn_left_cells(a, c);
    lemma_cells_are_cell_set(a);
    lemma_cells_are_cell_set(b);
    lemma_cells_are_cell_set(c);
    let sa = cell_set(a);
    let fr = |p: (i32, i32)| (p.1, (-p.0) as i32);
    let fl = |p: (i32, i32)| ((-p.1) as i32, p.0);
    assert(sa.finite()) by {
        a.cells().lemma_cardinality_of_set();
        vstd::seq_lib::seq_to_set_is_finite(a.cells());
    }
    assert forall|p: (i32, i32), q: (i32, i32)| sa.contains(p) && sa.contains(q) && #[trigger] fr(p) == #[trigger] fr(q)
        implies p == q by {}
    assert forall|p: (i32, i32), q: (i32, i32)| sa.contains(p) && sa.contains(q) && #[trigger] fl(p) == #[trigger] fl(q)
        implies p == q by {}
    assert(sa.map(fr) =~= cell_set(b)) by {
        assert forall|d: (i32, i32)| #[trigger] cell_set(b).contains(d) implies sa.map(fr).contains(d) by {
            let p: (i32, i32) = ((-d.1) as i32, d.0);
            assert(sa.contains(p));
            assert(fr(p) == d);
        }
    }
    assert(sa.map(fl) =~= cell_set(c)) by {
        assert forall|d: (i32, i32)| #[trigger] cell_set(c).contains(d) implies sa.map(fl).contains(d) by {
            let p: (i32, i32) = (d.1, (-d.0) as i32);
            assert(sa.contains(p));
            assert(fl(p) == d);
        }
    }
    vstd::set_lib::lemma_map_size(sa, cell_set(b), fr);
    vstd::set_lib::lemma_map_size(sa, cell_set(c), fl);
}

/// Every piece is made of four cells; the empty piece of none.
pub proof fn lemma_fresh_block_cells(b: Block, kind: Mino)
    requires
        b.is_fresh(kind),
    ensures
        b.cells().len() == (if kind == Mino::Empty { 0int } else { 4int }),
{
    reveal_with_fuel(Block::row_cells, 5);
    reveal_with_fuel(Block::rows_cells, 5);
    assert(b.cell(0, 0) == piece_char(kind, 0, 0));
    assert(b.cell(0, 1) == piece_char(kind, 0, 1));
    assert(b.cell(0, 2) == piece_char(kind, 0, 2));
    assert(b.cell(0, 3) == piece_char(kind, 0, 3));
    assert(b.cell(1, 0) == piece_char(kind, 1, 0));
    assert(b.cell(1, 1) == piece_char(kind, 1, 1));
    assert(b.cell(1, 2) == piece_char(kind, 1, 2));
    assert(b.cell(1, 3) == piece_char(kind, 1, 3));
    assert(b.cell(2, 0) == piece_char(kind, 2, 0));
    assert(b.cell(2, 1) == piece_char(kind, 2, 1));
    assert(b.cell(2, 2) == piece_char(kind, 2, 2));
    assert(b.cell(2, 3) == piece_char(kind, 2, 3));
    assert(b.cell(3, 0) == piece_char(kind, 3, 0));
    assert(b.cell(3, 1) == piece_char(kind, 3, 1));
    assert(b.cell(3, 2) == piece_char(kind, 3, 2));
    assert(b.cell(3, 3) == piece_char(kind, 3, 3));
    assert(b.rows_cells(1).len() == b.row_cells(0, 4).len());
    assert(b.rows_cells(2).len() == b.rows_cells(1).len() + b.row_cells(1, 4).len());
    assert(b.rows_cells(3).len() == b.rows_cells(2).len() + b.row_cells(2, 4).len());
    assert(b.rows_cells(4).len() == b.rows_cells(3).len() + b.row_cells(3, 4).len());
}

/// A fresh piece covers its own turning cell, and all its cells lie in the
/// turning cell's row or the row above, from one column left of it to two
/// columns right.
pub proof fn lemma_fresh_block_shape(b: Block, kind: Mino)
    requires
        b.is_fresh(kind),
        kind != Mino::Empty,
    ensures
        b.has_cell(0, 0),
        forall|dy: int, dx: int| #[trigger] b.has_cell(dy, dx) ==> -1 <= dy <= 0 && -1 <= dx <= 2,
{
    assert(b.cell(1, 1) == piece_char(kind, 1, 1));
    assert forall|dy: int, dx: int| #[trigger] b.has_cell(dy, dx) implies -1 <= dy <= 0 && -1 <= dx <= 2 by {
        assert(b.cell(dy + 1, dx + 1) == piece_char(kind, dy + 1, dx + 1));
    }
}

/// A block has only one clockwise and one anticlockwise quarter turn.
pub proof fn lemma_turn_unique(a: Block, b1: Block, b2: Block, c1: Block, c2: Block)
    requires
        b1.is_turned_right(a),
        b2.is_turned_right(a),
        c1.is_turned_left(a),
        c2.is_turned_left(a),
    ensures
        b1 == b2,
        c1 == c2,
{
    assert forall|y: int, x: int| 0 <= y < 4 && 0 <= x < 4 implies #[trigger] b1.cell(y, x) == b2.cell(y, x) by {
        assert(b1.cell(y, x) == a.cell(3 - x, y));
    }
    assert forall|y: int, x: int| 0 <= y < 4 && 0 <= x < 4 implies #[trigger] c1.cell(y, x) == c2.cell(y, x) by {
        assert(c1.cell(y, x) == a.cell(x, 3 - y));
    }
    Block::lemma_same_cells_same_block(b1, b2);
    Block::lemma_same_cells_same_block(c1, c2);
}

/// Turning a block clockwise and then anticlockwise gives back the same block.
pub proof fn lemma_turn_right_then_left(a: Block, b: Block, c: Block)
    requires
        centre_cell(a.spec_origin()),
        b.is_turned_right(a),
        c.is_turned_left(b),
    ensures
        c == a,
{
    assert forall|y: int, x: int| 0 <= y < 4 && 0 <= x < 4 implies #[trigger] c.cell(y, x) == a.cell(y, x) by {
        assert(c.cell(y, x) == b.cell(x, 3 - y));
        assert(b.cell(x, 3 - y) == a.cell(y, x));
    }
    Block::lemma_same_cells_same_block(c, a);
}

/// Turning a block anticlockwise and then clockwise gives back the same block.
pub proof fn lemma_turn_left_then_right(a: Block, b: Block, c: Block)
    requires
        centre_cell(a.spec_origin()),
        b.is_turned_left(a),
        c.is_turned_right(b),
    ensures
        c == a,
{
    assert forall|y: int, x: int| 0 <= y < 4 && 0 <= x < 4 implies #[trigger] c.cell(y, x) == a.cell(y, x) by {
        assert(c.cell(y, x) == b.cell(3 - x, y));
        assert(b.cell(3 - x, y) == a.cell(y, x));
    }
    Block::lemma_same_cells_same_block(c, a);
}

/// Four clockwise quarter turns give back the same block.
pub proof fn lemma_four_right_turns(a: Block, b: Block, c: Block, d: Block, e: Block)
    requires
        centre_cell(a.spec_origin()),
        b.is_turned_right(a),
        c.is_turned_right(b),
        d.is_turned_right(c),
        e.is_turned_right(d),
    ensures
        e == a,
{
    assert forall|y: int, x: int| 0 <= y < 4 && 0 <= x < 4 implies #[trigger] e.cell(y, x) == a.cell(y, x) by {
        assert(e.cell(y, x) == d.cell(3 - x, y));
        assert(d.cell(3 - x, y) == c.cell(3 - y, 3 - x));
        assert(c.cell(3 - y, 3 - x) == b.cell(x, 3 - y));
        assert(b.cell(x, 3 - y) == a.cell(y, x));
    }
    Block::lemma_same_cells_same_block(e, a);
}

/// A clockwise turn is a turn about the turning cell: the block covers the
/// offset (dy, dx) afterwards exactly when it covered (-dx, dy) before.
pub proof fn lemma_turn_right_cells(a: Block, b: Block)
    requires
        centre_cell(a.spec_origin()),
        b.is_turned_right(a),
    ensures
        forall|dy: int, dx: int| #[trigger] b.has_cell(dy, dx) == a.has_cell(-dx, dy),
{
    assert forall|dy: int, dx: int| #[trigger] b.has_cell(dy, dx) == a.has_cell(-dx, dy) by {
        let y = dy + b.spec_origin().0;
        let x = dx + b.spec_origin().1;
        if 0 <= y < 4 && 0 <= x < 4 {
            assert(b.cell(y, x) == a.cell(3 - x, y));
        }
    }
}

/// An anticlockwise turn is a turn about the turning cell: the block covers
/// the offset (dy, dx) afterwards exactly when it covered (dx, -dy) before.
pub proof fn lemma_turn_left_cells(a: Block, b: Block)
    requires
        centre_cell(a.spec_origin()),
        b.is_turned_left(a),
    ensures
        forall|dy: int, dx: int| #[trigger] b.has_cell(dy, dx) == a.has_cell(dx, -dy),
{
    assert forall|dy: int, dx: int| #[trigger] b.has_cell(dy, dx) == a.has_cell(dx, -dy) by {
        let y = dy + b.spec_origin().0;
        let x = dx + b.spec_origin().1;
        if 0 <= y < 4 && 0 <= x < 4 {
            assert(b.cell(y, x) == a.cell(x, 3 - y));
        }
    }
}

} // verus!
