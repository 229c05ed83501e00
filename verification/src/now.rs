use vstd::prelude::*;
use crate::block::Block;
use crate::mino::Mino;

verus! {

/// Where a new piece appears: row 1, column 4 of the board.
pub open spec fn spawn_loc() -> (i32, i32) {
    (1i32, 4i32)
}

/// The row and column at which a new piece appears.
pub fn origin_loc() -> (r: (i32, i32))
    ensures
        r == spawn_loc(),
{
    (1, 4)
}

/// Whether `v` can be held in an `i32`.
pub open spec fn fits_i32(v: int) -> bool {
    i32::MIN <= v <= i32::MAX
}

/// The piece under the player's control: its kind, its (possibly turned)
/// block, and the board cell (row, column) where the block's turning cell is.
#[derive(Clone, Copy, Debug)]
pub struct Now {
    pub kind: Mino,
    pub block: Block,
    pub loc: (i32, i32),
}

impl Now {
    /// Whether the piece covers board row `y`, column `x`.
    pub open spec fn covers(self, y: int, x: int) -> bool {
        self.block.has_cell(y - self.loc.0, x - self.loc.1)
    }

    /// Whether the piece covers at least one cell.
    pub open spec fn is_solid(self) -> bool {
        exists|dy: int, dx: int| #[trigger] self.block.has_cell(dy, dx)
    }

    /// Whether the row and column of every covered cell can be held in an `i32`.
    pub open spec fn fits(self) -> bool {
        forall|dy: int, dx: int| #[trigger] self.block.has_cell(dy, dx) ==>
            fits_i32(dy + self.loc.0) && fits_i32(dx + self.loc.1)
    }

    /// The same piece, placed at `loc`.
    pub open spec fn at(self, loc: (i32, i32)) -> Now {
        Now { kind: self.kind, block: self.block, loc: loc }
    }

    /// The same piece, moved `dy` rows down and `dx` columns right.
    pub open spec fn moved(self, dy: int, dx: int) -> Now {
        self.at(((self.loc.0 + dy) as i32, (self.loc.1 + dx) as i32))
    }

    /// The same piece, with its turning cell moved to row `row`.
    pub open spec fn at_row(self, row: int) -> Now {
        self.at((row as i32, self.loc.1))
    }

    /// A fresh piece of kind `mino`, at the spawn cell.
    pub fn init_with(mino: Mino) -> (r: Now)
        ensures
            r.kind == mino,
            r.block.is_fresh(mino),
            r.loc == spawn_loc(),
    {
        let kind = mino;
        let block = Block::new(mino);
        let loc = origin_loc();
        Now { kind: kind, block: block, loc: loc }
    }
}

} // verus!
