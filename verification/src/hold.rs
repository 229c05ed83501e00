use vstd::prelude::*;
use crate::bag::Next;
use crate::mino::Mino;
use crate::now::{Now, spawn_loc};

verus! {

/// The held piece (`Empty` when none is held) and whether the player may
/// hold now; holding is allowed once per piece.
pub struct Hold {
    pub kind: Mino,
    pub can_hold: bool,
}

impl Hold {
    /// What holding makes of hold `h0`, piece `x0` and queue `n0`: nothing
    /// when holding is not allowed; otherwise the piece goes on hold,
    /// holding is forbidden, and the piece that comes in, fresh at the spawn
    /// cell, is the held one, or the front of the queue when none was held.
    pub open spec fn holds(h0: Hold, x0: Now, n0: Next, h1: Hold, x1: Now, n1: Next) -> bool {
        &&& !h0.can_hold ==> h1 == h0 && x1 == x0 && n1.blocks == n0.blocks && n1.bag@ == n0.bag@
        &&& h0.can_hold ==> {
            &&& h1.kind == x0.kind
            &&& !h1.can_hold
            &&& x1.loc == spawn_loc()
            &&& h0.kind == Mino::Empty ==> {
                &&& Next::gives(n0, n1, x1.kind)
                &&& x1.block.is_fresh(x1.kind)
            }
            &&& h0.kind != Mino::Empty ==> {
                &&& x1.kind == h0.kind
                &&& x1.block.is_fresh(h0.kind)
                &&& n1.blocks == n0.blocks
                &&& n1.bag@ == n0.bag@
            }
        }
    }

    /// Puts the current piece on hold. With nothing held yet, the next piece
    /// of the queue comes in; otherwise the held piece comes back, fresh at
    /// the spawn cell. Does nothing when holding is not allowed, and forbids
    /// it afterwards.
    pub fn holding(&mut self, now: &mut Now, next: &mut Next)
        ensures
            Hold::holds(*old(self), *old(now), *old(next), *final(self), *final(now), *final(next)),
            old(next).wf() ==> final(next).wf(),
    {
        if !self.can_hold {
            return
        }

        if self.kind == Mino::Empty {
            // nothing held yet: hold the current piece, bring in the next one
            self.kind = now.kind;
            *now = Now::init_with(next.give_block());
        } else {
            // swap the current piece with the held one
            let temp = self.kind;
            self.kind = now.kind;
            *now = Now::init_with(temp);
        }

        self.can_hold = false;
    }

    /// Nothing held, and holding allowed.
    pub fn new() -> (r: Hold)
        ensures
            r.kind == Mino::Empty,
            r.can_hold,
    {
        Hold { kind: Mino::Empty, can_hold: true }
    }
}

/// Holding swaps: with real pieces held and in play, holding twice (allowed again
/// in between) brings back the piece that was in play and leaves the held
/// piece and the queue as they were.
pub proof fn lemma_hold_twice_swaps_back(
    h0: Hold, x0: Now, n0: Next,
    h1: Hold, x1: Now, n1: Next,
    h2: Hold, x2: Now, n2: Next,
)
    requires
        h0.can_hold,
        h0.kind != Mino::Empty,
        x0.kind != Mino::Empty,
        Hold::holds(h0, x0, n0, h1, x1, n1),
        Hold::holds(Hold { kind: h1.kind, can_hold: true }, x1, n1, h2, x2, n2),
    ensures
        x2.kind == x0.kind,
        h2.kind == h0.kind,
        x1.kind == h0.kind,
        h1.kind == x0.kind,
        n2.blocks == n0.blocks,
        n2.bag@ == n0.bag@,
{
}

} // verus!
