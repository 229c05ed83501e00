use vstd::prelude::*;
use rand::seq::SliceRandom;
use crate::mino::{Mino, seven_pieces};

verus! {

broadcast use vstd::seq_lib::group_to_multiset_ensures;

/// Puts the pieces in a random order with `rand::seq::SliceRandom::shuffle`
/// and the thread-local generator. rand shuffles by swapping elements
/// (Fisher-Yates), so the contract claims that the result is a rearrangement
/// of the input; which rearrangement is chance and is not stated, nor is
/// rand's start-up panic when the system offers no randomness.
#[verifier::external_body]
fn shuffle_pieces(pieces: &mut Vec<Mino>)
    ensures
        final(pieces)@.to_multiset() == old(pieces)@.to_multiset(),
{
    let mut rng = rand::thread_rng();
    pieces.shuffle(&mut rng);
}

/// `d` holds each of the seven real pieces exactly once, in some order.
pub open spec fn is_full_set(d: Seq<Mino>) -> bool {
    d.to_multiset() == seven_pieces().to_multiset()
}

/// A full set has seven entries, none of them `Empty`.
pub proof fn lemma_full_set(d: Seq<Mino>)
    requires
        is_full_set(d),
    ensures
        d.len() == 7,
        forall|i: int| 0 <= i < d.len() ==> #[trigger] d[i] != Mino::Empty,
{
    assert(seven_pieces().to_multiset().len() == 7);
    assert forall|i: int| 0 <= i < d.len() implies #[trigger] d[i] != Mino::Empty by {
        assert(d.contains(d[i]));
        assert(d.to_multiset().count(d[i]) > 0);
        if d[i] == Mino::Empty {
            assert(!seven_pieces().contains(Mino::Empty));
        }
    }
}

/// Pieces are dealt in the order of [`Next::upcoming`], and a full set of
/// the seven pieces joins the end whenever the bag runs out: every piece
/// dealt is the first upcoming one, and taking it leaves the rest in order.
pub proof fn lemma_deal_order(before: Next, after: Next, r: Mino)
    requires
        Next::gives(before, after, r),
    ensures
        r == before.upcoming()[0],
        before.bag@.len() > 0 ==> after.upcoming() == before.upcoming().drop_first(),
        before.bag@.len() == 0 ==> exists|d: Seq<Mino>| #[trigger] is_full_set(d)
            && after.upcoming() == before.upcoming().drop_first() + d,
{
    let bag = before.bag@;
    if bag.len() > 0 {
        assert(bag.reverse() =~= seq![bag.last()] + bag.drop_last().reverse());
        assert(after.blocks@ =~= before.blocks@.drop_first().push(bag.last()));
        assert(after.upcoming() =~= before.upcoming().drop_first());
    } else {
        let d = choose|d: Seq<Mino>| #[trigger] is_full_set(d)
            && after.blocks[3] == d.last() && after.bag@ == d.drop_last();
        lemma_full_set(d);
        d.lemma_reverse_to_multiset();
        assert(d.reverse() =~= seq![d.last()] + d.drop_last().reverse());
        assert(after.blocks@ =~= before.blocks@.drop_first().push(d.last()));
        assert(after.upcoming() =~= before.upcoming().drop_first() + d.reverse());
        assert(is_full_set(d.reverse()));
    }
}

proof fn lemma_deals_prefix(nexts: Seq<Next>, dealt: Seq<Mino>, n: int, k: int)
    requires
        nexts.len() == n + 1,
        dealt.len() == n,
        forall|i: int| 0 <= i < n ==> Next::gives(#[trigger] nexts[i], nexts[i + 1], dealt[i]),
        n <= nexts[0].upcoming().len(),
        0 <= k <= n,
    ensures
        nexts[k].upcoming().len() >= nexts[0].upcoming().len() - k,
        forall|j: int| 0 <= j < nexts[0].upcoming().len() - k ==> #[trigger] nexts[k].upcoming()[j] == nexts[0].upcoming()[j + k],
        forall|j: int| 0 <= j < k ==> #[trigger] dealt[j] == nexts[0].upcoming()[j],
    decreases k,
{
    if k > 0 {
        lemma_deals_prefix(nexts, dealt, n, k - 1);
        let before = nexts[k - 1];
        let after = nexts[k];
        assert(Next::gives(before, after, dealt[k - 1]));
        lemma_deal_order(before, after, dealt[k - 1]);
        if before.bag@.len() == 0 {
            let d = choose|d: Seq<Mino>| #[trigger] is_full_set(d)
                && after.upcoming() == before.upcoming().drop_first() + d;
            assert forall|j: int| 0 <= j < nexts[0].upcoming().len() - k implies
                #[trigger] after.upcoming()[j] == nexts[0].upcoming()[j + k] by {
                assert(after.upcoming()[j] == before.upcoming()[j + 1]);
            }
        } else {
            assert forall|j: int| 0 <= j < nexts[0].upcoming().len() - k implies
                #[trigger] after.upcoming()[j] == nexts[0].upcoming()[j + k] by {
                assert(after.upcoming()[j] == before.upcoming()[j + 1]);
            }
        }
    }
}

/// Dealing `n` pieces in a row deals the first `n` upcoming ones, in order.
pub proof fn lemma_deals_follow_upcoming(nexts: Seq<Next>, dealt: Seq<Mino>, n: int)
    requires
        nexts.len() == n + 1,
        dealt.len() == n,
        forall|i: int| 0 <= i < n ==> Next::gives(#[trigger] nexts[i], nexts[i + 1], dealt[i]),
        n <= nexts[0].upcoming().len(),
    ensures
        dealt == nexts[0].upcoming().take(n),
{
    lemma_deals_prefix(nexts, dealt, n, n);
    assert(dealt =~= nexts[0].upcoming().take(n));
}

/// The queue of the next four pieces, and the bag they are drawn from.
pub struct Next {
    pub blocks: [Mino; 4],
    pub bag: Vec<Mino>,
}

impl Next {
    /// No `Empty` piece waits in the queue or in the bag.
    pub open spec fn wf(self) -> bool {
        &&& forall|i: int| 0 <= i < 4 ==> #[trigger] self.blocks[i] != Mino::Empty
        &&& forall|i: int| 0 <= i < self.bag@.len() ==> #[trigger] self.bag@[i] != Mino::Empty
    }

    /// `after` and `r` are what taking a piece from `before` gives: `r` is
    /// the front piece, the others move up, and the back is the last piece
    /// of the bag, or, when the bag was empty, of a fresh full set whose
    /// other six pieces become the bag.
    pub open spec fn gives(before: Next, after: Next, r: Mino) -> bool {
        &&& r == before.blocks[0]
        &&& after.blocks[0] == before.blocks[1]
        &&& after.blocks[1] == before.blocks[2]
        &&& after.blocks[2] == before.blocks[3]
        &&& before.bag@.len() > 0 ==> after.blocks[3] == before.bag@.last()
            && after.bag@ == before.bag@.drop_last()
        &&& before.bag@.len() == 0 ==> exists|d: Seq<Mino>| #[trigger] is_full_set(d)
            && after.blocks[3] == d.last() && after.bag@ == d.drop_last()
    }

    /// The pieces in the order they will be dealt: the queue, then the bag
    /// from its end.
    pub open spec fn upcoming(self) -> Seq<Mino> {
        self.blocks@ + self.bag@.reverse()
    }

    /// A queue filled from a freshly shuffled set of the seven pieces.
    pub fn new() -> (r: Next)
        ensures
            r.wf(),
            is_full_set(r.upcoming()),
            exists|d: Seq<Mino>| #[trigger] is_full_set(d) && r.bag@ == d.subrange(0, 3)
                && r.blocks[0] == d[6] && r.blocks[1] == d[5] && r.blocks[2] == d[4] && r.blocks[3] == d[3],
    {
        let rs_block = [Mino::Empty; 4];
        let rs_bag: Vec<Mino> = Vec::new();
        let mut rs = Next { blocks: rs_block, bag: rs_bag };

        rs.bag_init();
        let ghost d = rs.bag@;
        proof { lemma_full_set(d); }
        let mut i: usize = 0;
        while i < 4
            invariant
                0 <= i <= 4,
                is_full_set(d),
                d.len() == 7,
                rs.bag@ == d.subrange(0, 7 - i),
                forall|j: int| 0 <= j < i ==> #[trigger] rs.blocks[j] == d[6 - j],
            decreases 4 - i,
        {
            rs.blocks[i] = rs.bag.pop().unwrap();
            proof {
                assert(rs.bag@ =~= d.subrange(0, 7 - i - 1));
            }
            i = i + 1;
        }
        proof {
            lemma_full_set(d);
            assert(rs.upcoming() =~= d.reverse());
            d.lemma_reverse_to_multiset();
            assert(rs.blocks[0] == d[6]);
            assert(rs.blocks[1] == d[5]);
            assert(rs.blocks[2] == d[4]);
            assert(rs.blocks[3] == d[3]);
        }
        rs
    }

    /// Pours the pieces into the bag, last one first.
    pub fn refill_from(&mut self, minos: Vec<Mino>)
        ensures
            final(self).blocks == old(self).blocks,
            final(self).bag@ == old(self).bag@ + minos@.reverse(),
    {
        let mut minos = minos;
        let ghost given = minos@;
        while !minos.is_empty()
            invariant
                self.blocks == old(self).blocks,
                minos@ == given.subrange(0, minos@.len() as int),
                minos@.len() <= given.len(),
                self.bag@ == old(self).bag@ + given.subrange(minos@.len() as int, given.len() as int).reverse(),
            decreases minos@.len(),
        {
            let ghost before = self.bag@;
            let m = minos.pop().unwrap();
            self.bag.push(m);
            proof {
                let n = minos@.len() as int;
                assert(given.subrange(n, given.len() as int).reverse() =~=
                    given.subrange(n + 1, given.len() as int).reverse().push(given[n]));
            }
        }
        proof {
            assert(given.subrange(0, given.len() as int) =~= given);
        }
    }

    /// Adds a freshly shuffled set of the seven pieces to the bag.
    pub fn bag_init(&mut self)
        ensures
            final(self).blocks == old(self).blocks,
            exists|d: Seq<Mino>| #[trigger] is_full_set(d) && final(self).bag@ == old(self).bag@ + d,
    {
        let mut minos: Vec<Mino> = vec![Mino::O, Mino::T, Mino::I, Mino::L, Mino::J, Mino::S, Mino::Z];
        proof { assert(minos@ =~= seven_pieces()); }
        shuffle_pieces(&mut minos);
        let ghost shuffled = minos@;
        self.refill_from(minos);
        proof {
            shuffled.lemma_reverse_to_multiset();
            assert(is_full_set(shuffled.reverse()));
        }
    }

    /// Takes the front piece of the queue; the others move up and the back
    /// is filled from the bag, which is refilled with a fresh set first when
    /// it is empty.
    pub fn give_block(&mut self) -> (r: Mino)
        ensures
            Next::gives(*old(self), *final(self), r),
            old(self).wf() ==> final(self).wf() && r != Mino::Empty,
    {
        let out = self.blocks[0];
        let mut idx: usize = 0;
        while idx < 3
            invariant
                0 <= idx <= 3,
                self.bag == old(self).bag,
                forall|j: int| 0 <= j < idx ==> #[trigger] self.blocks[j] == old(self).blocks[j + 1],
                forall|j: int| idx <= j < 4 ==> #[trigger] self.blocks[j] == old(self).blocks[j],
            decreases 3 - idx,
        {
            self.blocks[idx] = self.blocks[idx + 1];
            idx = idx + 1;
        }

        if self.bag.is_empty() {
            self.bag_init();
            proof {
                let d = choose|d: Seq<Mino>| #[trigger] is_full_set(d) && self.bag@ == old(self).bag@ + d;
                lemma_full_set(d);
                assert(self.bag@ =~= d);
            }
        }

        self.blocks[3] = self.bag.pop().unwrap();

        out
    }
}

} // verus!
