use vstd::prelude::*;
use crate::block::{Block, centre_cell, lemma_turn_left_cells, lemma_turn_right_cells};
use crate::board::{Board, vec_add};
use crate::mino::Mino;
use crate::now::{Now, fits_i32};

verus! {

/// What a move by (`dy`, `dx`) makes of the piece: the moved piece where
/// the board allows it, else the piece unchanged.
pub open spec fn shifted(board: Board, now: Now, dy: int, dx: int) -> Now {
    if board.allows(now.moved(dy, dx)) { now.moved(dy, dx) } else { now }
}

/// A step right that succeeded is undone by a step left.
pub proof fn lemma_right_then_left(board: Board, a: Now)
    requires
        a.loc.1 < i32::MAX,
        board.allows(a),
        board.allows(a.moved(0, 1)),
    ensures
        shifted(board, shifted(board, a, 0, 1), 0, -1) == a,
{
    assert(a.moved(0, 1).moved(0, -1) == a);
}

/// A step left that succeeded is undone by a step right.
pub proof fn lemma_left_then_right(board: Board, a: Now)
    requires
        a.loc.1 > i32::MIN,
        board.allows(a),
        board.allows(a.moved(0, -1)),
    ensures
        shifted(board, shifted(board, a, 0, -1), 0, 1) == a,
{
    assert(a.moved(0, -1).moved(0, 1) == a);
}

/// A move either leaves the piece as it was or shifts every cell it covers
/// by exactly `dy` rows and `dx` columns, keeping its kind and block.
pub proof fn lemma_move_shifts_cells(board: Board, a: Now, dy: int, dx: int)
    requires
        fits_i32(a.loc.0 + dy),
        fits_i32(a.loc.1 + dx),
    ensures
        shifted(board, a, dy, dx) == a || ({
            let b = shifted(board, a, dy, dx);
            &&& b.kind == a.kind
            &&& b.block == a.block
            &&& forall|y: int, x: int| #[trigger] b.covers(y, x) == a.covers(y - dy, x - dx)
        }),
{
}

/// Turning state advances by one, modulo four, with each clockwise turn
/// and goes back by one with each anticlockwise turn.
pub proof fn lemma_rot_index_turns(a: Block, b: Block, c: Block)
    requires
        centre_cell(a.spec_origin()),
        b.is_turned_right(a),
        c.is_turned_left(a),
    ensures
        rot_index(b.spec_origin()) == (rot_index(a.spec_origin()) + 1) % 4,
        rot_index(c.spec_origin()) == (rot_index(a.spec_origin()) + 3) % 4,
{
}

/// Whether the piece cannot go one row further down.
pub fn is_bottom(now: &Now, board: &Board) -> (r: bool)
    requires
        now.loc.0 < i32::MAX,
        now.moved(1, 0).fits(),
    ensures
        r == !board.allows(now.moved(1, 0)),
{
    let mut trying = *now;
    trying.loc.0 += 1;
    assert(trying == now.moved(1, 0));

    if !board.is_possible(&trying) {
        return true
    } else {
        return false
    }
}

/// Moves the piece one column right if the board allows it there.
pub fn move_right(now: &mut Now, board: &Board)
    requires
        old(now).loc.1 < i32::MAX,
        old(now).moved(0, 1).fits(),
    ensures
        *final(now) == shifted(*board, *old(now), 0, 1),
{
    let mut trying = *now;
    trying.loc.1 += 1;
    assert(trying == old(now).moved(0, 1));

    if board.is_possible(&trying) {
        *now = trying;
    }
}

/// Moves the piece one column left if the board allows it there.
pub fn move_left(now: &mut Now, board: &Board)
    requires
        old(now).loc.1 > i32::MIN,
        old(now).moved(0, -1).fits(),
    ensures
        *final(now) == shifted(*board, *old(now), 0, -1),
{
    let mut trying = *now;
    trying.loc.1 -= 1;
    assert(trying == old(now).moved(0, -1));

    if board.is_possible(&trying) {
        *now = trying;
    }
}

/// Moves the piece one row down if the board allows it there; says whether
/// it moved.
pub fn move_down(now: &mut Now, board: &Board) -> (r: bool)
    requires
        old(now).loc.0 < i32::MAX,
        old(now).moved(1, 0).fits(),
    ensures
        r == board.allows(old(now).moved(1, 0)),
        *final(now) == shifted(*board, *old(now), 1, 0),
{
    if !is_bottom(now, board) {
        now.loc.0 += 1;
        assert(*now == old(now).moved(1, 0));
        true
    } else {
        false
    }
}

/// The turning state of a piece, read from where its turning cell is:
/// 0 at the start, 1, 2 and 3 after one, two and three clockwise turns.
pub open spec fn rot_index(o: (i32, i32)) -> i32 {
    if o.0 == 1 && o.1 == 1 {
        0
    } else if o.0 == 1 && o.1 == 2 {
        1
    } else if o.0 == 2 && o.1 == 2 {
        2
    } else {
        3
    }
}

/// The turning state of the piece (see [`rot_index`]).
pub fn get_rot(now: &Now) -> (r: i32)
    ensures
        r == rot_index(now.block.spec_origin()),
{
    let ori_yx = now.block.origin();
    let rot: i32 = match ori_yx {
        (y, x) => {
            if y == 1 && x == 1 {
                0
            } else if y == 1 && x == 2 {
                1
            } else if y == 2 && x == 2 {
                2
            } else if y == 2 && x == 1 {
                3
            } else {
                // the turning cell is always one of the four centre cells
                assert(false);
                3
            }
        }
    };

    rot
}

/// The places tried, in order, when an I piece in turning state `now_rot`
/// turns clockwise (`direction > 0`) or anticlockwise.
pub open spec fn offset_table(now_rot: i32, direction: i32) -> Seq<(i32, i32)> {
    if direction > 0 {
        if now_rot == 0 {
            seq![(0i32, 0i32), (0i32, -2i32), (0i32, 1i32), (1i32, -2i32), (-2i32, 1i32)]
        } else if now_rot == 1 {
            seq![(0i32, 0i32), (0i32, -1i32), (0i32, 2i32), (2i32, -1i32), (-1i32, 2i32)]
        } else if now_rot == 2 {
            seq![(0i32, 0i32), (0i32, 2i32), (0i32, -1i32), (-1i32, 2i32), (2i32, -1i32)]
        } else if now_rot == 3 {
            seq![(0i32, 0i32), (0i32, 1i32), (0i32, -2i32), (-2i32, 1i32), (1i32, -2i32)]
        } else {
            seq![(0i32, 0i32), (0i32, 0i32), (0i32, 0i32), (0i32, 0i32), (0i32, 0i32)]
        }
    } else {
        if now_rot == 0 {
            seq![(0i32, 0i32), (0i32, -1i32), (0i32, 2i32), (2i32, -1i32), (-1i32, 2i32)]
        } else if now_rot == 3 {
            seq![(0i32, 0i32), (0i32, -2i32), (0i32, 1i32), (1i32, -2i32), (-2i32, 1i32)]
        } else if now_rot == 2 {
            seq![(0i32, 0i32), (0i32, 1i32), (0i32, -2i32), (-2i32, 1i32), (1i32, -2i32)]
        } else if now_rot == 1 {
            seq![(0i32, 0i32), (0i32, 2i32), (0i32, -1i32), (-1i32, 2i32), (2i32, -1i32)]
        } else {
            seq![(0i32, 0i32), (0i32, 0i32), (0i32, 0i32), (0i32, 0i32), (0i32, 0i32)]
        }
    }
}

/// Each clockwise kick table of the I piece retraces, negated, the
/// anticlockwise table that turns back: the places tried from state `r`
/// turning clockwise are those tried from state `r + 1` (mod 4) turning
/// anticlockwise, with both coordinates negated.
pub proof fn lemma_kick_tables_reverse()
    ensures
        forall|r: i32, i: int| 0 <= r < 4 && 0 <= i < 5 ==> {
            &&& (#[trigger] offset_table(r, -1i32)[i]).0 == -offset_table(((r + 3) % 4) as i32, 1i32)[i].0
            &&& offset_table(r, -1i32)[i].1 == -offset_table(((r + 3) % 4) as i32, 1i32)[i].1
        },
        forall|r: i32, i: int| 0 <= r < 4 && 0 <= i < 5 ==> {
            &&& (#[trigger] offset_table(r, 1i32)[i]).0 == -offset_table(((r + 1) % 4) as i32, -1i32)[i].0
            &&& offset_table(r, 1i32)[i].1 == -offset_table(((r + 1) % 4) as i32, -1i32)[i].1
        },
{
    assert forall|r: i32, i: int| 0 <= r < 4 && 0 <= i < 5 implies {
        &&& (#[trigger] offset_table(r, 1i32)[i]).0 == -offset_table(((r + 1) % 4) as i32, -1i32)[i].0
        &&& offset_table(r, 1i32)[i].1 == -offset_table(((r + 1) % 4) as i32, -1i32)[i].1
    } by {
        if r == 0 {
            assert(((r + 1) % 4) as i32 == 1);
        } else if r == 1 {
            assert(((r + 1) % 4) as i32 == 2);
        } else if r == 2 {
            assert(((r + 1) % 4) as i32 == 3);
        } else {
            assert(((r + 1) % 4) as i32 == 0);
        }
    }
    assert forall|r: i32, i: int| 0 <= r < 4 && 0 <= i < 5 implies {
        &&& (#[trigger] offset_table(r, -1i32)[i]).0 == -offset_table(((r + 3) % 4) as i32, 1i32)[i].0
        &&& offset_table(r, -1i32)[i].1 == -offset_table(((r + 3) % 4) as i32, 1i32)[i].1
    } by {
        if r == 0 {
            assert(((r + 3) % 4) as i32 == 3);
        } else if r == 1 {
            assert(((r + 3) % 4) as i32 == 0);
        } else if r == 2 {
            assert(((r + 3) % 4) as i32 == 1);
        } else {
            assert(((r + 3) % 4) as i32 == 2);
        }
    }
}

/// The wall-kick offsets of an I piece (see [`offset_table`]).
pub fn get_offset(now_rot: i32, direction: i32) -> (r: [(i32, i32); 5])
    ensures
        r@ == offset_table(now_rot, direction),
{
    let offset = if direction > 0 {
        match now_rot {
            0 => [(0, 0), (0, -2), (0, 1), (1, -2), (-2, 1)],
            1 => [(0, 0), (0, -1), (0, 2), (2, -1), (-1, 2)],
            2 => [(0, 0), (0, 2), (0, -1), (-1, 2), (2, -1)],
            3 => [(0, 0), (0, 1), (0, -2), (-2, 1), (1, -2)],
            _ => [(0, 0), (0, 0), (0, 0), (0, 0), (0, 0)],
        }
    } else {
        match now_rot {
            0 => [(0, 0), (0, -1), (0, 2), (2, -1), (-1, 2)],
            3 => [(0, 0), (0, -2), (0, 1), (1, -2), (-2, 1)],
            2 => [(0, 0), (0, 1), (0, -2), (-2, 1), (1, -2)],
            1 => [(0, 0), (0, 2), (0, -1), (-1, 2), (2, -1)],
            _ => [(0, 0), (0, 0), (0, 0), (0, 0), (0, 0)],
        }
    };
    assert(offset@ =~= offset_table(now_rot, direction));
    offset
}

/// The places tried, in order, when a piece other than I turns.
pub open spec fn wallkick_table() -> Seq<(i32, i32)> {
    seq![(0i32, 0i32), (0i32, -1i32), (0i32, 1i32), (-1i32, 0i32), (1i32, 0i32)]
}

/// The wall-kick offsets of every piece but I (see [`wallkick_table`]).
pub fn wallkick_offset() -> (r: [(i32, i32); 5])
    ensures
        r@ == wallkick_table(),
{
    let r = [(0, 0), (0, -1), (0, 1), (-1, 0), (1, 0)];
    assert(r@ =~= wallkick_table());
    r
}

/// The places a turning piece tries, in order.
pub open spec fn kick_table(now: Now, direction: i32) -> Seq<(i32, i32)> {
    if now.kind == Mino::I {
        offset_table(rot_index(now.block.spec_origin()), direction)
    } else {
        wallkick_table()
    }
}

/// The outcome of trying the turned block `turned` at the places
/// `start.loc + offs[k]`, `start.loc + offs[k + 1]`, ...: the first one the
/// board allows, or `start` unchanged when it allows none.
pub open spec fn kicked(board: Board, start: Now, turned: Block, offs: Seq<(i32, i32)>, k: int) -> Now
    decreases offs.len() - k,
{
    if k >= offs.len() || k < 0 {
        start
    } else {
        let t = Now {
            kind: start.kind,
            block: turned,
            loc: ((start.loc.0 + offs[k].0) as i32, (start.loc.1 + offs[k].1) as i32),
        };
        if board.allows(t) { t } else { kicked(board, start, turned, offs, k + 1) }
    }
}

/// A turn either leaves the piece as it was or puts the turned block at a
/// place the board allows.
pub proof fn lemma_kicked_allowed_or_unchanged(board: Board, start: Now, turned: Block, offs: Seq<(i32, i32)>, k: int)
    ensures
        kicked(board, start, turned, offs, k) == start || ({
            let r = kicked(board, start, turned, offs, k);
            &&& board.allows(r)
            &&& r.block == turned
            &&& r.kind == start.kind
        }),
    decreases offs.len() - k,
{
    if 0 <= k < offs.len() {
        lemma_kicked_allowed_or_unchanged(board, start, turned, offs, k + 1);
    }
}

/// The places an I piece tries when it turns: turning clockwise from its
/// turning state `r` retraces, negated, the anticlockwise turn from state
/// `r + 1` (mod 4) that undoes it, and turning anticlockwise retraces,
/// negated, the clockwise turn from state `r + 3` (mod 4) that it undoes.
/// Every other piece tries the common places (0,0), (0,-1), (0,1), (-1,0),
/// (1,0), whichever way it turns.
pub proof fn lemma_kick_places(now: Now)
    requires
        centre_cell(now.block.spec_origin()),
    ensures
        now.kind == Mino::I ==> forall|i: int| 0 <= i < 5 ==> {
            let r = rot_index(now.block.spec_origin());
            &&& (#[trigger] kick_table(now, 1i32)[i]).0 == -offset_table(((r + 1) % 4) as i32, -1i32)[i].0
            &&& kick_table(now, 1i32)[i].1 == -offset_table(((r + 1) % 4) as i32, -1i32)[i].1
            &&& kick_table(now, -1i32)[i].0 == -offset_table(((r + 3) % 4) as i32, 1i32)[i].0
            &&& kick_table(now, -1i32)[i].1 == -offset_table(((r + 3) % 4) as i32, 1i32)[i].1
        },
        now.kind != Mino::I ==> kick_table(now, 1i32) == seq![(0i32, 0i32), (0i32, -1i32), (0i32, 1i32), (-1i32, 0i32), (1i32, 0i32)]
            && kick_table(now, -1i32) == seq![(0i32, 0i32), (0i32, -1i32), (0i32, 1i32), (-1i32, 0i32), (1i32, 0i32)],
{
    lemma_kick_tables_reverse();
    lemma_i_kick_tables();
    let r = rot_index(now.block.spec_origin());
    if now.kind == Mino::I {
        assert forall|i: int| 0 <= i < 5 implies {
            &&& (#[trigger] kick_table(now, 1i32)[i]).0 == -offset_table(((r + 1) % 4) as i32, -1i32)[i].0
            &&& kick_table(now, 1i32)[i].1 == -offset_table(((r + 1) % 4) as i32, -1i32)[i].1
            &&& kick_table(now, -1i32)[i].0 == -offset_table(((r + 3) % 4) as i32, 1i32)[i].0
            &&& kick_table(now, -1i32)[i].1 == -offset_table(((r + 3) % 4) as i32, 1i32)[i].1
        } by {
            assert(kick_table(now, 1i32) == offset_table(r, 1i32));
            assert(kick_table(now, -1i32) == offset_table(r, -1i32));
            assert(0 <= r < 4);
        }
    }
}

/// The clockwise places of the I piece from each turning state, first the
/// place itself: from state 0: (0,-2), (0,1), (1,-2), (-2,1); from state 1:
/// (0,-1), (0,2), (2,-1), (-1,2); from state 2: (0,2), (0,-1), (-1,2),
/// (2,-1); from state 3: (0,1), (0,-2), (-2,1), (1,-2). Anticlockwise from
/// state 0 the piece first tries (0,-1), (0,2), (2,-1), (-1,2).
pub proof fn lemma_i_kick_tables()
    ensures
        offset_table(0, 1i32) == seq![(0i32, 0i32), (0i32, -2i32), (0i32, 1i32), (1i32, -2i32), (-2i32, 1i32)],
        offset_table(1, 1i32) == seq![(0i32, 0i32), (0i32, -1i32), (0i32, 2i32), (2i32, -1i32), (-1i32, 2i32)],
        offset_table(2, 1i32) == seq![(0i32, 0i32), (0i32, 2i32), (0i32, -1i32), (-1i32, 2i32), (2i32, -1i32)],
        offset_table(3, 1i32) == seq![(0i32, 0i32), (0i32, 1i32), (0i32, -2i32), (-2i32, 1i32), (1i32, -2i32)],
        offset_table(0, -1i32) == seq![(0i32, 0i32), (0i32, -1i32), (0i32, 2i32), (2i32, -1i32), (-1i32, 2i32)],
{
}

/// Every kick offset is at most two cells in each direction.
proof fn lemma_kick_offsets_small(now: Now, direction: i32)
    ensures
        kick_table(now, direction).len() == 5,
        forall|k: int| 0 <= k < 5 ==> -2 <= #[trigger] kick_table(now, direction)[k].0 <= 2
            && -2 <= kick_table(now, direction)[k].1 <= 2,
{
}

/// Whether the block of `b`, turned clockwise (`direction > 0`) or
/// anticlockwise, covers the offset (`dy`, `dx`) from its turning cell.
pub open spec fn turned_cell(b: Block, direction: i32, dy: int, dx: int) -> bool {
    if direction > 0 { b.has_cell(-dx, dy) } else { b.has_cell(dx, -dy) }
}

/// Whether every place a turn of the piece tries, and every cell of the
/// turned piece there, has coordinates that fit in an `i32`.
pub open spec fn kick_fits(now: Now, direction: i32) -> bool {
    let offs = kick_table(now, direction);
    forall|k: int| #![trigger offs[k]] 0 <= k < 5 ==> {
        &&& fits_i32(now.loc.0 + offs[k].0)
        &&& fits_i32(now.loc.1 + offs[k].1)
        &&& forall|dy: int, dx: int| #[trigger] turned_cell(now.block, direction, dy, dx) ==>
            fits_i32(dy + now.loc.0 + offs[k].0) && fits_i32(dx + now.loc.1 + offs[k].1)
    }
}

/// On the board, with its turning cell at one of the centre cells, a piece
/// can try every kick place in both directions.
pub proof fn lemma_kick_fits_on_board(now: Now)
    requires
        -4 <= now.loc.0 <= 24,
        -4 <= now.loc.1 <= 14,
        centre_cell(now.block.spec_origin()),
    ensures
        kick_fits(now, 1i32),
        kick_fits(now, -1i32),
{
    lemma_kick_offsets_small(now, 1i32);
    lemma_kick_offsets_small(now, -1i32);
}

/// Tries the turned block at each kick place in turn and takes the first
/// one the board allows.
fn try_kicks(now: &mut Now, board: &Board, turned: Now, offset: [(i32, i32); 5])
    requires
        turned.kind == old(now).kind,
        forall|k: int| #![trigger offset@[k]] 0 <= k < 5 ==> {
            &&& fits_i32(old(now).loc.0 + offset@[k].0)
            &&& fits_i32(old(now).loc.1 + offset@[k].1)
            &&& forall|dy: int, dx: int| #[trigger] turned.block.has_cell(dy, dx) ==>
                fits_i32(dy + old(now).loc.0 + offset@[k].0) && fits_i32(dx + old(now).loc.1 + offset@[k].1)
        },
    ensures
        *final(now) == kicked(*board, *old(now), turned.block, offset@, 0),
{
    let start = *now;
    let mut trying = turned;
    let mut i: usize = 0;
    while i < 5
        invariant
            0 <= i <= 5,
            *now == start,
            start == *old(now),
            trying.block == turned.block,
            trying.kind == start.kind,
            forall|k: int| #![trigger offset@[k]] 0 <= k < 5 ==> {
                &&& fits_i32(start.loc.0 + offset@[k].0)
                &&& fits_i32(start.loc.1 + offset@[k].1)
                &&& forall|dy: int, dx: int| #[trigger] turned.block.has_cell(dy, dx) ==>
                    fits_i32(dy + start.loc.0 + offset@[k].0) && fits_i32(dx + start.loc.1 + offset@[k].1)
            },
            kicked(*board, start, turned.block, offset@, 0) == kicked(*board, start, turned.block, offset@, i as int),
        decreases 5 - i,
    {
        let test = offset[i];
        assert(fits_i32(start.loc.0 + offset@[i as int].0));
        let new_loc = vec_add(&test, &now.loc);
        trying.loc = new_loc;
        assert(trying.fits());
        assert(trying == Now {
            kind: start.kind,
            block: turned.block,
            loc: ((start.loc.0 + offset@[i as int].0) as i32, (start.loc.1 + offset@[i as int].1) as i32),
        });
        assert(offset@.len() == 5);
        if board.is_possible(&trying) {
            assert(kicked(*board, start, turned.block, offset@, i as int) == trying);
            *now = trying;
            return
        }
        i = i + 1;
    }
}

/// Turns the piece a quarter clockwise, trying the wall-kick places in turn;
/// if none is allowed the piece stays as it was.
pub fn rotate_right_with_kick(now: &mut Now, board: &Board)
    requires
        kick_fits(*old(now), 1i32),
    ensures
        exists|t: Block| #[trigger] t.is_turned_right(old(now).block)
            && *final(now) == kicked(*board, *old(now), t, kick_table(*old(now), 1), 0),
{
    proof { use_type_invariant(&now.block); }
    let mut trying = *now;
    trying.block.rotate_right();

    let offset: [(i32, i32); 5] = match now.kind {
        Mino::I => {
            let rot = get_rot(now);
            let r = get_offset(rot, 1);
            r
        },
        _ => wallkick_offset(),
    };
    assert(offset@ == kick_table(*now, 1));
    proof {
        lemma_turn_right_cells(now.block, trying.block);
        assert forall|dy: int, dx: int| #[trigger] trying.block.has_cell(dy, dx) == turned_cell(now.block, 1i32, dy, dx) by {}
    }

    try_kicks(now, board, trying, offset);
}

/// Turns the piece a quarter anticlockwise, trying the wall-kick places in
/// turn; if none is allowed the piece stays as it was.
pub fn rotate_left_with_kick(now: &mut Now, board: &Board)
    requires
        kick_fits(*old(now), -1i32),
    ensures
        exists|t: Block| #[trigger] t.is_turned_left(old(now).block)
            && *final(now) == kicked(*board, *old(now), t, kick_table(*old(now), -1i32), 0),
{
    proof { use_type_invariant(&now.block); }
    let mut trying = *now;
    trying.block.rotate_left();

    let offset: [(i32, i32); 5] = match now.kind {
        Mino::I => {
            let rot = get_rot(now);
            let r = get_offset(rot, -1);
            r
        },
        _ => wallkick_offset(),
    };
    assert(offset@ == kick_table(*now, -1i32));
    proof {
        lemma_turn_left_cells(now.block, trying.block);
        assert forall|dy: int, dx: int| #[trigger] trying.block.has_cell(dy, dx) == turned_cell(now.block, -1i32, dy, dx) by {}
    }

    try_kicks(now, board, trying, offset);
}

} // verus!
