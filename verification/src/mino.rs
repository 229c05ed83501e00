use vstd::prelude::*;
use rand::Rng;

verus! {

/// The kinds of falling piece; `Empty` stands for "no piece" (an empty hold slot).
#[derive(Clone, Copy, PartialEq, Eq, Structural, Debug)]
pub enum Mino {
    O,
    I,
    Z,
    S,
    L,
    T,
    J,
    Empty,
}

/// Whether the cell at row `y`, column `x` of the 4x4 picture of `m` is filled.
pub open spec fn piece_cell(m: Mino, y: int, x: int) -> bool {
    match m {
        Mino::I => y == 1,
        Mino::J => (y == 0 && x == 0) || (y == 1 && x < 3),
        Mino::L => (y == 0 && x == 2) || (y == 1 && x < 3),
        Mino::Empty => false,
        Mino::O => y < 2 && x < 2,
        Mino::S => (y == 0 && (x == 1 || x == 2)) || (y == 1 && x < 2),
        Mino::T => (y == 0 && x < 3) || (y == 1 && x == 1),
        Mino::Z => (y == 0 && x < 2) || (y == 1 && (x == 1 || x == 2)),
    }
}

/// The character drawn for the cell at (`y`, `x`) of the picture of `m`.
pub open spec fn piece_char(m: Mino, y: int, x: int) -> char {
    if piece_cell(m, y, x) { '#' } else { ' ' }
}

/// How many of the first `n` cells of row `y` of the picture of `m` are filled.
pub open spec fn row_count(m: Mino, y: int, n: int) -> int
    decreases n,
{
    if n <= 0 { 0 } else { row_count(m, y, n - 1) + (if piece_cell(m, y, n - 1) { 1int } else { 0int }) }
}

/// How many cells of the first `k` rows of the picture of `m` are filled.
pub open spec fn picture_count(m: Mino, k: int) -> int
    decreases k,
{
    if k <= 0 { 0 } else { picture_count(m, k - 1) + row_count(m, k - 1, 4) }
}

/// Whether cells `a` and `b` share an edge.
pub open spec fn adjacent(a: (int, int), b: (int, int)) -> bool {
    ||| a.0 == b.0 && (a.1 - b.1 == 1 || b.1 - a.1 == 1)
    ||| a.1 == b.1 && (a.0 - b.0 == 1 || b.0 - a.0 == 1)
}

/// `s` lists the filled cells of the picture of `m`, each joined by an edge
/// to one listed before it; so the filled cells form one piece.
pub open spec fn is_joined_listing(m: Mino, s: Seq<(int, int)>) -> bool {
    &&& forall|i: int| 0 <= i < s.len() ==> 0 <= (#[trigger] s[i]).0 < 4 && 0 <= s[i].1 < 4 && piece_cell(m, s[i].0, s[i].1)
    &&& forall|y: int, x: int| 0 <= y < 4 && 0 <= x < 4 && #[trigger] piece_cell(m, y, x) ==> s.contains((y, x))
    &&& forall|i: int| 1 <= i < s.len() ==> exists|j: int| 0 <= j < i && adjacent(s[j], #[trigger] s[i])
}

/// Each real piece is four filled cells joined edge to edge, in the top two
/// rows of its picture; the empty piece is blank.
pub proof fn lemma_piece_pictures(m: Mino)
    ensures
        forall|y: int, x: int| 0 <= y < 4 && 0 <= x < 4 ==>
            #[trigger] piece_char(m, y, x) == '#' || piece_char(m, y, x) == ' ',
        forall|y: int, x: int| 2 <= y < 4 && 0 <= x < 4 ==> !#[trigger] piece_cell(m, y, x),
        picture_count(m, 4) == (if m == Mino::Empty { 0int } else { 4int }),
        m != Mino::Empty ==> exists|s: Seq<(int, int)>| s.len() == 4 && #[trigger] is_joined_listing(m, s),
{
    reveal_with_fuel(row_count, 5);
    reveal_with_fuel(picture_count, 5);
    if m != Mino::Empty {
        let s: Seq<(int, int)> = match m {
            Mino::I => seq![(1int, 0int), (1int, 1int), (1int, 2int), (1int, 3int)],
            Mino::J => seq![(0int, 0int), (1int, 0int), (1int, 1int), (1int, 2int)],
            Mino::L => seq![(0int, 2int), (1int, 2int), (1int, 1int), (1int, 0int)],
            Mino::O => seq![(0int, 0int), (0int, 1int), (1int, 0int), (1int, 1int)],
            Mino::S => seq![(0int, 1int), (0int, 2int), (1int, 1int), (1int, 0int)],
            Mino::T => seq![(0int, 0int), (0int, 1int), (0int, 2int), (1int, 1int)],
            _ => seq![(0int, 0int), (0int, 1int), (1int, 1int), (1int, 2int)],
        };
        assert forall|y: int, x: int| 0 <= y < 4 && 0 <= x < 4 && #[trigger] piece_cell(m, y, x) implies s.contains((y, x)) by {
            if s[0] == (y, x) {
                assert(s[0] == (y, x));
            } else if s[1] == (y, x) {
                assert(s[1] == (y, x));
            } else if s[2] == (y, x) {
                assert(s[2] == (y, x));
            } else {
                assert(s[3] == (y, x));
            }
        }
        assert forall|i: int| 1 <= i < s.len() implies exists|j: int| 0 <= j < i && adjacent(s[j], #[trigger] s[i]) by {
            if m == Mino::T && i == 3 {
                assert(adjacent(s[1], s[3]));
            } else if m == Mino::O && i == 2 {
                assert(adjacent(s[0], s[2]));
            } else if m == Mino::S && i == 2 {
                assert(adjacent(s[0], s[2]));
            } else {
                assert(adjacent(s[i - 1], s[i]));
            }
        }
        assert(is_joined_listing(m, s));
    }
}

/// The cells, as (row, column), that each picture fills.
pub proof fn lemma_piece_cells()
    ensures
        forall|y: int, x: int| 0 <= y < 4 && 0 <= x < 4 ==> {
            &&& #[trigger] piece_cell(Mino::I, y, x) <==> (y, x) == (1int, 0int) || (y, x) == (1int, 1int) || (y, x) == (1int, 2int) || (y, x) == (1int, 3int)
            &&& piece_cell(Mino::O, y, x) <==> (y, x) == (0int, 0int) || (y, x) == (0int, 1int) || (y, x) == (1int, 0int) || (y, x) == (1int, 1int)
            &&& piece_cell(Mino::T, y, x) <==> (y, x) == (0int, 0int) || (y, x) == (0int, 1int) || (y, x) == (0int, 2int) || (y, x) == (1int, 1int)
            &&& piece_cell(Mino::S, y, x) <==> (y, x) == (0int, 1int) || (y, x) == (0int, 2int) || (y, x) == (1int, 0int) || (y, x) == (1int, 1int)
            &&& piece_cell(Mino::Z, y, x) <==> (y, x) == (0int, 0int) || (y, x) == (0int, 1int) || (y, x) == (1int, 1int) || (y, x) == (1int, 2int)
            &&& piece_cell(Mino::J, y, x) <==> (y, x) == (0int, 0int) || (y, x) == (1int, 0int) || (y, x) == (1int, 1int) || (y, x) == (1int, 2int)
            &&& piece_cell(Mino::L, y, x) <==> (y, x) == (0int, 2int) || (y, x) == (1int, 0int) || (y, x) == (1int, 1int) || (y, x) == (1int, 2int)
            &&& !piece_cell(Mino::Empty, y, x)
        },
{
}

/// Mirror images: Z is S and L is J flipped left to right within the first
/// three columns, T is its own mirror image there, I is its own mirror
/// image across the four columns, O across the first two; only I reaches
/// the fourth column and only S, Z, J, L, T the third.
pub proof fn lemma_piece_mirrors()
    ensures
        forall|y: int, x: int| 0 <= y < 4 && 0 <= x <= 2 ==> {
            &&& #[trigger] piece_cell(Mino::Z, y, x) == piece_cell(Mino::S, y, 2 - x)
            &&& piece_cell(Mino::L, y, x) == piece_cell(Mino::J, y, 2 - x)
            &&& piece_cell(Mino::T, y, x) == piece_cell(Mino::T, y, 2 - x)
        },
        forall|y: int, x: int| 0 <= y < 4 && 0 <= x < 4 ==>
            #[trigger] piece_cell(Mino::I, y, x) == piece_cell(Mino::I, y, 3 - x),
        forall|y: int, x: int| 0 <= y < 4 && 0 <= x <= 1 ==>
            #[trigger] piece_cell(Mino::O, y, x) == piece_cell(Mino::O, y, 1 - x),
        forall|y: int, m: Mino| 0 <= y < 4 && m != Mino::I ==> !#[trigger] piece_cell(m, y, 3),
        forall|y: int| 0 <= y < 4 ==> !#[trigger] piece_cell(Mino::O, y, 2),
{
}

/// Different pieces have different pictures.
pub proof fn lemma_pictures_differ(m1: Mino, m2: Mino)
    requires
        m1 != m2,
    ensures
        exists|y: int, x: int| 0 <= y < 4 && 0 <= x < 4 && #[trigger] piece_cell(m1, y, x) != piece_cell(m2, y, x),
{
    assert(piece_cell(m1, 0, 0) != piece_cell(m2, 0, 0) || piece_cell(m1, 0, 1) != piece_cell(m2, 0, 1)
        || piece_cell(m1, 0, 2) != piece_cell(m2, 0, 2) || piece_cell(m1, 1, 0) != piece_cell(m2, 1, 0)
        || piece_cell(m1, 1, 1) != piece_cell(m2, 1, 1) || piece_cell(m1, 1, 2) != piece_cell(m2, 1, 2)
        || piece_cell(m1, 1, 3) != piece_cell(m2, 1, 3));
}

/// The seven real pieces, in the order a new bag is filled with them.
pub open spec fn seven_pieces() -> Seq<Mino> {
    seq![Mino::O, Mino::T, Mino::I, Mino::L, Mino::J, Mino::S, Mino::Z]
}

/// A random index below `bound`, drawn with `rand::Rng::gen_range(0..bound)`
/// from the thread-local generator. Its contract claims only what rand
/// documents: the value lies in the half-open range (rand panics on an empty
/// range, hence `bound > 0`). Which value comes back is chance, and the
/// generator's own start-up panic when the system offers no randomness is
/// outside what a precondition can rule out.
#[verifier::external_body]
fn random_index(bound: usize) -> (r: usize)
    requires
        bound > 0,
    ensures
        r < bound,
{
    rand::thread_rng().gen_range(0..bound)
}

impl Mino {
    /// A piece chosen at random among the seven real ones.
    pub fn _random() -> (r: Mino)
        ensures
            seven_pieces().contains(r),
    {
        let minos: Vec<Mino> = vec![Mino::O, Mino::T, Mino::I, Mino::L, Mino::J, Mino::S, Mino::Z];
        let r = random_index(7);
        proof {
            assert(minos@ =~= seven_pieces());
            assert(seven_pieces()[r as int] == minos@[r as int]);
        }
        minos[r]
    }

    /// The 4x4 picture of the piece: `'#'` where it is filled, `' '` elsewhere.
    pub fn shape(&self) -> (r: [[char; 4]; 4])
        ensures
            forall|y: int, x: int| 0 <= y < 4 && 0 <= x < 4 ==> #[trigger] r[y][x] == piece_char(*self, y, x),
    {
        let result = match self {
            Mino::I => {
                [[' ',' ',' ',' '],
                 ['#','#','#','#'],
                 [' ',' ',' ',' '],
                 [' ',' ',' ',' ']]
            },
            Mino::J => {
                [['#',' ',' ',' '],
                 ['#','#','#',' '],
                 [' ',' ',' ',' '],
                 [' ',' ',' ',' ']]
            },
            Mino::L => {
                [[' ',' ','#',' '],
                 ['#','#','#',' '],
                 [' ',' ',' ',' '],
                 [' ',' ',' ',' ']]
            },
            Mino::Empty => {
                [[' ',' ',' ',' '],
                 [' ',' ',' ',' '],
                 [' ',' ',' ',' '],
                 [' ',' ',' ',' ']]
            },
            Mino::O => {
                [['#','#',' ',' '],
                 ['#','#',' ',' '],
                 [' ',' ',' ',' '],
                 [' ',' ',' ',' ']]
            },
            Mino::S => {
                [[' ','#','#',' '],
                 ['#','#',' ',' '],
                 [' ',' ',' ',' '],
                 [' ',' ',' ',' ']]
            },
            Mino::T => {
                [['#','#','#',' '],
                 [' ','#',' ',' '],
                 [' ',' ',' ',' '],
                 [' ',' ',' ',' ']]
            },
            Mino::Z => {
                [['#','#',' ',' '],
                 [' ','#','#',' '],
                 [' ',' ',' ',' '],
                 [' ',' ',' ',' ']]
            },
        };
        result
    }
}

} // verus!
