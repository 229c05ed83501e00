use vstd::prelude::*;
use crate::bag::Next;
use crate::hold::Hold;
use crate::mino::{Mino, piece_char};
use crate::score::GameManager;

verus! {

/// The decimal digit character for `d` (0 to 9).
pub open spec fn digit_char(d: int) -> char {
    if d == 0 {
        '0'
    } else if d == 1 {
        '1'
    } else if d == 2 {
        '2'
    } else if d == 3 {
        '3'
    } else if d == 4 {
        '4'
    } else if d == 5 {
        '5'
    } else if d == 6 {
        '6'
    } else if d == 7 {
        '7'
    } else if d == 8 {
        '8'
    } else {
        '9'
    }
}

/// The decimal digits of `n`, without leading zeros.
pub open spec fn decimal(n: nat) -> Seq<char>
    decreases n,
{
    if n < 10 {
        seq![digit_char(n as int)]
    } else {
        decimal(n / 10).push(digit_char((n % 10) as int))
    }
}

/// The decimal digits of `n`, with zeros in front up to `width` characters.
pub open spec fn padded(n: nat, width: nat) -> Seq<char> {
    let d = decimal(n);
    let zeros = if width > d.len() { (width - d.len()) as nat } else { 0nat };
    Seq::new(zeros, |i: int| '0') + d
}

/// Whether `c` is one of the characters '0' to '9'.
pub open spec fn is_digit(c: char) -> bool {
    48 <= (c as int) <= 57
}

/// The number written by the decimal digits `s`, most significant first.
pub open spec fn digits_value(s: Seq<char>) -> int
    decreases s.len(),
{
    if s.len() == 0 {
        0
    } else {
        digits_value(s.drop_last()) * 10 + ((s.last() as int) - 48)
    }
}

/// The digit character for `d` is the character whose code is that of '0'
/// plus `d`.
proof fn lemma_digit_char_code(d: int)
    requires
        0 <= d < 10,
    ensures
        digit_char(d) as int == 48 + d,
{
    assert('0' as int == 48);
    assert('1' as int == 49);
    assert('2' as int == 50);
    assert('3' as int == 51);
    assert('4' as int == 52);
    assert('5' as int == 53);
    assert('6' as int == 54);
    assert('7' as int == 55);
    assert('8' as int == 56);
    assert('9' as int == 57);
}

/// The digits written for `n` are decimal digits that denote `n`, with no
/// leading zero (a lone '0' for zero).
pub proof fn lemma_decimal_denotes(n: nat)
    ensures
        digits_value(decimal(n)) == n,
        decimal(n).len() >= 1,
        forall|i: int| 0 <= i < decimal(n).len() ==> is_digit(#[trigger] decimal(n)[i]),
        n != 0 ==> decimal(n)[0] != '0',
    decreases n,
{
    lemma_digit_char_code((n % 10) as int);
    if n < 10 {
        let d = decimal(n);
        assert(d == seq![digit_char(n as int)]);
        assert(d.drop_last() =~= Seq::<char>::empty());
        assert(n % 10 == n);
        assert(d.last() as int - 48 == n);
        assert(digits_value(d) == digits_value(d.drop_last()) * 10 + (d.last() as int - 48));
    }
    if n >= 10 {
        lemma_decimal_denotes(n / 10);
        let d = decimal(n);
        assert(d.drop_last() == decimal(n / 10));
        assert(n == (n / 10) * 10 + n % 10);
        assert(d.last() == digit_char((n % 10) as int));
        assert(digits_value(d) == digits_value(d.drop_last()) * 10 + (d.last() as int - 48));
        assert forall|i: int| 0 <= i < d.len() implies is_digit(#[trigger] d[i]) by {
            if i < d.len() - 1 {
                assert(d[i] == decimal(n / 10)[i]);
            }
        }
        assert(d[0] == decimal(n / 10)[0]);
    }
}

/// A run of '0' characters denotes zero, and putting it in front of digits
/// does not change what they denote.
proof fn lemma_leading_zeros(z: Seq<char>, b: Seq<char>)
    requires
        forall|i: int| 0 <= i < z.len() ==> #[trigger] z[i] == '0',
    ensures
        digits_value(z + b) == digits_value(b),
    decreases b.len() + z.len(),
{
    if b.len() == 0 {
        assert(z + b =~= z);
        if z.len() > 0 {
            lemma_leading_zeros(z.drop_last(), b);
            assert(z.drop_last() + b =~= z.drop_last());
            assert(z.last() == '0');
        }
    } else {
        lemma_leading_zeros(z, b.drop_last());
        assert((z + b).drop_last() =~= z + b.drop_last());
        assert((z + b).last() == b.last());
    }
}

/// A number padded with zeros to `width` still denotes that number, is made
/// of decimal digits, and is `width` characters long unless the number
/// needs more.
pub proof fn lemma_padded_denotes(n: nat, width: nat)
    ensures
        digits_value(padded(n, width)) == n,
        forall|i: int| 0 <= i < padded(n, width).len() ==> is_digit(#[trigger] padded(n, width)[i]),
        padded(n, width).len() == (if width > decimal(n).len() { width } else { decimal(n).len() }),
{
    lemma_decimal_denotes(n);
    let d = decimal(n);
    let zeros = if width > d.len() { (width - d.len()) as nat } else { 0nat };
    let z = Seq::new(zeros, |i: int| '0');
    lemma_leading_zeros(z, d);
    assert forall|i: int| 0 <= i < padded(n, width).len() implies is_digit(#[trigger] padded(n, width)[i]) by {
        if i >= zeros {
            assert(padded(n, width)[i] == d[i - zeros]);
        }
    }
}

/// What the screen shows at row `y`, column `x` (0 to 21, 0 to 29): a
/// frame with the hold box, score, level and line count on the left, the
/// board in the middle, and the four next pieces on the right. A word or
/// number is written at its first column, and the columns it covers write
/// nothing.
pub open spec fn screen_cell(
    board: [[char; 10]; 20],
    hold: Mino,
    next: [Mino; 4],
    score: u32,
    level: u32,
    cleard: u32,
    y: int,
    x: int,
) -> Seq<char> {
    if y == 0 {
        seq!['-']
    } else if y == 21 && 10 <= x <= 19 {
        seq!['=']
    } else if 1 <= y <= 20 && 10 <= x <= 19 {
        seq![board[y - 1][x - 10]]
    } else if x == 0 || x == 9 || x == 20 || x == 29 {
        seq!['|']
    } else if (y == 6 || y == 11 || y == 16) && ((1 <= x <= 8) || (21 <= x <= 28)) {
        seq!['-']
    } else if y == 1 {
        if 3 <= x <= 6 {
            if x == 3 { seq!['H', 'O', 'L', 'D'] } else { seq![] }
        } else if 23 <= x <= 26 {
            if x == 23 { seq!['N', 'E', 'X', 'T'] } else { seq![] }
        } else {
            seq![' ']
        }
    } else if 2 <= y <= 5 && 3 <= x <= 6 {
        seq![piece_char(hold, y - 2, x - 3)]
    } else if 2 <= y <= 5 && 23 <= x <= 26 {
        seq![piece_char(next[0], y - 2, x - 23)]
    } else if y == 7 && 3 <= x <= 7 {
        if x == 3 { seq!['S', 'C', 'O', 'R', 'E'] } else { seq![] }
    } else if y == 9 {
        if 1 <= x <= 8 {
            if x == 1 { padded(score as nat, 8) } else { seq![] }
        } else {
            seq![' ']
        }
    } else if 7 <= y <= 10 && 23 <= x <= 26 {
        seq![piece_char(next[1], y - 7, x - 23)]
    } else if 12 <= y <= 15 && 23 <= x <= 26 {
        seq![piece_char(next[2], y - 12, x - 23)]
    } else if 17 <= y <= 20 && 23 <= x <= 26 {
        seq![piece_char(next[3], y - 17, x - 23)]
    } else if y == 12 && (x == 4 || x == 5) {
        if x == 4 { seq!['L', 'V'] } else { seq![] }
    } else if y == 14 && (x == 4 || x == 5) {
        if x == 4 { padded(level as nat, 2) } else { seq![] }
    } else if y == 17 && 3 <= x <= 6 {
        if x == 3 { seq!['L', 'I', 'N', 'E'] } else { seq![] }
    } else if y == 19 && 3 <= x <= 6 {
        if x == 3 { padded(cleard as nat, 4) } else { seq![] }
    } else {
        seq![' ']
    }
}

/// Row `y` of the screen, columns 0 to `n - 1` (see [`screen_cell`]).
pub open spec fn screen_prefix(
    board: [[char; 10]; 20],
    hold: Mino,
    next: [Mino; 4],
    score: u32,
    level: u32,
    cleard: u32,
    y: int,
    n: int,
) -> Seq<char>
    decreases n,
{
    if n <= 0 {
        seq![]
    } else {
        screen_prefix(board, hold, next, score, level, cleard, y, n - 1)
            + screen_cell(board, hold, next, score, level, cleard, y, n - 1)
    }
}

/// The decimal digit character for `d`.
fn digit(d: u32) -> (c: char)
    requires
        d < 10,
    ensures
        c == digit_char(d as int),
{
    if d == 0 {
        '0'
    } else if d == 1 {
        '1'
    } else if d == 2 {
        '2'
    } else if d == 3 {
        '3'
    } else if d == 4 {
        '4'
    } else if d == 5 {
        '5'
    } else if d == 6 {
        '6'
    } else if d == 7 {
        '7'
    } else if d == 8 {
        '8'
    } else {
        '9'
    }
}

/// Appends the decimal digits of `n`.
fn push_decimal(out: &mut Vec<char>, n: u32)
    ensures
        final(out)@ == old(out)@ + decimal(n as nat),
    decreases n,
{
    if n >= 10 {
        push_decimal(out, n / 10);
    }
    out.push(digit(n % 10));
    proof {
        if n >= 10 {
            assert(decimal(n as nat) == decimal((n / 10) as nat).push(digit_char((n % 10) as int)));
        }
    }
}

/// Appends the decimal digits of `n`, with zeros in front up to `width`
/// characters.
fn push_padded(out: &mut Vec<char>, n: u32, width: usize)
    ensures
        final(out)@ == old(out)@ + padded(n as nat, width as nat),
{
    let mut digits: Vec<char> = Vec::new();
    push_decimal(&mut digits, n);
    assert(digits@ =~= decimal(n as nat));
    let ghost start = out@;
    let mut zeros: usize = 0;
    let ghost target: nat = if width as nat > digits@.len() { (width - digits@.len()) as nat } else { 0nat };
    while zeros < width && digits.len() < width - zeros
        invariant
            zeros <= target,
            digits@ == decimal(n as nat),
            target == (if width as nat > digits@.len() { (width - digits@.len()) as nat } else { 0nat }),
            out@ == start + Seq::new(zeros as nat, |i: int| '0'),
        decreases width - zeros,
    {
        out.push('0');
        zeros = zeros + 1;
        proof {
            assert(out@ =~= start + Seq::new(zeros as nat, |i: int| '0'));
        }
    }
    let ghost with_zeros = out@;
    let mut i: usize = 0;
    while i < digits.len()
        invariant
            0 <= i <= digits.len(),
            digits@ == decimal(n as nat),
            out@ == with_zeros + digits@.subrange(0, i as int),
        decreases digits.len() - i,
    {
        out.push(digits[i]);
        i = i + 1;
        proof {
            assert(out@ =~= with_zeros + digits@.subrange(0, i as int));
        }
    }
    proof {
        assert(digits@.subrange(0, digits@.len() as int) =~= digits@);
        assert(zeros == target);
        assert(out@ =~= start + padded(n as nat, width as nat));
    }
}

/// `shape` is the picture of `m`.
pub open spec fn is_picture(shape: [[char; 4]; 4], m: Mino) -> bool {
    forall|y: int, x: int| 0 <= y < 4 && 0 <= x < 4 ==> #[trigger] shape[y][x] == piece_char(m, y, x)
}

/// Appends what the screen shows at row `y`, column `x`.
fn push_cell(
    line: &mut Vec<char>,
    board: &[[char; 10]; 20],
    hold: Mino,
    hold_block: &[[char; 4]; 4],
    next: &[Mino; 4],
    next_blocks: &[[[char; 4]; 4]; 4],
    score: u32,
    level: u32,
    cleard: u32,
    y: usize,
    x: usize,
)
    requires
        y < 22,
        x < 30,
        is_picture(*hold_block, hold),
        forall|i: int| 0 <= i < 4 ==> is_picture(#[trigger] next_blocks[i], next[i]),
    ensures
        final(line)@ == old(line)@ + screen_cell(*board, hold, *next, score, level, cleard, y as int, x as int),
{
    if y == 0 {
        line.push('-');
    } else if y == 21 && 10 <= x && x <= 19 {
        line.push('=');
    } else if 1 <= y && y <= 20 && 10 <= x && x <= 19 {
        line.push(board[y - 1][x - 10]);
    } else if x == 0 || x == 9 || x == 20 || x == 29 {
        line.push('|');
    } else if (y == 6 || y == 11 || y == 16) && ((1 <= x && x <= 8) || (21 <= x && x <= 28)) {
        line.push('-');
    } else if y == 1 {
        if 3 <= x && x <= 6 {
            if x == 3 {
                line.push('H');
                line.push('O');
                line.push('L');
                line.push('D');
            }
        } else if 23 <= x && x <= 26 {
            if x == 23 {
                line.push('N');
                line.push('E');
                line.push('X');
                line.push('T');
            }
        } else {
            line.push(' ');
        }
    } else if 2 <= y && y <= 5 && 3 <= x && x <= 6 {
        line.push(hold_block[y - 2][x - 3]);
    } else if 2 <= y && y <= 5 && 23 <= x && x <= 26 {
        assert(is_picture(next_blocks[0], next[0]));
        line.push(next_blocks[0][y - 2][x - 23]);
    } else if y == 7 && 3 <= x && x <= 7 {
        if x == 3 {
            line.push('S');
            line.push('C');
            line.push('O');
            line.push('R');
            line.push('E');
        }
    } else if y == 9 {
        if 1 <= x && x <= 8 {
            if x == 1 {
                push_padded(line, score, 8);
            }
        } else {
            line.push(' ');
        }
    } else if 7 <= y && y <= 10 && 23 <= x && x <= 26 {
        assert(is_picture(next_blocks[1], next[1]));
        line.push(next_blocks[1][y - 7][x - 23]);
    } else if 12 <= y && y <= 15 && 23 <= x && x <= 26 {
        assert(is_picture(next_blocks[2], next[2]));
        line.push(next_blocks[2][y - 12][x - 23]);
    } else if 17 <= y && y <= 20 && 23 <= x && x <= 26 {
        assert(is_picture(next_blocks[3], next[3]));
        line.push(next_blocks[3][y - 17][x - 23]);
    } else if y == 12 && (x == 4 || x == 5) {
        if x == 4 {
            line.push('L');
            line.push('V');
        }
    } else if y == 14 && (x == 4 || x == 5) {
        if x == 4 {
            push_padded(line, level, 2);
        }
    } else if y == 17 && 3 <= x && x <= 6 {
        if x == 3 {
            line.push('L');
            line.push('I');
            line.push('N');
            line.push('E');
        }
    } else if y == 19 && 3 <= x && x <= 6 {
        if x == 3 {
            push_padded(line, cleard, 4);
        }
    } else {
        line.push(' ');
    }
    proof {
        assert(final(line)@ =~= old(line)@ + screen_cell(*board, hold, *next, score, level, cleard, y as int, x as int));
    }
}

/// The 22 rows of the screen for board picture `board`, hold `hold`,
/// queue `next` and score keeping `gm` (see [`screen_cell`]); the caller
/// prints them.
pub fn render_all(board: &[[char; 10]; 20], hold: &Hold, next: &Next, gm: &GameManager) -> (r: Vec<Vec<char>>)
    ensures
        r@.len() == 22,
        forall|y: int| 0 <= y < 22 ==> #[trigger] r@[y]@ == screen_prefix(
            *board, hold.kind, next.blocks, gm.score, gm.level, gm.cleard, y, 30),
{
    let hold_block = hold.kind.shape();
    let next_block_0 = next.blocks[0].shape();
    let next_block_1 = next.blocks[1].shape();
    let next_block_2 = next.blocks[2].shape();
    let next_block_3 = next.blocks[3].shape();
    let next_blocks = [next_block_0, next_block_1, next_block_2, next_block_3];
    assert(is_picture(next_blocks[0], next.blocks[0]));
    assert(is_picture(next_blocks[1], next.blocks[1]));
    assert(is_picture(next_blocks[2], next.blocks[2]));
    assert(is_picture(next_blocks[3], next.blocks[3]));

    let mut lines: Vec<Vec<char>> = Vec::new();
    let mut y: usize = 0;
    while y < 22
        invariant
            0 <= y <= 22,
            is_picture(hold_block, hold.kind),
            forall|i: int| 0 <= i < 4 ==> is_picture(#[trigger] next_blocks[i], next.blocks[i]),
            lines@.len() == y,
            forall|j: int| 0 <= j < y ==> #[trigger] lines@[j]@ == screen_prefix(
                *board, hold.kind, next.blocks, gm.score, gm.level, gm.cleard, j, 30),
        decreases 22 - y,
    {
        let mut line: Vec<char> = Vec::new();
        let mut x: usize = 0;
        while x < 30
            invariant
                0 <= y < 22,
                0 <= x <= 30,
                is_picture(hold_block, hold.kind),
                forall|i: int| 0 <= i < 4 ==> is_picture(#[trigger] next_blocks[i], next.blocks[i]),
                line@ == screen_prefix(*board, hold.kind, next.blocks, gm.score, gm.level, gm.cleard, y as int, x as int),
            decreases 30 - x,
        {
            push_cell(&mut line, board, hold.kind, &hold_block, &next.blocks, &next_blocks,
                gm.score, gm.level, gm.cleard, y, x);
            x = x + 1;
        }
        lines.push(line);
        y = y + 1;
    }
    lines
}

} // verus!
