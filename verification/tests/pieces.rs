use tetris::block::Block;
use tetris::mino::Mino;

fn cells(b: &Block) -> Vec<(i32, i32)> {
    b.to_vec()
}

fn sorted(mut v: Vec<(i32, i32)>) -> Vec<(i32, i32)> {
    v.sort();
    v
}

const ALL: [Mino; 8] = [Mino::O, Mino::I, Mino::Z, Mino::S, Mino::L, Mino::T, Mino::J, Mino::Empty];

#[test]
fn shape_of_i_is_second_row() {
    let s = Mino::I.shape();
    assert_eq!(s[1], ['#', '#', '#', '#']);
    assert_eq!(s[0], [' ', ' ', ' ', ' ']);
    assert_eq!(s[2], [' ', ' ', ' ', ' ']);
    assert_eq!(s[3], [' ', ' ', ' ', ' ']);
}

#[test]
fn shape_of_each_piece() {
    assert_eq!(Mino::T.shape()[0], ['#', '#', '#', ' ']);
    assert_eq!(Mino::T.shape()[1], [' ', '#', ' ', ' ']);
    assert_eq!(Mino::J.shape()[0], ['#', ' ', ' ', ' ']);
    assert_eq!(Mino::L.shape()[0], [' ', ' ', '#', ' ']);
    assert_eq!(Mino::S.shape()[0], [' ', '#', '#', ' ']);
    assert_eq!(Mino::S.shape()[1], ['#', '#', ' ', ' ']);
    assert_eq!(Mino::Z.shape()[1], [' ', '#', '#', ' ']);
    assert_eq!(Mino::O.shape()[1], ['#', '#', ' ', ' ']);
    assert_eq!(Mino::Empty.shape(), [[' '; 4]; 4]);
}

#[test]
fn new_block_has_piece_shape_and_origin() {
    for m in ALL {
        let b = Block::new(m);
        assert_eq!(b.shape(), m.shape());
        assert_eq!(b.origin(), (1, 1));
    }
}

#[test]
fn to_vec_of_t_in_reading_order() {
    let b = Block::new(Mino::T);
    assert_eq!(cells(&b), vec![(-1, -1), (-1, 0), (-1, 1), (0, 0)]);
}

#[test]
fn every_piece_has_four_cells_and_covers_its_turning_cell() {
    for m in ALL {
        let b = Block::new(m);
        let v = cells(&b);
        if m == Mino::Empty {
            assert!(v.is_empty());
        } else {
            assert_eq!(v.len(), 4);
            assert!(v.contains(&(0, 0)));
            for (dy, dx) in v {
                assert!(-1 <= dy && dy <= 0 && -1 <= dx && dx <= 2);
            }
        }
    }
}

#[test]
fn rotate_right_of_i_stands_it_up() {
    let mut b = Block::new(Mino::I);
    b.rotate_right();
    assert_eq!(b.origin(), (1, 2));
    for y in 0..4 {
        for x in 0..4 {
            assert_eq!(b.shape()[y][x], if x == 2 { '#' } else { ' ' });
        }
    }
    assert_eq!(cells(&b), vec![(-1, 0), (0, 0), (1, 0), (2, 0)]);
}

#[test]
fn rotate_left_of_i() {
    let mut b = Block::new(Mino::I);
    b.rotate_left();
    assert_eq!(b.origin(), (2, 1));
    assert_eq!(sorted(cells(&b)), vec![(-2, 0), (-1, 0), (0, 0), (1, 0)]);
}

#[test]
fn right_then_left_restores_every_piece() {
    for m in ALL {
        let mut b = Block::new(m);
        b.rotate_right();
        b.rotate_right();
        let before = (b.shape(), b.origin());
        b.rotate_right();
        b.rotate_left();
        assert_eq!((b.shape(), b.origin()), before);
        b.rotate_left();
        b.rotate_right();
        assert_eq!((b.shape(), b.origin()), before);
    }
}

#[test]
fn four_right_turns_restore_every_piece() {
    for m in ALL {
        let mut b = Block::new(m);
        let before = (b.shape(), b.origin());
        let mut origins = Vec::new();
        for _ in 0..4 {
            b.rotate_right();
            origins.push(b.origin());
        }
        assert_eq!(origins, vec![(1, 2), (2, 2), (2, 1), (1, 1)]);
        assert_eq!((b.shape(), b.origin()), before);
    }
}

#[test]
fn turning_moves_cells_about_the_turning_cell() {
    for m in ALL {
        let b = Block::new(m);
        let mut r = b;
        r.rotate_right();
        let expected: Vec<(i32, i32)> = cells(&b).into_iter().map(|(dy, dx)| (dx, -dy)).collect();
        assert_eq!(sorted(cells(&r)), sorted(expected));
        let mut l = b;
        l.rotate_left();
        let expected: Vec<(i32, i32)> = cells(&b).into_iter().map(|(dy, dx)| (-dx, dy)).collect();
        assert_eq!(sorted(cells(&l)), sorted(expected));
    }
}

#[test]
fn debug_picture_marks_blanks_with_dots() {
    let p = Block::new(Mino::T).debug_picture();
    assert_eq!(p[0], ['#', '#', '#', '.']);
    assert_eq!(p[1], ['.', '#', '.', '.']);
    assert_eq!(p[3], ['.', '.', '.', '.']);
}

#[test]
fn random_piece_is_real_and_varies() {
    let mut seen = Vec::new();
    for _ in 0..300 {
        let m = Mino::_random();
        assert!(m != Mino::Empty);
        if !seen.contains(&m) {
            seen.push(m);
        }
    }
    assert!(seen.len() >= 2);
}
