use drencher::board::Board;
use drencher::color::Color;
use drencher::util::{CellMap, ColorSet};

/// Board of side `size` whose cells, row-major, have the given tags.
fn board_of(size: u8, tags: &[u64]) -> Board {
    let mut n: u64 = 0;
    for &t in tags.iter().rev() {
        n = n * 6 + t;
    }
    Board::permutation(size, n)
}

fn tags(b: &Board) -> Vec<u8> {
    let mut out = Vec::new();
    for y in 0..b.size() {
        for x in 0..b.size() {
            out.push(b.at(x, y).tag);
        }
    }
    out
}

#[test]
fn color_new_and_symbol() {
    assert_eq!(Color::new(4).tag, 4);
    assert_eq!(Color::new(0).symbol(), "\u{1b}[41m  \u{1b}(B\u{1b}[m");
    assert_eq!(Color::new(5).symbol(), "\u{1b}[46m  \u{1b}(B\u{1b}[m");
    assert_eq!(Color::new(9).symbol(), "X");
}

#[test]
fn color_set_operations() {
    let mut s = ColorSet::new();
    assert!(!s.is_set(Color::new(2)));
    s.set(Color::new(2));
    s.set(Color::new(5));
    s.set(Color::new(0));
    assert!(s.is_set(Color::new(2)));
    assert!(!s.is_set(Color::new(3)));
    let tags: Vec<u8> = s.colors().iter().map(|c| c.tag).collect();
    assert_eq!(tags, vec![0, 2, 5]);
    s.clear();
    assert!(s.colors().is_empty());
}

#[test]
fn cell_map_get_set() {
    let mut m = CellMap::new(3, 7u32);
    assert_eq!(*m.get(2, 2), 7);
    m.set(1, 2, 9);
    assert_eq!(*m.get(1, 2), 9);
    assert_eq!(*m.get(2, 1), 7);
    let d: CellMap<u32> = CellMap::default(2);
    assert_eq!(*d.get(1, 1), 0);
}

#[test]
fn uniform_board() {
    let b = Board::uniform(4);
    assert_eq!(b.size(), 4);
    assert!(b.is_drenched());
    assert_eq!(tags(&b), vec![0; 16]);
    assert!(b.adjacent_colors().is_empty());
}

#[test]
fn permutation_digits() {
    let b = Board::permutation(2, 42);
    assert_eq!(tags(&b), vec![0, 1, 1, 0]);
    let b = Board::permutation(2, 1295);
    assert_eq!(tags(&b), vec![5, 5, 5, 5]);
    let b = Board::permutation(3, 7);
    assert_eq!(tags(&b), vec![1, 1, 0, 0, 0, 0, 0, 0, 0]);
}

#[test]
fn field_coords_of_an_l_shape() {
    // 0 0 1
    // 2 0 1
    // 2 2 1
    let b = board_of(3, &[0, 0, 1, 2, 0, 1, 2, 2, 1]);
    let (mut owned, mut border) = b.field_coords();
    owned.sort();
    border.sort();
    assert_eq!(owned, vec![(0, 0), (1, 0), (1, 1)]);
    assert_eq!(border, vec![(0, 1), (1, 2), (2, 0), (2, 1)]);
}

#[test]
fn drench_recolors_island_only() {
    let mut b = board_of(3, &[0, 0, 1, 2, 0, 1, 2, 2, 1]);
    b.drench(Color::new(2));
    assert_eq!(tags(&b), vec![2, 2, 1, 2, 2, 1, 2, 2, 1]);
    b.drench(Color::new(1));
    assert_eq!(tags(&b), vec![1; 9]);
    assert!(b.is_drenched());
}

#[test]
fn drench_with_same_color_changes_nothing() {
    let mut b = board_of(2, &[3, 1, 3, 3]);
    b.drench(Color::new(3));
    assert_eq!(tags(&b), vec![3, 1, 3, 3]);
}

#[test]
fn adjacent_colors_sorted_once() {
    let b = board_of(3, &[0, 0, 1, 2, 0, 1, 2, 2, 1]);
    let colors: Vec<u8> = b.adjacent_colors().iter().map(|c| c.tag).collect();
    assert_eq!(colors, vec![1, 2]);
}

#[test]
fn is_drenched_detects_one_odd_cell() {
    let b = board_of(3, &[4, 4, 4, 4, 4, 4, 4, 4, 0]);
    assert!(!b.is_drenched());
}

#[test]
fn random_boards_are_well_formed() {
    let b = Board::random(5);
    assert_eq!(b.size(), 5);
    for t in tags(&b) {
        assert!(t < 6);
    }
    let d1 = Board::deterministic_random(6, 17);
    let d2 = Board::deterministic_random(6, 17);
    assert_eq!(tags(&d1), tags(&d2));
    for t in tags(&d1) {
        assert!(t < 6);
    }
}

#[test]
fn border_lists_each_cell_once() {
    // The middle cell touches the island of the top-left cell from two sides.
    // 0 0 1
    // 0 2 1
    // 1 1 1
    let b = board_of(3, &[0, 0, 1, 0, 2, 1, 1, 1, 1]);
    let (mut owned, mut border) = b.field_coords();
    owned.sort();
    border.sort();
    assert_eq!(owned, vec![(0, 0), (0, 1), (1, 0)]);
    assert_eq!(border, vec![(0, 2), (1, 1), (2, 0)]);
}

#[test]
fn deterministic_boards_depend_on_the_id() {
    let a = tags(&Board::deterministic_random(6, 1));
    let b = tags(&Board::deterministic_random(6, 2));
    assert_ne!(a, b);
    // Only the low 32 bits of the id count.
    let c = tags(&Board::deterministic_random(6, 1 + (1u64 << 32)));
    assert_eq!(a, c);
}
