use calibron::block::{Block, Orientation};
use calibron::board::{Board, Point};

#[test]
fn new_block_is_unplaced_and_lies_flat() {
    let block = Block::new(5, 3);
    assert_eq!(block.width(), 5);
    assert_eq!(block.height(), 3);
    assert_eq!(block.position(), None);
}

#[test]
fn rotate_swaps_effective_dimensions() {
    let mut block = Block::new(5, 3);
    block.rotate();
    assert_eq!(block.width(), 3);
    assert_eq!(block.height(), 5);
    assert_eq!(block.position(), None);
}

#[test]
fn rotate_twice_restores_effective_dimensions() {
    for (w, h) in [(1, 1), (5, 3), (3, 5), (32, 11), (1, 56), (usize::MAX, 1)] {
        let fresh = Block::new(w, h);
        let mut block = fresh;
        block.rotate();
        block.rotate();
        assert_eq!(block.width(), w);
        assert_eq!(block.height(), h);
        assert_eq!(block, fresh);
    }
}

#[test]
fn rotate_twice_keeps_the_anchor() {
    let mut block = Block::new(2, 7);
    block.set_position(Point::new(4, 9));
    let placed = block;
    block.rotate();
    assert_eq!(block.position(), Some(Point::new(4, 9)));
    assert_ne!(block, placed);
    block.rotate();
    assert_eq!(block, placed);
}

#[test]
fn square_block_shows_the_same_dimensions_either_way() {
    let mut block = Block::new(4, 4);
    block.rotate();
    assert_eq!((block.width(), block.height()), (4, 4));
}

#[test]
fn set_position_records_the_anchor() {
    let mut block = Block::new(2, 3);
    block.set_position(Point::new(7, 1));
    assert_eq!(block.position(), Some(Point::new(7, 1)));
    assert_eq!(block.position().unwrap().parts(), (7, 1));
    block.set_position(Point::new(0, 5));
    assert_eq!(block.position().unwrap().parts(), (0, 5));
    assert_eq!((block.width(), block.height()), (2, 3));
}

#[test]
fn set_position_touches_no_board() {
    let board = Board::new(4);
    let mut block = Block::new(2, 2);
    block.set_position(Point::new(1, 1));
    assert!(board.blocks().is_empty());
    for y in 0..4 {
        for x in 0..4 {
            assert!(!board.cell_is_occupied(x, y));
        }
    }
}

#[test]
fn point_gives_back_its_parts() {
    assert_eq!(Point::new(3, 9).parts(), (3, 9));
    assert_eq!(Point::new(0, 0).parts(), (0, 0));
    assert_eq!(Point::new(usize::MAX, 2).parts(), (usize::MAX, 2));
    assert_eq!(Point::new(1, 2), Point::new(1, 2));
    assert_ne!(Point::new(1, 2), Point::new(2, 1));
}

#[test]
fn same_kind_looks_at_canonical_dimensions_only() {
    let a = Block::new(21, 18);
    let mut turned = Block::new(21, 18);
    turned.rotate();
    let mut placed = Block::new(21, 18);
    placed.set_position(Point::new(3, 3));
    assert!(a.same_kind(&a));
    assert!(a.same_kind(&turned));
    assert!(turned.same_kind(&a));
    assert!(a.same_kind(&placed));
    assert!(!a.same_kind(&Block::new(18, 21)));
    assert!(!a.same_kind(&Block::new(21, 14)));
    assert!(!a.same_kind(&Block::new(20, 18)));
}

#[test]
fn canonical_dimensions_ignore_orientation_and_anchor() {
    let mut block = Block::new(28, 6);
    assert_eq!(block.canonical_dimensions(), (28, 6));
    block.rotate();
    assert_eq!((block.width(), block.height()), (6, 28));
    assert_eq!(block.canonical_dimensions(), (28, 6));
    block.set_position(Point::new(2, 2));
    assert_eq!(block.canonical_dimensions(), (28, 6));
}

#[test]
fn orientation_has_two_distinct_values() {
    assert_ne!(Orientation::Horizontal, Orientation::Vertical);
    assert_eq!(Orientation::Vertical, Orientation::Vertical);
}

#[test]
fn failed_placement_leaves_the_callers_block_unplaced() {
    let mut board = Board::new(4);
    let block = Block::new(5, 1);
    assert!(!board.add_block_at(block, 0, 0));
    assert_eq!(block.position(), None);
    let small = Block::new(2, 1);
    assert!(board.add_block_at(small, 1, 1));
    assert_eq!(small.position(), None);
    assert_eq!(board.blocks()[0].position(), Some(Point::new(1, 1)));
}
