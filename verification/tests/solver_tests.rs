use calibron::block::Block;
use calibron::board::{Board, BOARD_SIZE};
use calibron::rng::Rng;
use calibron::solver::{add_block_at, distinct_kinds, solve_step};

fn blocks_of(dimensions: &[(usize, usize)]) -> Vec<Block> {
    dimensions.iter().map(|&(w, h)| Block::new(w, h)).collect()
}

fn occupied_cells(board: &Board) -> usize {
    let n = board.size();
    let mut count = 0;
    for y in 0..n {
        for x in 0..n {
            if board.cell_is_occupied(x, y) {
                count += 1;
            }
        }
    }
    count
}

/// Effective width, effective height and anchor of each placed block.
fn placements(board: &Board) -> Vec<(usize, usize, usize, usize)> {
    board
        .blocks()
        .iter()
        .map(|b| {
            let (x, y) = b.position().unwrap().parts();
            (b.width(), b.height(), x, y)
        })
        .collect()
}

/// Checks the placed blocks against the grid: within the board, no overlap,
/// and a cell is occupied exactly when a block covers it.
fn assert_consistent(board: &Board) {
    let n = board.size();
    let mut cover = vec![0usize; n * n];
    for (w, h, x, y) in placements(board) {
        assert!(x + w <= n && y + h <= n);
        for cy in y..y + h {
            for cx in x..x + w {
                cover[cy * n + cx] += 1;
            }
        }
    }
    for y in 0..n {
        for x in 0..n {
            assert!(cover[y * n + x] <= 1);
            assert_eq!(board.cell_is_occupied(x, y), cover[y * n + x] == 1);
        }
    }
}

fn calibron_pieces() -> Vec<Block> {
    blocks_of(&[
        (32, 11),
        (32, 10),
        (28, 14),
        (28, 7),
        (28, 6),
        (21, 18),
        (21, 18),
        (21, 14),
        (21, 14),
        (17, 14),
        (14, 4),
        (10, 7),
    ])
}

#[test]
fn no_pieces_is_solved_at_once() {
    let mut board = Board::new(8);
    let mut rng = Rng::new(1);
    assert!(solve_step(&mut board, &Vec::new(), false, &mut rng));
    assert!(solve_step(&mut board, &Vec::new(), true, &mut rng));
    assert!(board.blocks().is_empty());
    assert_eq!(occupied_cells(&board), 0);
}

#[test]
fn four_squares_tile_the_board() {
    let mut board = Board::new(8);
    let pieces = blocks_of(&[(4, 4), (4, 4), (4, 4), (4, 4)]);
    let mut rng = Rng::new(0);
    assert!(solve_step(&mut board, &pieces, false, &mut rng));
    assert_eq!(occupied_cells(&board), 64);
    assert_eq!(
        placements(&board),
        vec![(4, 4, 0, 0), (4, 4, 4, 0), (4, 4, 0, 4), (4, 4, 4, 4)]
    );
    assert_consistent(&board);
    assert_eq!(board.first_free_cell(), None);
}

#[test]
fn four_squares_tile_the_board_in_shuffled_order() {
    for seed in 0..10 {
        let mut board = Board::new(8);
        let pieces = blocks_of(&[(4, 4), (4, 4), (4, 4), (4, 4)]);
        let mut rng = Rng::new(seed);
        assert!(solve_step(&mut board, &pieces, true, &mut rng));
        assert_eq!(occupied_cells(&board), 64);
        assert_consistent(&board);
    }
}

#[test]
fn single_piece_of_board_size_solves_then_nothing_fits() {
    let mut board = Board::new(8);
    let mut rng = Rng::new(0);
    assert!(solve_step(&mut board, &blocks_of(&[(8, 8)]), false, &mut rng));
    assert_eq!(placements(&board), vec![(8, 8, 0, 0)]);
    assert!(!solve_step(&mut board, &blocks_of(&[(1, 1)]), false, &mut rng));
    assert_eq!(placements(&board), vec![(8, 8, 0, 0)]);
}

#[test]
fn search_places_turned_pieces() {
    let mut board = Board::new(4);
    let pieces = blocks_of(&[(3, 1), (1, 3), (3, 1), (1, 3), (2, 2)]);
    let mut rng = Rng::new(0);
    assert!(solve_step(&mut board, &pieces, false, &mut rng));
    assert_eq!(
        placements(&board),
        vec![(3, 1, 0, 0), (1, 3, 3, 0), (1, 3, 0, 1), (2, 2, 1, 1), (3, 1, 1, 3)]
    );
    assert_eq!(occupied_cells(&board), 16);
    assert_consistent(&board);
}

#[test]
fn shuffled_search_gives_the_expected_layout_for_a_seed() {
    let mut board = Board::new(4);
    let pieces = blocks_of(&[(3, 1), (1, 3), (3, 1), (1, 3), (2, 2)]);
    let mut rng = Rng::new(9);
    assert!(solve_step(&mut board, &pieces, true, &mut rng));
    assert_eq!(
        placements(&board),
        vec![(3, 1, 0, 0), (1, 3, 3, 0), (1, 3, 0, 1), (2, 2, 1, 1), (3, 1, 1, 3)]
    );
    assert_consistent(&board);
}

#[test]
fn shuffled_search_is_reproducible() {
    let pieces = blocks_of(&[(5, 2), (2, 5), (3, 3), (3, 2), (2, 3), (5, 1), (1, 4), (4, 1)]);
    for seed in [1, 2, 3, 77, u64::MAX] {
        let mut first = Board::new(6);
        let mut second = Board::new(6);
        let a = solve_step(&mut first, &pieces, true, &mut Rng::new(seed));
        let b = solve_step(&mut second, &pieces, true, &mut Rng::new(seed));
        assert_eq!(a, b);
        assert_eq!(first.blocks(), second.blocks());
        assert_consistent(&first);
    }
}

#[test]
fn shuffled_and_ordered_search_agree_on_solvability() {
    let solvable = blocks_of(&[(3, 1), (1, 3), (3, 1), (1, 3), (2, 2)]);
    let unsolvable = blocks_of(&[(1, 4), (3, 2), (2, 3), (1, 1)]);
    for seed in 0..20 {
        let mut board = Board::new(4);
        assert!(solve_step(&mut board, &solvable, true, &mut Rng::new(seed)));
        let mut board = Board::new(4);
        assert!(!solve_step(&mut board, &unsolvable, true, &mut Rng::new(seed)));
        assert!(board.blocks().is_empty());
    }
    let mut board = Board::new(4);
    assert!(!solve_step(&mut board, &unsolvable, false, &mut Rng::new(0)));
}

#[test]
fn ordered_search_leaves_the_generator_untouched() {
    let mut board = Board::new(4);
    let pieces = blocks_of(&[(3, 1), (1, 3), (3, 1), (1, 3), (2, 2)]);
    let mut rng = Rng::new(31);
    assert!(solve_step(&mut board, &pieces, false, &mut rng));
    assert_eq!(rng.next_u64(), Rng::new(31).next_u64());
    let mut rng = Rng::new(31);
    let mut board = Board::new(4);
    assert!(solve_step(&mut board, &pieces, true, &mut rng));
    assert_ne!(rng.next_u64(), Rng::new(31).next_u64());
}

#[test]
fn failed_search_leaves_the_board_as_it_was() {
    let mut board = Board::new(4);
    assert!(board.add_block_at(Block::new(4, 1), 0, 3));
    let before = board.blocks().clone();
    let pieces = blocks_of(&[(1, 3), (3, 2), (2, 1), (1, 1), (2, 2)]);
    for randomize in [false, true] {
        let mut rng = Rng::new(3);
        assert!(!solve_step(&mut board, &pieces, randomize, &mut rng));
        assert_eq!(board.blocks(), &before);
        assert_eq!(occupied_cells(&board), 4);
        assert_consistent(&board);
    }
}

#[test]
fn search_extends_a_board_that_already_holds_blocks() {
    let mut board = Board::new(4);
    assert!(board.add_block_at(Block::new(4, 2), 0, 0));
    let pieces = blocks_of(&[(2, 2), (1, 2), (1, 2)]);
    assert!(solve_step(&mut board, &pieces, false, &mut Rng::new(0)));
    assert_eq!(
        placements(&board),
        vec![(4, 2, 0, 0), (2, 2, 0, 2), (1, 2, 2, 2), (1, 2, 3, 2)]
    );
    assert_eq!(occupied_cells(&board), 16);
}

#[test]
fn more_area_than_the_board_always_fails() {
    for randomize in [false, true] {
        let mut board = Board::new(8);
        let pieces = blocks_of(&[(4, 4), (4, 4), (4, 4), (4, 4), (4, 4)]);
        assert!(!solve_step(&mut board, &pieces, randomize, &mut Rng::new(6)));
        assert!(board.blocks().is_empty());
        assert_eq!(occupied_cells(&board), 0);

        let mut board = Board::new(8);
        let pieces = blocks_of(&[(8, 7), (8, 1), (1, 1)]);
        assert!(!solve_step(&mut board, &pieces, randomize, &mut Rng::new(6)));
        assert!(board.blocks().is_empty());
    }
}

#[test]
fn less_area_than_the_board_never_tiles_it() {
    for randomize in [false, true] {
        let mut board = Board::new(8);
        let solved = solve_step(&mut board, &blocks_of(&[(4, 4)]), randomize, &mut Rng::new(2));
        assert!(solved);
        assert_eq!(occupied_cells(&board), 16);
        assert_eq!(board.first_free_cell(), Some((4, 0)));

        let mut board = Board::new(8);
        let pieces = blocks_of(&[(5, 5), (5, 5)]);
        assert!(!solve_step(&mut board, &pieces, randomize, &mut Rng::new(2)));
        assert!(board.blocks().is_empty());
        assert_eq!(occupied_cells(&board), 0);
    }
}

#[test]
fn distinct_kinds_keeps_the_first_of_each_kind() {
    let pieces = blocks_of(&[(21, 18), (21, 18), (21, 14), (18, 21), (21, 14), (1, 1), (21, 18)]);
    assert_eq!(distinct_kinds(&pieces), vec![0, 2, 3, 5]);
    assert_eq!(distinct_kinds(&Vec::new()), Vec::<usize>::new());
    assert_eq!(distinct_kinds(&calibron_pieces()), vec![0, 1, 2, 3, 4, 5, 7, 9, 10, 11]);
    let mut turned = Block::new(4, 2);
    turned.rotate();
    assert_eq!(distinct_kinds(&vec![Block::new(4, 2), turned, Block::new(2, 4)]), vec![0, 2]);
}

#[test]
fn add_block_at_keeps_the_block_when_the_rest_can_be_placed() {
    let mut board = Board::new(4);
    let rest = blocks_of(&[(2, 4)]);
    assert!(add_block_at(&mut board, Block::new(2, 4), &rest, 0, 0, false, &mut Rng::new(0)));
    assert_eq!(placements(&board), vec![(2, 4, 0, 0), (2, 4, 2, 0)]);
}

#[test]
fn add_block_at_takes_the_block_off_when_the_rest_cannot_be_placed() {
    let mut board = Board::new(4);
    let rest = blocks_of(&[(3, 4)]);
    assert!(!add_block_at(&mut board, Block::new(2, 4), &rest, 0, 0, false, &mut Rng::new(0)));
    assert!(board.blocks().is_empty());
    assert_eq!(occupied_cells(&board), 0);
}

#[test]
fn add_block_at_fails_where_the_block_does_not_fit() {
    let mut board = Board::new(4);
    assert!(board.add_block_at(Block::new(1, 1), 1, 0));
    let none: Vec<Block> = Vec::new();
    assert!(!add_block_at(&mut board, Block::new(2, 2), &none, 0, 0, false, &mut Rng::new(0)));
    assert!(!add_block_at(&mut board, Block::new(2, 2), &none, 3, 3, false, &mut Rng::new(0)));
    assert_eq!(placements(&board), vec![(1, 1, 1, 0)]);
    assert!(add_block_at(&mut board, Block::new(2, 2), &none, 2, 0, false, &mut Rng::new(0)));
    assert_eq!(occupied_cells(&board), 5);
}

#[test]
fn calibron_pieces_sum_to_the_board_area() {
    let area: usize = calibron_pieces().iter().map(|b| b.width() * b.height()).sum();
    assert_eq!(area, 3136);
    assert_eq!(area, BOARD_SIZE * BOARD_SIZE);
}

#[test]
fn calibron_is_tiled_biggest_first() {
    let mut board = Board::new(BOARD_SIZE);
    let mut rng = Rng::new(0);
    assert!(solve_step(&mut board, &calibron_pieces(), false, &mut rng));
    assert_eq!(occupied_cells(&board), 3136);
    assert_eq!(board.first_free_cell(), None);
    assert_eq!(
        placements(&board),
        vec![
            (32, 11, 0, 0),
            (10, 32, 32, 0),
            (14, 21, 42, 0),
            (14, 17, 0, 11),
            (18, 21, 14, 11),
            (14, 21, 42, 21),
            (7, 28, 0, 28),
            (7, 10, 7, 28),
            (28, 6, 14, 32),
            (21, 18, 7, 38),
            (14, 4, 28, 38),
            (28, 14, 28, 42)
        ]
    );
    assert_consistent(&board);
}

#[test]
fn calibron_is_tiled_in_a_shuffled_order() {
    let mut board = Board::new(BOARD_SIZE);
    let mut rng = Rng::new(5);
    assert!(solve_step(&mut board, &calibron_pieces(), true, &mut rng));
    assert_eq!(occupied_cells(&board), 3136);
    assert_eq!(board.blocks().len(), 12);
    assert_consistent(&board);
}
