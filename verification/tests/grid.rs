use sudoku_solver::{parse_puzzle, BitCube, Cell, Puzzle};

const EXAMPLE: &str =
    "9.4..5...25.6..1..31......8.7...9...4..26......147....7.......2...3..8.6.4.....9.";
const SOLVED: &str =
    "964815237258637149317924658872159364495263781631478925783596412529341876146782593";

#[test]
fn new_grid_is_fully_open() {
    let b = BitCube::new();
    for i in 0..81 {
        assert_eq!(b[i], Cell(0b1111111110));
        assert_eq!(b[i].num_choices(), 9);
        assert!(!b[i].get(0));
        assert!(b[i].get(1));
        assert!(b[i].get(9));
        assert!(!b[i].get(10));
    }
    assert!(!b.is_done());
    assert!(!b.is_valid());
}

#[test]
fn clone_is_independent() {
    let a = BitCube::new();
    let mut b = a.clone();
    b[40].set_value(5);
    b[0].clear(1);
    assert_eq!(a[40], Cell(0b1111111110));
    assert_eq!(a[0], Cell(0b1111111110));
    assert_eq!(b[40], Cell(32));
    assert_eq!(b[0], Cell(0b1111111100));
    for i in 1..81 {
        if i != 40 {
            assert_eq!(a[i], b[i]);
        }
    }
}

#[test]
fn rows_columns_and_blocks_by_index() {
    assert_eq!(Puzzle::row(0, 0), 0);
    assert_eq!(Puzzle::row(2, 3), 21);
    assert_eq!(Puzzle::row(8, 8), 80);
    assert_eq!(Puzzle::col(0, 0), 0);
    assert_eq!(Puzzle::col(2, 3), 29);
    assert_eq!(Puzzle::col(8, 8), 80);
    assert_eq!(Puzzle::subcell(0, 0), 0);
    assert_eq!(Puzzle::subcell(0, 8), 20);
    assert_eq!(Puzzle::subcell(4, 5), 41);
    assert_eq!(Puzzle::subcell(2, 3), 15);
    assert_eq!(Puzzle::subcell(6, 1), 55);
    assert_eq!(Puzzle::subcell(8, 8), 80);
}

#[test]
fn block_members_in_order() {
    let block: Vec<usize> = (0..9).map(|i| Puzzle::subcell(5, i)).collect();
    assert_eq!(block, vec![33, 34, 35, 42, 43, 44, 51, 52, 53]);
}

#[test]
fn units_are_rows_then_columns_then_blocks() {
    for k in 0..9 {
        for u in 0..9 {
            assert_eq!(Puzzle::unit(u, k), Puzzle::row(u, k));
            assert_eq!(Puzzle::unit(9 + u, k), Puzzle::col(u, k));
            assert_eq!(Puzzle::unit(18 + u, k), Puzzle::subcell(u, k));
        }
    }
    assert_eq!(Puzzle::unit(26, 0), 60);
}

#[test]
fn every_index_is_in_one_row_one_column_and_one_block() {
    let mut rows = vec![0; 81];
    let mut cols = vec![0; 81];
    let mut blocks = vec![0; 81];
    for u in 0..9 {
        for k in 0..9 {
            rows[Puzzle::row(u, k)] += 1;
            cols[Puzzle::col(u, k)] += 1;
            blocks[Puzzle::subcell(u, k)] += 1;
        }
    }
    assert_eq!(rows, vec![1; 81]);
    assert_eq!(cols, vec![1; 81]);
    assert_eq!(blocks, vec![1; 81]);
}

#[test]
fn done_means_one_candidate_everywhere() {
    let mut p = parse_puzzle(SOLVED).unwrap();
    assert!(p.is_done());
    p[80].set(1);
    assert!(!p.is_done());
    p[80].set_value(3);
    assert!(p.is_done());
    p[0] = Cell::empty();
    assert!(!p.is_done());
}

#[test]
fn validator_accepts_a_solved_grid() {
    let p = parse_puzzle(SOLVED).unwrap();
    assert!(p.is_valid());
}

#[test]
fn validator_rejects_an_incomplete_grid() {
    let p = parse_puzzle(EXAMPLE).unwrap();
    assert!(!p.is_valid());
    let mut q = parse_puzzle(SOLVED).unwrap();
    q[17].set(2);
    assert!(!q.is_valid());
}

#[test]
fn validator_rejects_a_repeated_digit() {
    // the first two cells swapped against the third row: rows stay complete, columns do not
    let mut p = parse_puzzle(SOLVED).unwrap();
    p[0].set_value(6);
    p[1].set_value(9);
    assert!(p.is_done());
    assert!(!p.is_valid());
    // one digit replaced
    let mut q = parse_puzzle(SOLVED).unwrap();
    q[80].set_value(9);
    assert!(q.is_done());
    assert!(!q.is_valid());
}

#[test]
fn validator_rejects_values_that_are_no_digits() {
    let mut p = parse_puzzle(SOLVED).unwrap();
    p[0].set_value(0);
    assert!(p.is_done());
    assert!(!p.is_valid());
    let mut q = parse_puzzle(SOLVED).unwrap();
    q[0].set_value(10);
    assert!(!q.is_valid());
}

#[test]
fn validator_checks_the_blocks() {
    // every row and every column is complete, the blocks are not
    let rows = [
        "123456789", "234567891", "345678912", "456789123", "567891234", "678912345",
        "789123456", "891234567", "912345678",
    ];
    let p = parse_puzzle(&rows.concat()).unwrap();
    assert!(p.is_done());
    assert!(!p.is_valid());
}

#[test]
fn most_constrained_is_the_first_of_the_fewest() {
    let mut p = BitCube::new();
    assert_eq!(p.get_most_constrained(), Some(0));
    p[30] = Cell(0b1110);
    assert_eq!(p.get_most_constrained(), Some(30));
    p[50] = Cell(0b0110);
    assert_eq!(p.get_most_constrained(), Some(50));
    p[60] = Cell(0b1100);
    assert_eq!(p.get_most_constrained(), Some(50));
    p[7] = Cell(0b1010);
    assert_eq!(p.get_most_constrained(), Some(7));
    // cells with one candidate or none are passed over
    p[3] = Cell(0b0010);
    p[4] = Cell::empty();
    assert_eq!(p.get_most_constrained(), Some(7));
}

#[test]
fn most_constrained_of_a_grid_without_open_cells() {
    let p = parse_puzzle(SOLVED).unwrap();
    assert_eq!(p.get_most_constrained(), None);
    let mut q = parse_puzzle(SOLVED).unwrap();
    q[11] = Cell::empty();
    assert_eq!(q.get_most_constrained(), None);
    let mut r = parse_puzzle(SOLVED).unwrap();
    r[80] = Cell(0xffff);
    assert_eq!(r.get_most_constrained(), Some(80));
}

#[test]
fn cell_choice_is_made_on_a_copy() {
    let p = parse_puzzle(EXAMPLE).unwrap();
    let q = p.with_cell_choice(1, 6);
    assert_eq!(p[1], Cell(0b1111111110));
    assert_eq!(q[1], Cell::singleton(6));
    for i in 0..81 {
        if i != 1 {
            assert_eq!(p[i], q[i]);
        }
    }
}

#[test]
fn grid_as_text() {
    let p = parse_puzzle(EXAMPLE).unwrap();
    assert_eq!(
        p.to_string(),
        "9 . 4 . . 5 . . . \n2 5 . 6 . . 1 . . \n3 1 . . . . . . 8 \n. 7 . . . 9 . . . \n\
         4 . . 2 6 . . . . \n. . 1 4 7 . . . . \n7 . . . . . . . 2 \n. . . 3 . . 8 . 6 \n\
         . 4 . . . . . 9 . \n"
    );
}

#[test]
fn text_of_unusual_cells() {
    let mut p = BitCube::new();
    p[0] = Cell::empty();
    p[1] = Cell::singleton(0);
    p[2] = Cell::singleton(12);
    p[3] = Cell::singleton(15);
    p[4] = Cell::singleton(10);
    p[5] = Cell::singleton(9);
    let text = p.to_string();
    let first_line = text.lines().next().unwrap();
    assert_eq!(first_line, ". 0 12 15 10 9 . . . ");
    assert_eq!(text.lines().count(), 9);
    assert_eq!(text.lines().nth(8).unwrap(), ". . . . . . . . . ");
}
