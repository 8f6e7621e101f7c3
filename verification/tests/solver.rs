use sudoku_solver::{
    parse_puzzle, solve_puzzle, update_constraints, BitCube, Cell, Neighbors, NoSolution, Puzzle,
};

const SOLVED: &str =
    "964815237258637149317924658872159364495263781631478925783596412529341876146782593";

fn get_puzzle() -> Puzzle {
    let s = "9.4..5...25.6..1..31......8.7...9...4..26......147....7.......2...3..8.6.4.....9.";
    parse_puzzle(s).unwrap()
}

fn digits(p: &Puzzle) -> String {
    (0..81).map(|i| p[i].get_value().to_string()).collect()
}

#[test]
fn solving() {
    let p = get_puzzle();
    let s = solve_puzzle(p, &Neighbors::new()).unwrap();
    assert!(s.is_done());
    assert!(s.is_valid());
}

#[test]
fn parsing() {
    let p = get_puzzle();
    let c = Cell::singleton(9);
    assert_eq!(p[0], c);
}

#[test]
fn constraint_update() {
    let mut p = get_puzzle();
    update_constraints(&mut p);
}

#[test]
fn neighbors() {
    assert_eq!(
        Neighbors::new()[0],
        vec![1, 2, 3, 4, 5, 6, 7, 8, 9, 18, 27, 36, 45, 54, 63, 72, 10, 11, 19, 20]
    );
}

#[test]
fn example_is_solved() {
    let grid = solve_puzzle(get_puzzle(), &Neighbors::new()).unwrap();
    assert_eq!(grid[0].get_value(), 9);
    assert_eq!(grid[2].get_value(), 4);
    assert_eq!(grid[0], Cell::singleton(9));
    assert_eq!(grid[2], Cell::singleton(4));
    assert!(grid.is_valid());
    assert_eq!(digits(&grid), SOLVED);
    assert_eq!(
        grid.to_string(),
        "9 6 4 8 1 5 2 3 7 \n2 5 8 6 3 7 1 4 9 \n3 1 7 9 2 4 6 5 8 \n8 7 2 1 5 9 3 6 4 \n\
         4 9 5 2 6 3 7 8 1 \n6 3 1 4 7 8 9 2 5 \n7 8 3 5 9 6 4 1 2 \n5 2 9 3 4 1 8 7 6 \n\
         1 4 6 7 8 2 5 9 3 \n"
    );
}

#[test]
fn solution_keeps_the_clues() {
    let puzzle = get_puzzle();
    let grid = solve_puzzle(puzzle.clone(), &Neighbors::new()).unwrap();
    for i in 0..81 {
        assert_eq!(grid[i].num_choices(), 1);
        assert!(puzzle[i].get(grid[i].get_value()));
    }
}

#[test]
fn first_row_of_nines_has_no_solution() {
    let text = format!("999999999{}", ".".repeat(72));
    let puzzle = parse_puzzle(&text).unwrap();
    assert_eq!(solve_puzzle(puzzle, &Neighbors::new()).err(), Some(NoSolution));
}

#[test]
fn cell_without_a_possible_digit_has_no_solution() {
    // the last cell of the first row can only be 9, and 9 stands below it
    let text = format!("12345678.........9{}", ".".repeat(63));
    let puzzle = parse_puzzle(&text).unwrap();
    assert_eq!(solve_puzzle(puzzle, &Neighbors::new()).err(), Some(NoSolution));
}

#[test]
fn grid_with_an_empty_cell_has_no_solution() {
    let mut puzzle = parse_puzzle(SOLVED).unwrap();
    puzzle[44] = Cell::empty();
    assert_eq!(solve_puzzle(puzzle, &Neighbors::new()).err(), Some(NoSolution));
}

#[test]
fn completed_grid_with_a_repeated_digit_has_no_solution() {
    let mut puzzle = parse_puzzle(SOLVED).unwrap();
    puzzle[0].set_value(6);
    assert_eq!(solve_puzzle(puzzle, &Neighbors::new()).err(), Some(NoSolution));
}

#[test]
fn solved_grid_is_returned_as_it_is() {
    let puzzle = parse_puzzle(SOLVED).unwrap();
    assert!(puzzle.is_valid());
    let grid = solve_puzzle(puzzle.clone(), &Neighbors::new()).unwrap();
    for i in 0..81 {
        assert_eq!(grid[i], puzzle[i]);
    }
    assert!(grid.is_valid());
}

#[test]
fn solving_twice_gives_the_same_grid() {
    let n = Neighbors::new();
    let first = solve_puzzle(get_puzzle(), &n).unwrap();
    let second = solve_puzzle(get_puzzle(), &n).unwrap();
    let third = solve_puzzle(get_puzzle(), &Neighbors::new()).unwrap();
    assert_eq!(digits(&first), digits(&second));
    assert_eq!(digits(&first), digits(&third));
}

#[test]
fn solver_leaves_the_puzzle_of_the_caller_alone() {
    let puzzle = get_puzzle();
    let copy = puzzle.clone();
    let _ = solve_puzzle(copy, &Neighbors::new());
    assert_eq!(puzzle[0], Cell::singleton(9));
    assert_eq!(puzzle[1], Cell(1022));
}

#[test]
fn open_grid_is_filled() {
    let grid = solve_puzzle(BitCube::new(), &Neighbors::new()).unwrap();
    assert!(grid.is_valid());
    assert_eq!(
        digits(&grid),
        "123456789456789123789123456231674895875912364694538217317265948542897631968341572"
    );
}

#[test]
fn one_missing_digit_is_filled_in() {
    let text = format!(".{}", &SOLVED[1..]);
    let grid = solve_puzzle(parse_puzzle(&text).unwrap(), &Neighbors::new()).unwrap();
    assert_eq!(digits(&grid), SOLVED);
}

#[test]
fn hard_puzzles_are_solved() {
    let n = Neighbors::new();
    let first = "1....7.9..3..2...8..96..5....53..9...1..8...26....4...3......1..4......7..7...3..";
    let grid = solve_puzzle(parse_puzzle(first).unwrap(), &n).unwrap();
    assert_eq!(
        digits(&grid),
        "162857493534129678789643521475312986913586742628794135356478219241935867897261354"
    );
    let second = "8..........36......7..9.2...5...7.......457.....1...3...1....68..85...1..9....4..";
    let grid = solve_puzzle(parse_puzzle(second).unwrap(), &n).unwrap();
    assert_eq!(
        digits(&grid),
        "812753649943682175675491283154237896369845721287169534521974368438526917796318452"
    );
}
