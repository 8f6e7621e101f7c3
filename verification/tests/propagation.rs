use sudoku_solver::{
    make_choice, parse_puzzle, update_constraints, update_constraints_pointwise, BitCube, Cell,
    Neighbors, Puzzle,
};

const EXAMPLE: &str =
    "9.4..5...25.6..1..31......8.7...9...4..26......147....7.......2...3..8.6.4.....9.";

fn bits(p: &Puzzle) -> Vec<u16> {
    (0..81).map(|i| p[i].0).collect()
}

#[test]
fn global_pass_on_the_example() {
    let mut p = parse_puzzle(EXAMPLE).unwrap();
    update_constraints(&mut p);
    let expected: Vec<u16> = vec![
        512, 320, 16, 386, 270, 32, 204, 204, 136, 4, 32, 384, 64, 792, 408, 2, 152, 664, 8, 2,
        192, 640, 532, 148, 756, 244, 256, 352, 128, 364, 290, 298, 512, 124, 382, 58, 16, 776,
        808, 4, 64, 266, 680, 426, 682, 352, 844, 2, 16, 128, 264, 620, 364, 552, 128, 840, 872,
        802, 818, 338, 56, 58, 4, 34, 516, 548, 8, 566, 150, 256, 178, 64, 354, 16, 364, 418,
        294, 454, 168, 512, 170,
    ];
    assert_eq!(bits(&p), expected);
}

#[test]
fn global_pass_leaves_an_open_grid_as_it_is() {
    let mut p = BitCube::new();
    update_constraints(&mut p);
    assert_eq!(bits(&p), vec![1022; 81]);
}

#[test]
fn global_pass_twice_without_a_new_assignment() {
    let mut once = parse_puzzle(EXAMPLE).unwrap();
    update_constraints(&mut once);
    // the pass has determined no cell of the example
    let given = parse_puzzle(EXAMPLE).unwrap();
    for i in 0..81 {
        assert_eq!(once[i].num_choices() == 1, given[i].num_choices() == 1);
    }
    let mut twice = once.clone();
    update_constraints(&mut twice);
    assert_eq!(bits(&twice), bits(&once));
}

#[test]
fn global_pass_twice_after_a_new_assignment() {
    // the first column holds 1 to 8 below the first cell: the pass over the
    // columns determines the first cell, after the pass over its row
    let text = format!("{}{}", ".".repeat(9), "1........2........3........4........5........6........7........8........");
    let mut p = parse_puzzle(&text).unwrap();
    update_constraints(&mut p);
    assert_eq!(bits(&p)[..9], [512, 504, 504, 1022, 1022, 1022, 1022, 1022, 1022]);
    update_constraints(&mut p);
    assert_eq!(bits(&p)[..9], [512, 504, 504, 510, 510, 510, 510, 510, 510]);
}

#[test]
fn global_pass_stops_at_the_last_candidate() {
    let mut p = BitCube::new();
    p[0] = Cell::singleton(1);
    p[1] = Cell::singleton(2);
    p[2] = Cell(0b110);
    update_constraints(&mut p);
    assert_eq!(bits(&p)[..9], [2, 4, 4, 1016, 1016, 1016, 1016, 1016, 1016]);
}

#[test]
fn global_pass_leaves_determined_cells_alone() {
    let text = format!("999999999{}", ".".repeat(72));
    let mut p = parse_puzzle(&text).unwrap();
    update_constraints(&mut p);
    for i in 0..9 {
        assert_eq!(p[i], Cell::singleton(9));
    }
    for i in 9..81 {
        assert_eq!(p[i], Cell(0b0111111110));
    }
}

#[test]
fn pointwise_pass_removes_the_value_from_the_peers_only() {
    let n = Neighbors::new();
    let mut p = BitCube::new();
    make_choice(&mut p, (40, 5));
    assert!(update_constraints_pointwise(&mut p, &n, 40, 5));
    for i in 0..81 {
        if i == 40 {
            assert_eq!(p[i], Cell::singleton(5));
        } else if n[40].contains(&i) {
            assert_eq!(p[i], Cell(990));
        } else {
            assert_eq!(p[i], Cell(1022));
        }
    }
}

#[test]
fn pointwise_pass_follows_a_cell_that_it_determines() {
    let n = Neighbors::new();
    let mut p = BitCube::new();
    p[0] = Cell::singleton(1);
    p[1] = Cell(0b0110);
    p[2] = Cell(0b1100);
    assert!(update_constraints_pointwise(&mut p, &n, 0, 1));
    // cell 1 comes down to 2, and that brings cell 2 down to 3
    assert_eq!(p[0], Cell::singleton(1));
    assert_eq!(p[1], Cell::singleton(2));
    assert_eq!(p[2], Cell::singleton(3));
    for i in 3..9 {
        assert_eq!(p[i], Cell(1008));
    }
    for i in [9, 10, 11, 18, 19, 20] {
        assert_eq!(p[i], Cell(1008));
    }
    for r in 3..9 {
        assert_eq!(p[r * 9], Cell(1020));
        assert_eq!(p[r * 9 + 1], Cell(1018));
        assert_eq!(p[r * 9 + 2], Cell(1014));
        for c in 3..9 {
            assert_eq!(p[r * 9 + c], Cell(1022));
        }
    }
    for r in 1..3 {
        for c in 3..9 {
            assert_eq!(p[r * 9 + c], Cell(1022));
        }
    }
}

#[test]
fn pointwise_pass_fails_on_a_peer_without_candidates() {
    let n = Neighbors::new();
    let mut p = BitCube::new();
    p[0] = Cell::singleton(1);
    p[1] = Cell::singleton(1);
    assert!(!update_constraints_pointwise(&mut p, &n, 0, 1));
    assert_eq!(p[1], Cell::empty());
    // the pass stops at the first peer that fails
    assert_eq!(p[2], Cell(1022));
}

#[test]
fn pointwise_pass_fails_on_a_peer_that_was_empty_before() {
    let n = Neighbors::new();
    let mut p = BitCube::new();
    p[0] = Cell::singleton(1);
    p[72] = Cell::empty();
    assert!(!update_constraints_pointwise(&mut p, &n, 0, 1));
}

#[test]
fn pointwise_pass_fails_where_following_up_fails() {
    let n = Neighbors::new();
    let mut p = BitCube::new();
    p[0] = Cell::singleton(1);
    p[1] = Cell(0b0110);
    p[2] = Cell::singleton(2);
    assert!(!update_constraints_pointwise(&mut p, &n, 0, 1));
    assert_eq!(p[0], Cell::singleton(1));
    assert_eq!(p[1], Cell::singleton(2));
    assert_eq!(p[2], Cell::empty());
}

#[test]
fn pointwise_pass_twice_changes_nothing_more() {
    let n = Neighbors::new();
    let mut p = BitCube::new();
    p[0] = Cell::singleton(1);
    p[1] = Cell(0b0110);
    assert!(update_constraints_pointwise(&mut p, &n, 0, 1));
    let once = bits(&p);
    assert!(update_constraints_pointwise(&mut p, &n, 0, 1));
    assert_eq!(bits(&p), once);
}

#[test]
fn choice_sets_one_cell() {
    let mut p = BitCube::new();
    make_choice(&mut p, (80, 9));
    make_choice(&mut p, (0, 1));
    assert_eq!(p[80], Cell(512));
    assert_eq!(p[0], Cell(2));
    for i in 1..80 {
        assert_eq!(p[i], Cell(1022));
    }
}
