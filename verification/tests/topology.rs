use sudoku_solver::Neighbors;

#[test]
fn peers_of_the_centre_and_of_the_last_cell() {
    let n = Neighbors::new();
    assert_eq!(
        n[40],
        vec![36, 37, 38, 39, 41, 42, 43, 44, 4, 13, 22, 31, 49, 58, 67, 76, 30, 32, 48, 50]
    );
    assert_eq!(
        n[80],
        vec![72, 73, 74, 75, 76, 77, 78, 79, 8, 17, 26, 35, 44, 53, 62, 71, 60, 61, 69, 70]
    );
    assert_eq!(
        n[13],
        vec![9, 10, 11, 12, 14, 15, 16, 17, 4, 22, 31, 40, 49, 58, 67, 76, 3, 5, 21, 23]
    );
}

#[test]
fn every_cell_has_twenty_different_peers() {
    let n = Neighbors::new();
    for i in 0..81 {
        let list = &n[i];
        assert_eq!(list.len(), 20);
        for (a, x) in list.iter().enumerate() {
            assert!(*x < 81);
            assert_ne!(*x, i);
            for y in list.iter().skip(a + 1) {
                assert_ne!(x, y);
            }
        }
    }
}

#[test]
fn peer_lists_are_symmetric() {
    let n = Neighbors::new();
    for i in 0..81 {
        for j in 0..81 {
            assert_eq!(n[i].contains(&j), n[j].contains(&i));
        }
    }
}

#[test]
fn peers_are_the_cells_of_the_same_row_column_or_block() {
    let n = Neighbors::new();
    for i in 0..81 {
        for j in 0..81 {
            let same_row = i / 9 == j / 9;
            let same_col = i % 9 == j % 9;
            let same_block = i / 27 == j / 27 && (i % 9) / 3 == (j % 9) / 3;
            assert_eq!(n[i].contains(&j), i != j && (same_row || same_col || same_block));
        }
    }
}
