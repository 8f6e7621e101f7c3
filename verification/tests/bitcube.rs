use sudoku_solver::{BitCube, Cell};

#[test]
fn cell() {
    let mut c = Cell(0);
    c.set(2);
    assert_eq!(c.0, 4);
    assert_eq!(c.num_choices(), 1);
    assert_eq!(c.get_value(), 2);

    c.set(4);
    assert_eq!(c.0, 20);
    assert_eq!(c.num_choices(), 2);

    c.set(1);
    assert_eq!(c.0, 22);
    assert_eq!(c.num_choices(), 3);

    c.clear(1);
    assert_eq!(c.num_choices(), 2);
    c.clear(2);
    assert_eq!(c.0, 16);
    assert_eq!(c.num_choices(), 1);
    assert_eq!(c.get_value(), 4);

    c.clear(4);
    assert_eq!(c.0, 0);
    assert_eq!(c.num_choices(), 0);

    c.set(1);
    assert_eq!(c.0, 2);
    assert_eq!(c.num_choices(), 1);
    c.clear(2);
    assert_eq!(c.0, 2);
    assert_eq!(c.num_choices(), 1);
    c.clear(2);
    assert_eq!(c.0, 2);
    assert_eq!(c.num_choices(), 1);
}

#[test]
fn bitcube() {
    let mut b = BitCube { storage: [Cell(0); 81] };
    b[0].set(2);
    b[1].set(4);

    assert_eq!(b[0].0, 4);
    assert_eq!(b[1].0, 16);
    assert_eq!(b[2].0, 0);

    let b = BitCube::new();
    assert_eq!(b[0].num_choices(), 9);
}
